use tool_runtime::artifact::{
    coverage_clauses, coverage_facts, finish, is_char_boundary, page_content_budget_chars,
    resolve_window, worst_case_footer_chars, ArtifactError, ArtifactPage, Capture, CaptureWindow,
    ScannedPosition, SourcePosition, MAX_SCAN_BYTES,
};
use tool_runtime::page::{
    coverage_footer, rendered_prefix_chars, DeliveredSpan, FINAL_BODY_CHARS,
};

const REFERENCE: &str = "artifact://v1/00000000-0000-0000-0000-000000000000/process/\
    0000000000000000000000000000000000000000000000000000000000000000";

/// Reads one page of an artifact.
fn read(
    bytes: &[u8],
    start_line: usize,
    end_line: Option<usize>,
    offset: usize,
) -> Result<ArtifactPage, ArtifactError> {
    let end_line = resolve_window(start_line, end_line)?;
    let mut capture = Capture::new(CaptureWindow {
        start_line,
        end_line,
        start_offset: offset,
        budget: page_content_budget_chars(REFERENCE),
    });
    let budget = MAX_SCAN_BYTES as usize;
    let scanned = &bytes[..bytes.len().min(budget)];
    for line in scanned.split_inclusive(|b| *b == b'\n') {
        capture.take_line(line)?;
    }
    let page = finish(capture, bytes.len() <= budget, REFERENCE, "log");
    assert!(page.body.chars().count() <= FINAL_BODY_CHARS);
    Ok(page)
}

/// The rendered lines of a page.
fn entries(body: &str) -> Vec<(usize, String)> {
    body.lines()
        .filter_map(|line| {
            if line.starts_with('[') {
                return None;
            }
            let (number, text) = line.trim_start().split_once(" | ")?;
            Some((number.parse::<usize>().ok()?, text.to_string()))
        })
        .collect()
}

/// The continuation that a page's body offers.
fn continuation(body: &str) -> (usize, usize) {
    let marker = "continue with artifact.read ";
    let at = body.find(marker).expect("the page offers a continuation");
    let clause = body[at + marker.len()..].split(['\n', ';']).next().unwrap();
    let mut start = None;
    let mut offset = 0;
    for token in clause.split_whitespace() {
        if let Some(value) = token.strip_prefix("start_line=") {
            start = value.parse::<usize>().ok();
        } else if let Some(value) = token.strip_prefix("line_byte_offset=") {
            offset = value.parse::<usize>().unwrap();
        } else {
            assert_eq!(token, format!("reference={REFERENCE}"));
        }
    }
    (start.unwrap(), offset)
}

/// Reads an artifact by the continuations alone.
fn walk(bytes: &[u8], from: (usize, usize)) -> Vec<ArtifactPage> {
    let mut pages = vec![];
    let mut at = from;
    loop {
        let page = read(bytes, at.0, None, at.1).unwrap();
        if page.body.contains("end of artifact") || !page.has_more {
            assert!(!page.has_more && !page.window_truncated);
            pages.push(page);
            return pages;
        }
        let next = continuation(&page.body);
        assert_eq!(
            page.delivered,
            SourcePosition::new(next.0, next.1),
            "the body and the position agree"
        );
        assert!(next > at, "the cursor must advance");
        at = next;
        pages.push(page);
        assert!(pages.len() < 300, "the walk must end");
    }
}

#[test]
fn reads_a_bounded_range_with_paging_metadata() {
    let text = b"alpha\nbeta\ngamma\ndelta\n";
    let whole = read(text, 1, None, 0).unwrap();
    assert!(whole.body.contains("alpha") && whole.body.contains("delta"));
    assert_eq!(whole.scanned.lines, 4);
    assert!(!whole.has_more);
    assert!(!whole.body.contains("[coverage]"), "{}", whole.body);

    let part = read(text, 2, Some(3), 0).unwrap();
    assert_eq!(
        entries(&part.body),
        vec![(2, "beta".to_string()), (3, "gamma".to_string())]
    );
    assert!(part.has_more);
    assert_eq!(part.delivered, SourcePosition::new(4, 0));
    assert_eq!(part.summary, "read lines 2-3 of log (4 lines total)");
}

#[test]
fn refuses_invalid_ranges_and_non_artifact_references() {
    assert_eq!(resolve_window(5, Some(3)), Err(ArtifactError::InvalidRange));
    assert_eq!(resolve_window(0, Some(3)), Err(ArtifactError::InvalidRange));
    assert_eq!(resolve_window(1, Some(401)), Err(ArtifactError::TooManyLines));
    assert_eq!(resolve_window(1, Some(400)), Ok(400));
    assert_eq!(
        ArtifactError::TooManyLines.message(),
        "artifact.read is limited to 400 lines per call"
    );
    assert_eq!(ArtifactError::InvalidRange.message(), "invalid line range");
}

#[test]
fn large_artifact_line_ranges_stay_reachable() {
    let line = format!("{}\n", "l".repeat(99));
    let body = line.repeat(30_000);
    let first = read(body.as_bytes(), 1, None, 0).unwrap();
    assert!(first.body.contains("     1 | "));
    assert_eq!(first.scanned.lines, 30_000);
    assert!(first.scanned.complete && first.has_more);
    let deep = read(body.as_bytes(), 25_000, Some(25_010), 0).unwrap();
    assert!(deep.body.contains(" 25000 | "));
    assert_eq!(deep.delivered, SourcePosition::new(25_011, 0));
}

#[test]
fn the_returned_continuation_is_executable_verbatim_until_the_sentinel() {
    let body: String = (1..=520)
        .map(|line| match line {
            500 => "sentinel-line-500\n".to_string(),
            520 => "final-line-520\n".to_string(),
            _ => format!("filler-line-{line}\n"),
        })
        .collect();
    let pages = walk(body.as_bytes(), (1, 0));
    assert!(pages.len() >= 3 && pages.len() < 8);
    let seen = |tag: &str| pages.iter().any(|page| page.body.contains(tag));
    assert!(seen("sentinel-line-500") && seen("final-line-520"));
}

#[test]
fn defaulted_end_line_stays_bounded_and_rejects_overflow() {
    let body: String = (1..=520).map(|line| format!("filler-line-{line}\n")).collect();
    let paged = read(body.as_bytes(), 2, None, 0).unwrap();
    assert!(paged.body.contains(&format!("{:>6} | filler-line-2", 2)));
    assert!(paged.body.contains(&format!("{:>6} | filler-line-201", 201)));
    assert!(!paged.body.contains("filler-line-202"));
    assert_eq!(paged.delivered, SourcePosition::new(202, 0));

    let past_end = read(body.as_bytes(), 1000, None, 0).unwrap();
    assert!(past_end.body.contains("no lines in range"));
    assert!(past_end.body.contains("end of artifact (520 lines)"));
    assert!(!past_end.has_more);

    let overflow = read(body.as_bytes(), usize::MAX, None, 0).unwrap_err();
    assert_eq!(overflow, ArtifactError::NoRoom);
    assert_eq!(
        overflow.message(),
        "invalid line range: start_line leaves no room for a page"
    );

    let single = read(b"only-line\n", 1, None, 0).unwrap();
    assert!(single.body.contains("only-line"));
    assert!(!single.body.contains("[coverage]"));
    for _ in 0..2 {
        let again = read(body.as_bytes(), 5, Some(9), 0).unwrap();
        assert_eq!(again.scanned.lines, 520);
    }
}

#[test]
fn long_first_line_truncates_at_the_cap_without_merging_lines() {
    let mut body = "l".repeat(2 * 1024 * 1024);
    body.push_str("SUFFIX-SENTINEL");
    body.push_str(&"l".repeat(1024 * 1024 - 15));
    body.push('\n');
    for index in 0..100 {
        body.push_str(&format!("tail-{index}\n"));
    }
    let first = read(body.as_bytes(), 1, None, 0).unwrap();
    assert_eq!(first.scanned.lines, 101);
    assert!(first.scanned.complete && first.window_truncated && first.has_more);
    let mut lines = first.body.lines();
    assert!(lines.next().unwrap().starts_with("     1 | "));
    assert_eq!(lines.count(), 1, "one content line plus one coverage footer");
    assert!(first.body.contains("[coverage]"));
    assert!(!first.body.contains("tail-0"));
    assert_eq!(first.delivered.line, 1);
    let offset = first.delivered.line_byte_offset;
    assert!(offset > 0 && offset < 3 * 1024 * 1024);
    assert_eq!(first.captured, first.delivered);

    let pages = walk(body.as_bytes(), continuation(&first.body));
    assert!(pages.iter().any(|page| page.body.contains("SUFFIX-SENTINEL")));
    let last = pages.last().unwrap();
    assert!(last.body.contains("tail-0") && last.body.contains("tail-99"));
    assert!(last.body.contains("end of artifact (101 lines)"));

    let explicit = read(body.as_bytes(), 2, Some(200), 0).unwrap();
    assert!(explicit.body.contains("tail-0"));
    assert!(!explicit.body.contains("SUFFIX-SENTINEL"));
}

#[test]
fn a_truncated_long_line_is_resumable_to_real_eof_through_the_broker() {
    let mut line = "a".repeat(2 * 1024 * 1024);
    line.push_str("SECOND-HALF-SENTINEL");
    line.push_str(&"b".repeat(1024 * 1024 - 20));
    line.push('\n');
    let pages = walk(line.as_bytes(), (1, 0));
    let whole: String = pages
        .iter()
        .flat_map(|page| entries(&page.body))
        .map(|(number, text)| {
            assert_eq!(number, 1);
            text
        })
        .collect();
    assert_eq!(whole, line.trim_end());
}

#[test]
fn a_crlf_long_line_resumes_and_reaches_the_next_line() {
    let mut body = "a".repeat(2 * 1024 * 1024 + 7);
    body.push_str("CRLF-SUFFIX-SENTINEL\r\ncrlf-tail\r\n");
    let pages = walk(body.as_bytes(), (1, 0));
    let seen = |tag: &str| pages.iter().any(|page| page.body.contains(tag));
    assert!(seen("CRLF-SUFFIX-SENTINEL") && seen("crlf-tail"));
    assert!(!seen("\r"));
    assert_eq!(pages.last().unwrap().scanned.lines, 2);
}

#[test]
fn a_multibyte_line_resumes_on_character_boundaries() {
    let mut line = "界".repeat(40_000);
    line.push_str("边界-SENTINEL-边界");
    line.push_str(&"界".repeat(30_000));
    let body = format!("{line}\n");
    let pages = walk(body.as_bytes(), (1, 0));
    assert!(pages.iter().all(|page| !page.body.contains('\u{FFFD}')));
    let whole: String = pages
        .iter()
        .flat_map(|page| entries(&page.body))
        .map(|(_, text)| text)
        .collect();
    assert_eq!(whole, line);
}

#[test]
fn the_byte_cap_boundary_does_not_invent_a_continuation() {
    let budget = page_content_budget_chars(REFERENCE);
    assert!(budget > 0 && budget < FINAL_BODY_CHARS);
    let exact_chars = budget - rendered_prefix_chars(1) - 1;
    let exact = format!("{}\n", "c".repeat(exact_chars));
    let page = read(exact.as_bytes(), 1, None, 0).unwrap();
    assert!(!page.window_truncated && !page.has_more);
    assert_eq!(page.returned, 1);
    assert!(!page.body.contains("[coverage]"));

    let over = format!("{}\n", "c".repeat(exact_chars + 1));
    let first = read(over.as_bytes(), 1, None, 0).unwrap();
    assert!(first.window_truncated && first.has_more);
    assert_eq!(first.delivered, SourcePosition::new(1, exact_chars));
    let last = read(over.as_bytes(), 1, None, exact_chars).unwrap();
    assert!(!last.has_more && !last.window_truncated);
    assert!(last.body.contains("end of artifact (1 lines)"));
}

#[test]
fn invalid_utf8_expansion_stays_within_the_capture_cap() {
    let mut body = vec![0xFFu8; 256 * 1024];
    body.push(b'\n');
    let pages = walk(&body, (1, 0));
    assert!(pages.len() < 40);
    let shown: usize = pages
        .iter()
        .flat_map(|page| entries(&page.body))
        .map(|(_, text)| text.chars().count())
        .sum();
    assert_eq!(shown, 256 * 1024);
}

#[test]
fn g2_probe_a_every_line_delivered_exactly_once_via_returned_continuations() {
    let lines: Vec<String> = (1..=500)
        .map(|line| {
            let mut text = format!("G2A-L{line:04}-{line:x}7f{line:03}");
            while text.chars().count() < 150 {
                text.push('x');
            }
            text
        })
        .collect();
    let body = lines.join("\n") + "\n";
    let mut delivered = vec![String::new(); 500];
    for page in walk(body.as_bytes(), (1, 0)) {
        for (number, text) in entries(&page.body) {
            delivered[number - 1].push_str(&text);
        }
    }
    assert_eq!(delivered, lines);
}

#[test]
fn g3_exact_room_closes_capture_at_the_unshowable_line_start() {
    let budget = page_content_budget_chars(REFERENCE);
    let line1_len = budget - rendered_prefix_chars(1) - 1 - rendered_prefix_chars(2) - 1 - 1;
    let body = format!("{}\n界XG3R-MARKER\nqq\n", "a".repeat(line1_len));
    let first = read(body.as_bytes(), 1, None, 0).unwrap();
    assert!(first.has_more && first.window_truncated);
    assert_eq!(first.returned, 1);
    assert_eq!(first.captured, SourcePosition::new(2, 0));
    assert_eq!(first.delivered, SourcePosition::new(2, 0));
    assert_eq!(entries(&first.body).len(), 1);
    assert!(!first.body.contains("XG3R-MARKER") && !first.body.contains("qq"));

    let next = continuation(&first.body);
    let second = read(body.as_bytes(), next.0, None, next.1).unwrap();
    assert_eq!(
        entries(&second.body),
        vec![(2, "界XG3R-MARKER".to_string()), (3, "qq".to_string())]
    );
    assert!(!second.has_more);
    assert!(second.body.contains("end of artifact (3 lines)"));
}

#[test]
fn a_scan_budget_truncated_artifact_declares_incomplete_totals_in_the_body() {
    let body = "x\n".repeat((MAX_SCAN_BYTES / 2) as usize + 16);
    let page = read(body.as_bytes(), 1, None, 0).unwrap();
    assert!(!page.scanned.complete);
    assert!(page.body.contains("totals are incomplete"), "{}", page.body);
    assert!(page.body.contains("continue with artifact.read"));
}

#[test]
fn an_offset_has_to_be_inside_the_line_and_between_characters() {
    let past = read("界b\n".as_bytes(), 1, None, 4).unwrap_err();
    assert_eq!(
        past.message(),
        "line_byte_offset 4 is at or past the end of line 1 (4 content bytes)"
    );
    let inside = read("界b\n".as_bytes(), 1, None, 1).unwrap_err();
    assert_eq!(inside, ArtifactError::OffsetInsideCharacter);
    assert_eq!(
        inside.message(),
        "line_byte_offset must fall on a UTF-8 character boundary"
    );
    let page = read("界b\r\n".as_bytes(), 1, None, 3).unwrap();
    assert_eq!(entries(&page.body), vec![(1, "b".to_string())]);
    let bytes = "a界".as_bytes();
    let boundaries: Vec<bool> = (0..=4).map(|i| is_char_boundary(bytes, i)).collect();
    assert_eq!(boundaries, vec![true, true, false, false, true]);
}

#[test]
fn the_truncated_first_line_suffix_is_shown_before_the_second_line() {
    let mut line = "a".repeat(2 * 1024 * 1024);
    line.push_str("SUFFIX-SENTINEL");
    line.push_str(&"b".repeat(100_000));
    let body = format!("{line}\ntail-0\n");
    let pages = walk(body.as_bytes(), (1, 0));
    assert!(pages.len() < 220);
    let page_of = |tag: &str| pages.iter().position(|page| page.body.contains(tag));
    let sentinel = page_of("SUFFIX-SENTINEL");
    let tail = page_of("tail-0");
    assert!(
        sentinel.is_some() && tail.is_some() && sentinel < tail,
        "the first line's unshown suffix must be shown before (not instead of) the second line"
    );
}

#[test]
fn g2_probe_b_three_mib_single_line_block_ids_all_delivered() {
    let mib = 1024 * 1024usize;
    let total = 3 * mib;
    let tags = [
        "G2B-BLK-1M-c31f",
        "G2B-BLK-2M-8ad0",
        "G2B-BLK-2_5M-e4b9",
        "G2B-BLK-END-77aa",
    ];
    let mut line = String::with_capacity(total);
    for (at, tag) in [mib, 2 * mib, 5 * mib / 2, total - 64].iter().zip(tags) {
        assert!(*at > line.len(), "block positions must be increasing");
        while line.len() < *at {
            line.push('a');
        }
        line.push_str(tag);
    }
    while line.len() < total {
        line.push('a');
    }
    assert_eq!(line.len(), total);
    let pages = walk(format!("{line}\n").as_bytes(), (1, 0));

    let mut reconstructed = String::new();
    for page in &pages {
        for (_, text) in entries(&page.body) {
            reconstructed.push_str(&text);
        }
    }
    for tag in tags {
        assert_eq!(
            pages.iter().filter(|page| page.body.contains(tag)).count(),
            1,
            "block {tag} must be delivered exactly once by the returned continuations"
        );
        assert_eq!(
            reconstructed.matches(tag).count(),
            1,
            "block {tag} must appear exactly once in the delivered union"
        );
    }
    let mut prev_offset = 0usize;
    let mut delivered_end = 0usize;
    for page in &pages {
        let shown_entries = entries(&page.body);
        assert_eq!(shown_entries.len(), 1, "a single-line artifact renders one entry");
        let shown = shown_entries[0].1.chars().count();
        if page.body.contains("end of artifact") {
            assert_eq!(page.delivered.line_byte_offset, 0, "the end page's cursor stops moving");
            delivered_end = prev_offset + shown;
        } else {
            assert_eq!(
                prev_offset + shown,
                page.delivered.line_byte_offset,
                "the page delivered its bytes exactly"
            );
            prev_offset = page.delivered.line_byte_offset;
            delivered_end = prev_offset;
        }
    }
    assert_eq!(
        delivered_end, total,
        "the delivered intervals must cover the whole line exactly"
    );
}

#[test]
fn g3_multibyte_gap_captures_no_line_after_the_first_unshowable_position() {
    const LEGACY_CAPTURE_CAP: usize = 2 * 1024 * 1024 - 400 * 8;
    let line1 = format!("{}\n", "a".repeat(LEGACY_CAPTURE_CAP - 2));
    assert_eq!(line1.len(), LEGACY_CAPTURE_CAP - 1);
    let body = format!("{line1}界G3-MID-MARKER\nq\n");
    let first = read(body.as_bytes(), 1, None, 0).unwrap();
    assert!(first.has_more, "line 2 is unshown: the page must not claim completion");
    assert!(
        !first.body.contains("G3-MID-MARKER"),
        "the 界 line cannot have been delivered yet"
    );
    assert!(
        entries(&first.body).iter().all(|(number, _)| *number == 1),
        "no line after the first unshowable position may be captured"
    );

    let next = continuation(&first.body);
    let mut pages = vec![first];
    pages.extend(walk(body.as_bytes(), next));
    assert!(pages.len() < 260);
    assert_eq!(
        pages.iter().filter(|page| page.body.contains("G3-MID-MARKER")).count(),
        1,
        "the 界 line must be delivered, not skipped"
    );
    let mut saw_mid = false;
    let mut saw_short = false;
    for page in &pages {
        for (number, text) in entries(&page.body) {
            if text.contains("G3-MID-MARKER") {
                assert_eq!(number, 2, "the 界 line is source line 2");
                saw_mid = true;
            }
            if number == 3 {
                assert_eq!(text, "q", "source line 3 is the short ASCII line");
                saw_short = true;
            }
        }
    }
    assert!(saw_mid, "the 界 line must be rendered");
    assert!(saw_short, "the short ASCII line must be rendered as line 3");
    assert!(
        pages.last().unwrap().body.contains("end of artifact (3 lines)"),
        "the walk must end at the real EOF of the 3-line artifact"
    );
}

#[test]
fn an_incomplete_scan_goes_on_behind_what_was_shown() {
    let shown = |line: usize| DeliveredSpan {
        line,
        shown_to: 1,
        complete: true,
        text: "x".to_string(),
    };
    let scanned = ScannedPosition { lines: 1, bytes: MAX_SCAN_BYTES, complete: false };
    let facts =
        coverage_facts(&vec![shown(1)], scanned, SourcePosition::new(1, 0), 200, REFERENCE);
    assert!(facts.has_more);
    assert_eq!(facts.next, SourcePosition::new(2, 0));
    assert!(!facts.window_truncated);

    let beyond = coverage_facts(&vec![], scanned, SourcePosition::new(50, 3), 200, REFERENCE);
    assert!(beyond.has_more);
    assert_eq!(beyond.next, SourcePosition::new(50, 3));

    let whole = ScannedPosition { complete: true, ..scanned };
    let facts = coverage_facts(&vec![shown(1)], whole, SourcePosition::new(1, 0), 200, REFERENCE);
    assert!(!facts.has_more);
}

#[test]
fn no_footer_is_longer_than_its_reserve() {
    let reserve = worst_case_footer_chars(REFERENCE);
    for lines in [1, 1000] {
        for complete in [true, false] {
            let scanned = ScannedPosition { lines, bytes: 10, complete };
            let facts =
                coverage_facts(&vec![], scanned, SourcePosition::new(7, 9), 200, REFERENCE);
            let footer = coverage_footer(&coverage_clauses(&facts)).unwrap();
            assert!(footer.chars().count() < reserve);
        }
    }
}
