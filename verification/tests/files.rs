use tool_runtime::cursor::{format_cursor, parse_cursor, snapshot_lines};
use tool_runtime::fs_list::{
    clamp_limit, default_list_limit, list_page, MAX_LIST_ENTRIES, snapshot_page, snapshot_text, Admission, ListScan, Listing,
};
use tool_runtime::fs_read::{
    check_range, check_size, default_end_line, default_start_line, read_page, ReadError, ReadPage,
    MAX_READ_LINES,
};
use tool_runtime::fs_write::{check_content, mkdir_report, write_report};
use tool_runtime::matching::LineEnding;
use tool_runtime::page::FINAL_BODY_CHARS;
use tool_runtime::patch::{content_digest, MAX_FILE_BYTES};
use tool_runtime::view::EntryKind;

fn read(text: &str, path: &str, start: usize, end: usize) -> ReadPage {
    check_range(start, end).unwrap();
    let page = read_page(text, path, start, end);
    assert!(
        page.body.chars().count() <= FINAL_BODY_CHARS,
        "the body must stay within the budget: {}",
        page.body.chars().count()
    );
    page
}

/// The rendered lines of a page.
fn entries(body: &str) -> Vec<(usize, String)> {
    body.lines()
        .filter_map(|line| {
            if line.starts_with("file=") || line.starts_with('[') {
                return None;
            }
            let (number, text) = line.split_once(" | ")?;
            Some((number.trim().parse::<usize>().ok()?, text.to_string()))
        })
        .collect()
}

/// The continuation that a page's body offers.
fn continuation(body: &str) -> (usize, usize) {
    let marker = "continue with fs.read ";
    let at = body.find(marker).expect("the page offers a continuation");
    let clause = body[at + marker.len()..].split(['\n', ';']).next().unwrap();
    let number = |key: &str| {
        clause
            .split_whitespace()
            .find_map(|token| token.strip_prefix(key))
            .unwrap()
            .parse::<usize>()
            .unwrap()
    };
    (number("start_line="), number("end_line="))
}

/// Reads a file by the continuations alone.
fn walk(text: &str, path: &str) -> Vec<(usize, String)> {
    let (mut start, mut end) = (default_start_line(), default_end_line());
    let mut delivered = vec![];
    for _ in 0..100 {
        let page = read(text, path, start, end);
        delivered.extend(entries(&page.body));
        if !page.has_more {
            return delivered;
        }
        (start, end) = continuation(&page.body);
        assert_eq!(Some(start), page.next_start_line);
    }
    panic!("the walk must end");
}

#[test]
fn fs_read_reports_a_stable_content_revision() {
    let first = read("hello revision\n", "notes.txt", 1, 200);
    assert_eq!(first.revision.len(), 64);
    assert_eq!(
        first.revision,
        read("hello revision\n", "notes.txt", 1, 200).revision
    );
    let other = read("hello revision!\n", "notes.txt", 1, 200);
    assert_ne!(first.revision, other.revision);
    assert_eq!(other.revision, content_digest("hello revision!\n"));
    assert_eq!(
        content_digest("abc"),
        "ba7816bf8f01cfea414140de5dae2223b00361a396177a9cb410ff61f20015ad"
    );
}

#[test]
fn fs_read_reports_crlf_without_exposing_carriage_returns() {
    let text = "one\r\ntwo\r\n";
    let page = read(text, "windows.txt", 1, 200);
    assert_eq!(page.line_ending, LineEnding::CrLf);
    assert!(!page.body.contains('\r'));
    assert!(page.body.starts_with("file=\"windows.txt\" revision="));
    assert!(page.body.contains(" line_ending=crlf"));
    assert_eq!(page.revision, content_digest(text));
    assert_eq!(
        entries(&page.body),
        vec![(1, "one".to_string()), (2, "two".to_string())]
    );
    assert!(page.covers_file && !page.has_more);
}

#[test]
fn fs_read_exposes_a_bounded_mixed_eol_map_without_shell() {
    let text = "one\r\ntwo\nthree\r\nfour";
    let page = read(text, "mixed.txt", 1, 200);
    assert_eq!(page.line_ending, LineEnding::Mixed);
    assert!(page
        .body
        .contains("line_ending=mixed eol_tokens(C=CRLF,L=LF,N=none)=CLCN"));
    assert!(page
        .body
        .contains(&format!("revision={}", content_digest(text))));
    assert!(!page.body.contains('\r'));
}

#[test]
fn fs_read_newline_dense_file_returns_only_the_requested_window() {
    let line_count = 100_000;
    let text = "\n".repeat(line_count);
    let start_line = line_count - MAX_READ_LINES + 1;
    let page = read(&text, "dense.txt", start_line, line_count);
    assert_eq!(page.line_count, line_count);
    assert_eq!(page.body.lines().count(), MAX_READ_LINES + 1);
    assert!(page
        .body
        .lines()
        .nth(1)
        .is_some_and(|line| line.starts_with(&format!("{start_line:>6} | "))));
    assert!(page.body.ends_with(&format!("{line_count:>6} | ")));
    assert!(page.body.len() < 8 * 1024);
}

#[test]
fn fs_read_stamps_the_returned_window_and_keeps_the_whole_file_revision() {
    let text = (1..=30)
        .map(|n| format!("line-{n}"))
        .collect::<Vec<_>>()
        .join("\n");
    let page = read(&text, "window.rs", 10, 12);
    assert_eq!(page.start_line, Some(10));
    assert_eq!(page.end_line, Some(12));
    assert_eq!(page.line_count, 30);
    assert!(!page.covers_file);
    assert_eq!(page.revision, content_digest(&text));
    assert!(page.body.contains("lines=10-12/30"));
    assert!(page.body.contains("    10 | line-10"));
    assert!(page.body.contains("    12 | line-12"));
    assert!(!page.body.contains("     9 | line-9"));
    assert!(!page.body.contains("    13 | line-13"));
    assert_eq!(page.summary, "read lines 10-12 of window.rs");
}

#[test]
fn fs_read_rejects_files_above_the_workspace_mutation_limit() {
    let limit = MAX_FILE_BYTES as u64;
    let error = check_size(limit + 1, 0).unwrap_err();
    assert!(error.message().contains(&limit.to_string()));
    assert_eq!(error, ReadError::FileTooLarge(limit + 1));
    let grew = check_size(limit, limit + 1).unwrap_err();
    assert_eq!(grew, ReadError::FileGrew);
    assert!(grew.message().contains("grew beyond the fs.read limit"));
    assert!(check_size(limit, limit).is_ok());
}

#[test]
fn fs_read_rejects_an_overflowing_line_window() {
    let error = check_range(1, usize::MAX).unwrap_err();
    assert!(error.message().contains("limited"));
    assert_eq!(error.message(), "fs.read is limited to 400 lines per call");
    assert_eq!(check_range(0, 5).unwrap_err().message(), "invalid line range");
    assert_eq!(check_range(5, 4).unwrap_err(), ReadError::InvalidRange);
    assert!(check_range(usize::MAX, usize::MAX).is_ok());
    assert!(check_range(1, 400).is_ok());
    assert!(check_range(1, 401).is_err());
}

#[test]
fn a_window_behind_the_end_delivers_nothing() {
    let page = read("a\nb\n", "f", 9, 12);
    assert!(entries(&page.body).is_empty());
    assert_eq!(page.start_line, None);
    assert!(!page.has_more && !page.covers_file);
    let empty = read("", "f", 1, 200);
    assert_eq!(empty.line_count, 0);
    assert!(empty.covers_file);
}

#[test]
fn fs_read_walk_delivers_every_line_via_returned_continuations() {
    let expected: Vec<(usize, String)> = (1..=600)
        .map(|line| {
            let mut text = format!("FS2-L{line:04}-{line:x}7f{line:03}");
            while text.chars().count() < 150 {
                text.push('x');
            }
            (line, text)
        })
        .collect();
    let mut body = String::new();
    for (_, line) in &expected {
        body.push_str(line);
        body.push('\n');
    }
    assert_eq!(walk(&body, "big.log"), expected);
}

#[test]
fn fs_read_claim_and_metadata_describe_the_delivered_range() {
    let mut body = String::new();
    for line in 1..=600usize {
        let marker = if line == 100 { "FS-CLAIM-MID-L100" } else { "" };
        let mut text = format!("row-{line:04}{marker}");
        while text.chars().count() < 150 {
            text.push('.');
        }
        body.push_str(&text);
        body.push('\n');
    }
    let page = read(&body, "claims.log", 1, 200);
    let shown = entries(&page.body);
    let first = shown[0].0;
    let last = shown[shown.len() - 1].0;
    assert!(page.body.contains(&format!("lines={first}-{last}/600")));
    assert_eq!(page.start_line, Some(first));
    assert_eq!(page.end_line, Some(last));
    assert_eq!(page.line_count, 600);
    assert!(!page.covers_file && page.has_more);
    assert_eq!(page.next_start_line, Some(last + 1));
    assert!(last < 200);
    assert_eq!(last >= 100, page.body.contains("FS-CLAIM-MID-L100"));
    assert!(page.body.contains(&format!("start_line={}", last + 1)));
}

#[test]
fn fs_read_multibyte_pages_by_chars_without_cutting_code_points() {
    let expected: Vec<(usize, String)> = (1..=300)
        .map(|line| {
            let marker = if line == 150 { "FS3-界-MARKER" } else { "" };
            let mut text = format!("row-{line:04}{marker}");
            while text.chars().count() < 400 {
                text.push('界');
            }
            (line, text)
        })
        .collect();
    let mut body = String::new();
    for (_, line) in &expected {
        body.push_str(line);
        body.push('\n');
    }
    assert_eq!(walk(&body, "multibyte.log"), expected);
}

#[test]
fn fs_read_oversized_line_is_declared_not_silently_skipped() {
    let mut body = "a".repeat(40_000);
    body.push('\n');
    body.push_str("FS4-short-second-line\n");
    let first = read(&body, "oversized.log", 1, 2);
    assert!(first.has_more, "line 1 is unshown");
    assert!(!first.body.contains("FS4-short-second-line"));
    assert!(first.body.contains("exceeds the page budget"));
    let (start, end) = continuation(&first.body);
    let second = read(&body, "oversized.log", start, end);
    assert_eq!(
        entries(&second.body),
        vec![(2, "FS4-short-second-line".to_string())]
    );
}

fn listing(names: &[String]) -> Listing {
    let mut scan = ListScan::new();
    for name in names {
        match scan.consider(name) {
            Admission::Hidden => {}
            Admission::Full => break,
            Admission::Visible => scan.add_entry(name, EntryKind::File),
        }
    }
    scan.finish()
}

#[test]
fn fs_list_pages_a_consistent_snapshot() {
    let names: Vec<String> = (0..10).rev().map(|i| format!("file-{i:02}.txt")).collect();
    let listing = listing(&names);
    let snapshot = snapshot_text(&listing, 4).expect("an overflowing listing spills a snapshot");
    let reference = "artifact://v1/run/fs-list/snapshot";
    let first = list_page(&listing, 4, "d", Some(reference));
    assert_eq!(first.entry_count, 10);
    assert_eq!(first.returned, 4);
    assert!(first.has_more && !first.scan_incomplete);
    let cursor = first.cursor.clone().unwrap();
    assert_eq!(cursor, format!("{reference}#4"));

    let lines = snapshot_lines(snapshot.as_bytes()).unwrap();
    let (at, offset) = parse_cursor(&cursor).unwrap();
    let second = snapshot_page(&lines, &at, offset, 4).unwrap();
    let second_lines: Vec<&str> = second.body.lines().collect();
    assert_eq!(second_lines.len(), 5, "4 entries plus the coverage footer line");
    assert!(second_lines.last().is_some_and(|line| line
        .contains("entries 5-8 of 10 (snapshot")
        && line.contains("continue with fs.list cursor=")));
    assert_eq!(second.returned, 4);
    assert!(second.has_more);
    let first_lines: Vec<&str> = first.body.lines().collect();
    assert!(second_lines.iter().all(|line| !first_lines.contains(line)));

    let (at, offset) = parse_cursor(&second.cursor.unwrap()).unwrap();
    let third = snapshot_page(&lines, &at, offset, 4).unwrap();
    assert_eq!(third.returned, 2);
    assert!(!third.has_more && third.cursor.is_none());
    assert!(third.body.contains("end of listing (10 total, snapshot"));

    assert!(
        snapshot_page(&lines, reference, 9_999, 4).is_err(),
        "a cursor past the snapshot must error"
    );
}

#[test]
fn fs_list_marks_partial_when_the_entry_budget_stops_the_scan() {
    let names: Vec<String> = (0..=MAX_LIST_ENTRIES).map(|i| format!("f-{i:04}.txt")).collect();
    let listing = listing(&names);
    assert_eq!(listing.entries.len(), MAX_LIST_ENTRIES);
    let page = list_page(&listing, 8, "many", Some("artifact://v1/x"));
    assert!(page.scan_incomplete && page.has_more);
    assert_eq!(page.entry_count, MAX_LIST_ENTRIES);
    assert!(page.summary.contains("PARTIAL scan"), "{}", page.summary);
    assert!(page
        .summary
        .contains("do not treat this as the complete directory"));
    assert!(page.body.contains("f-0000"));
    assert!(page.body.contains("[coverage]") && page.body.contains("PARTIAL"));
    assert!(page.body.contains("not the complete directory (many)"));
}

#[test]
fn root_list_hides_runtime_and_git() {
    let names = [".focus-agent", "README.md", ".git", ".gitignore"].map(str::to_string);
    let listing = listing(&names);
    let page = list_page(&listing, 200, "", None);
    assert_eq!(listing.entries, vec!["file\t.gitignore", "file\tREADME.md"]);
    assert!(page.body.contains("README.md"));
    assert!(!page.body.contains(".focus-agent"));
    assert!(!page.body.lines().any(|line| line.ends_with(".git")));
    assert_eq!(page.path, ".");
}

#[test]
fn page_sizes_stay_within_their_bounds() {
    assert_eq!(clamp_limit(0), 1);
    assert_eq!(clamp_limit(default_list_limit()), 200);
    assert_eq!(clamp_limit(7), 7);
    assert_eq!(clamp_limit(usize::MAX), 2_000);
}

#[test]
fn a_cursor_reads_back() {
    let cursor = format_cursor("artifact://a#b", 17);
    assert_eq!(cursor, "artifact://a#b#17");
    assert_eq!(
        parse_cursor(&cursor).unwrap(),
        ("artifact://a#b".to_string(), 17)
    );
    for broken in ["no-offset", "a#", "a#x", "a#-1", "a#99999999999999999999999"] {
        assert!(parse_cursor(broken).is_err(), "{broken}");
    }
    assert_eq!(snapshot_lines(b"a\xff\r\nb").unwrap(), vec!["a\u{fffd}", "b"]);
}

#[test]
fn fs_write_rejects_content_over_the_real_byte_limit() {
    assert!(check_content(&"x".repeat(MAX_FILE_BYTES)).is_ok());
    let error = check_content(&"é".repeat(MAX_FILE_BYTES / 2 + 1)).unwrap_err();
    assert!(error.message().contains(&MAX_FILE_BYTES.to_string()));
}

#[test]
fn a_write_reports_what_was_written() {
    let report = write_report("notes.txt", "a\r\nb\r\n");
    assert_eq!(report.path, "notes.txt");
    assert_eq!(report.bytes, 6);
    assert_eq!(report.revision, content_digest("a\r\nb\r\n"));
    assert_eq!(report.line_ending, LineEnding::CrLf);
    assert!(report.summary.contains("notes.txt"));
    let made = mkdir_report("src", false);
    assert!(made.created && made.mutates_workspace);
    let there = mkdir_report("src", true);
    assert!(!there.created && !there.mutates_workspace);
    assert_ne!(made.summary, there.summary);
}

#[test]
fn a_partial_nonempty_listing_declares_incompleteness_in_the_model_body() {
    let names: Vec<String> = (0..=MAX_LIST_ENTRIES).map(|i| format!("f-{i:04}.txt")).collect();
    let page = list_page(&listing(&names), 8, "many", Some("artifact://v1/x"));
    assert!(page.body.contains("f-0000"), "entries stay visible: {}", page.body);
    assert!(
        page.body.contains("[coverage]") && page.body.contains("PARTIAL"),
        "a non-empty partial listing must carry the coverage statement in the body: {}",
        page.body
    );
    assert!(
        page.body.contains("not the complete directory (many)"),
        "the body must name the scope of the partial listing: {}",
        page.body
    );
}

#[test]
fn no_page_ever_stands_still() {
    let mut declared = 0;
    for width in FINAL_BODY_CHARS - 400..FINAL_BODY_CHARS + 10 {
        let text = format!("{}\nafter\n", "x".repeat(width));
        let page = read(&text, "wide.txt", 1, 200);
        assert_eq!(page.next_start_line, if page.end_line == Some(2) { None } else { Some(2) });
        if page.start_line.is_none() {
            assert!(page.body.contains("line 1 exceeds the page budget"), "{width}");
            declared += 1;
        }
        let next = read(&text, "wide.txt", 2, 200);
        assert_eq!(entries(&next.body), vec![(2, "after".to_string())]);
    }
    assert!(declared > 0);
}

#[test]
fn a_directory_asked_for_twice_is_created_once() {
    let mut there = false;
    let first = mkdir_report("a/b", there);
    there = there || first.created;
    let second = mkdir_report("a/b", there);
    assert!(first.created && first.mutates_workspace);
    assert!(!second.created && !second.mutates_workspace);
    assert_eq!(second.content, "directory already exists: a/b");
}
