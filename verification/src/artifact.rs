//! `artifact.read`: a bounded range of lines from a spilled output.
//!
//! Three positions are kept apart: how far the source was scanned (the
//! totals), what was captured under the page budget, and what the finished
//! page delivers. The continuation comes from the delivered position alone,
//! so it never passes over content the reader has not received.
use crate::outside;
use crate::page;
use crate::page::{DeliveredSpan, PageRenderer, FINAL_BODY_CHARS};
use crate::text;
use vstd::prelude::*;

verus! {

/// How many lines one call may ask for.
pub const MAX_READ_LINES: usize = 400;

/// How many lines a call without an end asks for.
pub const DEFAULT_PAGE_LINES: usize = 200;

/// How many bytes one call scans.
pub const MAX_SCAN_BYTES: u64 = 8_388_608;

/// A position in the source: a line, counted from one, and a byte offset
/// inside the line's content.
#[derive(Clone, Copy, Debug, PartialEq, Eq, Structural)]
pub struct SourcePosition {
    pub line: usize,
    pub line_byte_offset: usize,
}

impl SourcePosition {
    pub fn new(line: usize, line_byte_offset: usize) -> (r: SourcePosition)
        ensures
            r.line == line,
            r.line_byte_offset == line_byte_offset,
    {
        SourcePosition { line, line_byte_offset }
    }
}

/// How far the source was scanned. It owns the totals and says nothing about
/// delivery.
#[derive(Clone, Copy, Debug, PartialEq, Eq, Structural)]
pub struct ScannedPosition {
    pub lines: usize,
    pub bytes: u64,
    /// Whether the scan reached the end of the source.
    pub complete: bool,
}

/// The facts a page's footer is made from.
#[derive(Debug)]
pub struct CoverageFacts {
    /// The first and the last delivered line, zero where there is none.
    pub first_line: usize,
    pub last_line: usize,
    pub counted_lines: usize,
    pub scan_complete: bool,
    /// The line the page cut, if it cut one.
    pub truncated_line: Option<usize>,
    pub has_more: bool,
    pub window_truncated: bool,
    pub next: SourcePosition,
    pub reference: String,
    /// The whole source on one page: no footer is needed.
    pub plain: bool,
}

/// The same facts as values.
pub ghost struct Coverage {
    pub first_line: nat,
    pub last_line: nat,
    pub counted_lines: nat,
    pub scan_complete: bool,
    pub truncated_line: Option<nat>,
    pub has_more: bool,
    pub window_truncated: bool,
    pub next_line: nat,
    pub next_offset: nat,
    pub reference: Seq<char>,
    pub plain: bool,
}

impl View for CoverageFacts {
    type V = Coverage;

    open spec fn view(&self) -> Coverage {
        Coverage {
            first_line: self.first_line as nat,
            last_line: self.last_line as nat,
            counted_lines: self.counted_lines as nat,
            scan_complete: self.scan_complete,
            truncated_line: match self.truncated_line {
                Some(n) => Some(n as nat),
                None => None,
            },
            has_more: self.has_more,
            window_truncated: self.window_truncated,
            next_line: self.next.line as nat,
            next_offset: self.next.line_byte_offset as nat,
            reference: self.reference@,
            plain: self.plain,
        }
    }
}

// ---------------------------------------------------------------------
// The footer
// ---------------------------------------------------------------------

/// The clause that says which lines are shown.
pub open spec fn showing_clause(f: Coverage) -> Seq<char> {
    if f.first_line == 0 {
        "no lines in the scanned prefix of "@ + text::dec(f.counted_lines) + " lines"@ + (
        if f.scan_complete {
            ""@
        } else {
            " (scan budget reached; totals are incomplete)"@
        })
    } else if f.scan_complete {
        "showing lines "@ + text::dec(f.first_line) + "-"@ + text::dec(f.last_line) + " of "@
            + text::dec(f.counted_lines) + " total"@
    } else {
        "showing lines "@ + text::dec(f.first_line) + "-"@ + text::dec(f.last_line)
            + " of at least "@ + text::dec(f.counted_lines)
            + " total (scan budget reached; totals are incomplete)"@
    }
}

/// The clause that says that a line was cut.
pub open spec fn cut_clause(line: nat) -> Seq<char> {
    "line "@ + text::dec(line)
        + " is cut at the page budget; its unshown suffix continues inside the line"@
}

/// The clause that names the next page.
pub open spec fn continue_clause(f: Coverage) -> Seq<char> {
    let start = "continue with artifact.read reference="@ + f.reference + " start_line="@
        + text::dec(f.next_line);
    if f.next_offset > 0 {
        start + " line_byte_offset="@ + text::dec(f.next_offset)
    } else {
        start
    }
}

/// The clause of the last page.
pub open spec fn end_clause(f: Coverage) -> Seq<char> {
    "end of artifact ("@ + text::dec(f.counted_lines) + " lines)"@
}

/// What a page states about its coverage.
pub open spec fn clauses_of(f: Coverage) -> Seq<Seq<char>> {
    if f.plain {
        Seq::empty()
    } else if f.has_more {
        match f.truncated_line {
            Some(line) => seq![showing_clause(f), cut_clause(line), continue_clause(f)],
            None => seq![showing_clause(f), continue_clause(f)],
        }
    } else {
        seq![showing_clause(f), end_clause(f)]
    }
}

/// The clauses of a page's footer, made from its facts only.
pub fn coverage_clauses(facts: &CoverageFacts) -> (out: Vec<String>)
    ensures
        text::views(out@) == clauses_of(facts@),
{
    let mut out: Vec<String> = Vec::new();
    if facts.plain {
        assert(text::views(out@) =~= clauses_of(facts@));
        return out;
    }
    let mut showing = String::new();
    if facts.first_line == 0 {
        showing = "no lines in the scanned prefix of ".to_owned();
        text::push_dec(&mut showing, facts.counted_lines as u64);
        showing.append(" lines");
        if facts.scan_complete {
            showing.append("");
        } else {
            showing.append(" (scan budget reached; totals are incomplete)");
        }
    } else {
        showing = "showing lines ".to_owned();
        text::push_dec(&mut showing, facts.first_line as u64);
        showing.append("-");
        text::push_dec(&mut showing, facts.last_line as u64);
        if facts.scan_complete {
            showing.append(" of ");
            text::push_dec(&mut showing, facts.counted_lines as u64);
            showing.append(" total");
        } else {
            showing.append(" of at least ");
            text::push_dec(&mut showing, facts.counted_lines as u64);
            showing.append(" total (scan budget reached; totals are incomplete)");
        }
    }
    assert(showing@ == showing_clause(facts@));
    out.push(showing);
    if facts.has_more {
        if let Some(line) = facts.truncated_line {
            let mut cut = "line ".to_owned();
            text::push_dec(&mut cut, line as u64);
            cut.append(" is cut at the page budget; its unshown suffix continues inside the line");
            out.push(cut);
        }
        let mut next = "continue with artifact.read reference=".to_owned();
        next.append(facts.reference.as_str());
        next.append(" start_line=");
        text::push_dec(&mut next, facts.next.line as u64);
        if facts.next.line_byte_offset > 0 {
            next.append(" line_byte_offset=");
            text::push_dec(&mut next, facts.next.line_byte_offset as u64);
        }
        out.push(next);
    } else {
        let mut end = "end of artifact (".to_owned();
        text::push_dec(&mut end, facts.counted_lines as u64);
        end.append(" lines)");
        out.push(end);
    }
    assert(text::views(out@) =~= clauses_of(facts@));
    out
}

/// The facts with the longest footer a call on a reference can have.
pub open spec fn worst_facts(reference: Seq<char>) -> Coverage {
    let big = usize::MAX as nat;
    Coverage {
        first_line: big,
        last_line: big,
        counted_lines: big,
        scan_complete: false,
        truncated_line: Some(big),
        has_more: true,
        window_truncated: true,
        next_line: big,
        next_offset: big,
        reference,
        plain: false,
    }
}

/// The size of the longest footer, its line break included.
pub open spec fn footer_reserve(reference: Seq<char>) -> nat {
    page::footer_of(clauses_of(worst_facts(reference)))->0.len() + 1
}

/// The size of the longest footer a call on a reference can have.
pub fn worst_case_footer_chars(reference: &str) -> (n: usize)
    ensures
        n == footer_reserve(reference@),
{
    let facts = CoverageFacts {
        first_line: usize::MAX,
        last_line: usize::MAX,
        counted_lines: usize::MAX,
        scan_complete: false,
        truncated_line: Some(usize::MAX),
        has_more: true,
        window_truncated: true,
        next: SourcePosition::new(usize::MAX, usize::MAX),
        reference: reference.to_owned(),
        plain: false,
    };
    assert(facts@ == worst_facts(reference@));
    let clauses = coverage_clauses(&facts);
    match page::coverage_footer(&clauses) {
        Some(footer) => text::chars_of(footer.as_str()).len() + 1,
        None => 0,
    }
}

/// What is left of a page for its rows.
pub open spec fn content_budget(reference: Seq<char>) -> nat {
    if footer_reserve(reference) >= FINAL_BODY_CHARS {
        0
    } else {
        (FINAL_BODY_CHARS - footer_reserve(reference)) as nat
    }
}

/// What is left of a page for its rows.
pub fn page_content_budget_chars(reference: &str) -> (n: usize)
    ensures
        n == content_budget(reference@),
        n <= FINAL_BODY_CHARS,
{
    let reserve: usize = worst_case_footer_chars(reference);
    if reserve >= FINAL_BODY_CHARS {
        0
    } else {
        FINAL_BODY_CHARS - reserve
    }
}

// ---------------------------------------------------------------------
// The delivered position
// ---------------------------------------------------------------------

/// The number behind another, the largest one where there is none.
pub open spec fn after(n: usize) -> usize {
    if n < usize::MAX {
        (n + 1) as usize
    } else {
        n
    }
}

/// The first position that spans do not cover: inside the last line where it
/// was cut, at the next line otherwise.
pub open spec fn first_unshown(
    spans: Seq<DeliveredSpan>,
    window_start: SourcePosition,
) -> SourcePosition {
    if spans.len() == 0 {
        window_start
    } else if !spans.last().complete {
        SourcePosition { line: spans.last().line, line_byte_offset: spans.last().shown_to }
    } else {
        SourcePosition { line: after(spans.last().line), line_byte_offset: 0 }
    }
}

/// The first position that spans do not cover.
pub fn first_unshown_from_spans(
    spans: &Vec<DeliveredSpan>,
    window_start: SourcePosition,
) -> (r: SourcePosition)
    ensures
        r == first_unshown(spans@, window_start),
{
    if spans.len() == 0 {
        return window_start;
    }
    let last = &spans[spans.len() - 1];
    if !last.complete {
        SourcePosition::new(last.line, last.shown_to)
    } else {
        SourcePosition::new(last.line.saturating_add(1), 0)
    }
}

/// Whether the window holds a line that was scanned and not shown.
pub open spec fn in_window_unshown(
    spans: Seq<DeliveredSpan>,
    scanned: ScannedPosition,
    window_start: SourcePosition,
    end_line: usize,
) -> bool {
    let unshown = first_unshown(spans, window_start);
    unshown.line <= end_line && unshown.line <= scanned.lines
}

/// Whether anything is left behind what the spans deliver.
pub open spec fn more_follows(
    spans: Seq<DeliveredSpan>,
    scanned: ScannedPosition,
    window_start: SourcePosition,
    end_line: usize,
) -> bool {
    !scanned.complete || in_window_unshown(spans, scanned, window_start, end_line) || end_line
        < scanned.lines
}

/// Where the next page starts: at the first position that the spans do not
/// show, where the window holds one or the scan did not get to the end.
pub open spec fn next_position(
    spans: Seq<DeliveredSpan>,
    scanned: ScannedPosition,
    window_start: SourcePosition,
    end_line: usize,
) -> SourcePosition {
    if !scanned.complete || in_window_unshown(spans, scanned, window_start, end_line) {
        first_unshown(spans, window_start)
    } else if more_follows(spans, scanned, window_start, end_line) {
        SourcePosition { line: after(end_line), line_byte_offset: 0 }
    } else {
        SourcePosition { line: end_line, line_byte_offset: 0 }
    }
}

/// The facts of a page that delivers the given spans.
pub open spec fn facts_of(
    spans: Seq<DeliveredSpan>,
    scanned: ScannedPosition,
    window_start: SourcePosition,
    end_line: usize,
    reference: Seq<char>,
) -> Coverage {
    let more = more_follows(spans, scanned, window_start, end_line);
    let next = next_position(spans, scanned, window_start, end_line);
    Coverage {
        first_line: if spans.len() == 0 {
            0
        } else {
            spans[0].line as nat
        },
        last_line: if spans.len() == 0 {
            0
        } else {
            spans.last().line as nat
        },
        counted_lines: scanned.lines as nat,
        scan_complete: scanned.complete,
        truncated_line: if spans.len() > 0 && !spans.last().complete {
            Some(spans.last().line as nat)
        } else {
            None
        },
        has_more: more,
        window_truncated: in_window_unshown(spans, scanned, window_start, end_line),
        next_line: next.line as nat,
        next_offset: next.line_byte_offset as nat,
        reference,
        plain: scanned.complete && !more && window_start.line == 1
            && window_start.line_byte_offset == 0,
    }
}

/// Derives the facts of a page, the continuation among them, from the spans
/// it delivers and the totals of the scan.
pub fn coverage_facts(
    spans: &Vec<DeliveredSpan>,
    scanned: ScannedPosition,
    window_start: SourcePosition,
    end_line: usize,
    reference: &str,
) -> (r: CoverageFacts)
    ensures
        r@ == facts_of(spans@, scanned, window_start, end_line, reference@),
        r.next == next_position(spans@, scanned, window_start, end_line),
{
    let n: usize = spans.len();
    let mut first_line: usize = 0;
    let mut last_line: usize = 0;
    let mut truncated_line: Option<usize> = None;
    if n > 0 {
        first_line = spans[0].line;
        last_line = spans[n - 1].line;
        if !spans[n - 1].complete {
            truncated_line = Some(last_line);
        }
    }
    let unshown = first_unshown_from_spans(spans, window_start);
    let in_window = unshown.line <= end_line && unshown.line <= scanned.lines;
    let beyond = scanned.complete && end_line < scanned.lines;
    let has_more = !scanned.complete || in_window || beyond;
    let next = if in_window || !scanned.complete {
        unshown
    } else if has_more {
        SourcePosition::new(end_line.saturating_add(1), 0)
    } else {
        SourcePosition::new(end_line, 0)
    };
    let plain = scanned.complete && !has_more && window_start.line == 1
        && window_start.line_byte_offset == 0;
    CoverageFacts {
        first_line,
        last_line,
        counted_lines: scanned.lines,
        scan_complete: scanned.complete,
        truncated_line,
        has_more,
        window_truncated: in_window,
        next,
        reference: reference.to_owned(),
        plain,
    }
}

/// A call's window and totals: what a page is rendered from besides its
/// spans.
pub struct ArtifactView {
    pub scanned: ScannedPosition,
    pub window_start: SourcePosition,
    pub end_line: usize,
    pub reference: String,
}

/// The finished page of some spans.
pub open spec fn page_of(
    spans: Seq<DeliveredSpan>,
    scanned: ScannedPosition,
    window_start: SourcePosition,
    end_line: usize,
    reference: Seq<char>,
) -> Seq<char> {
    page::with_footer(
        if spans.len() == 0 {
            "no lines in range"@
        } else {
            page::span_rows(spans)
        },
        page::footer_of(
            clauses_of(facts_of(spans, scanned, window_start, end_line, reference)),
        ),
    )
}

impl PageRenderer for ArtifactView {
    open spec fn inv(&self) -> bool {
        true
    }

    open spec fn page_text(&self, spans: Seq<DeliveredSpan>) -> Seq<char> {
        page_of(spans, self.scanned, self.window_start, self.end_line, self.reference@)
    }

    fn render(&self, spans: &Vec<DeliveredSpan>) -> (out: String) {
        let facts = coverage_facts(
            spans,
            self.scanned,
            self.window_start,
            self.end_line,
            self.reference.as_str(),
        );
        let clauses = coverage_clauses(&facts);
        let footer = page::coverage_footer(&clauses);
        let body = if spans.len() == 0 {
            "no lines in range".to_owned()
        } else {
            page::render_numbered_spans(spans)
        };
        page::with_coverage_footer(body, footer)
    }
}

/// A finished page with the facts of what it delivers.
#[derive(Debug)]
pub struct DeliveredPage {
    pub body: String,
    pub facts: CoverageFacts,
    /// How many spans the page delivers.
    pub returned: usize,
}

/// How many of the captured spans a page keeps.
pub open spec fn kept_spans(
    spans: Seq<DeliveredSpan>,
    scanned: ScannedPosition,
    window_start: SourcePosition,
    end_line: usize,
    reference: Seq<char>,
    n: int,
) -> int
    decreases n,
{
    if n <= 0 || page_of(spans.take(n), scanned, window_start, end_line, reference).len()
        <= FINAL_BODY_CHARS {
        n
    } else {
        kept_spans(spans, scanned, window_start, end_line, reference, n - 1)
    }
}

proof fn lemma_kept_is_kept(view: ArtifactView, spans: Seq<DeliveredSpan>, n: int)
    ensures
        page::kept(view, spans, n, FINAL_BODY_CHARS as int) == kept_spans(
            spans,
            view.scanned,
            view.window_start,
            view.end_line,
            view.reference@,
            n,
        ),
    decreases n,
{
    if n > 0 {
        lemma_kept_is_kept(view, spans, n - 1);
    }
}

/// Finishes a page: as many of the captured spans as fit, and the facts that
/// follow from those alone. A span that was dropped leaves the continuation
/// before it.
pub fn finalize_delivered_page(
    spans: Vec<DeliveredSpan>,
    scanned: ScannedPosition,
    window_start: SourcePosition,
    end_line: usize,
    reference: &str,
) -> (r: DeliveredPage)
    ensures
        ({
            let k = kept_spans(
                spans@,
                scanned,
                window_start,
                end_line,
                reference@,
                spans@.len() as int,
            );
            let kept = spans@.take(k);
            &&& r.returned == k
            &&& r.body@ == page_of(kept, scanned, window_start, end_line, reference@)
            &&& r.facts@ == facts_of(kept, scanned, window_start, end_line, reference@)
            &&& r.facts.next == next_position(kept, scanned, window_start, end_line)
            &&& k == 0 || r.body@.len() <= FINAL_BODY_CHARS
        }),
{
    let view = ArtifactView { scanned, window_start, end_line, reference: reference.to_owned() };
    let ghost all = spans@;
    proof {
        lemma_kept_is_kept(view, all, all.len() as int);
        page::lemma_kept(view, all, all.len() as int, FINAL_BODY_CHARS as int);
    }
    let finished = page::finalize_within_budget(spans, &view);
    let facts = coverage_facts(&finished.spans, scanned, window_start, end_line, reference);
    DeliveredPage { body: finished.body, facts, returned: finished.spans.len() }
}

// ---------------------------------------------------------------------
// The window
// ---------------------------------------------------------------------

/// Why a call is invalid.
#[derive(Clone, Copy, Debug, PartialEq, Eq, Structural)]
pub enum ArtifactError {
    /// A window without an end would not fit behind `start_line`.
    NoRoom,
    InvalidRange,
    TooManyLines,
    /// The offset is not inside the content of the first line.
    OffsetPastEnd { offset: usize, line: usize, content: usize },
    /// The offset falls inside a character.
    OffsetInsideCharacter,
}

/// The text of an invalid-request error.
pub open spec fn artifact_error_text(e: ArtifactError) -> Seq<char> {
    match e {
        ArtifactError::NoRoom => "invalid line range: start_line leaves no room for a page"@,
        ArtifactError::InvalidRange => "invalid line range"@,
        ArtifactError::TooManyLines => "artifact.read is limited to "@ + text::dec(
            MAX_READ_LINES as nat,
        ) + " lines per call"@,
        ArtifactError::OffsetPastEnd { offset, line, content } => "line_byte_offset "@
            + text::dec(offset as nat) + " is at or past the end of line "@ + text::dec(
            line as nat,
        ) + " ("@ + text::dec(content as nat) + " content bytes)"@,
        ArtifactError::OffsetInsideCharacter =>
            "line_byte_offset must fall on a UTF-8 character boundary"@,
    }
}

impl ArtifactError {
    /// The text of the error.
    pub fn message(&self) -> (out: String)
        ensures
            out@ == artifact_error_text(*self),
    {
        match self {
            ArtifactError::NoRoom => "invalid line range: start_line leaves no room for a page".to_owned(),
            ArtifactError::InvalidRange => "invalid line range".to_owned(),
            ArtifactError::TooManyLines => {
                let mut out = "artifact.read is limited to ".to_owned();
                text::push_dec(&mut out, MAX_READ_LINES as u64);
                out.append(" lines per call");
                out
            },
            ArtifactError::OffsetPastEnd { offset, line, content } => {
                let mut out = "line_byte_offset ".to_owned();
                text::push_dec(&mut out, *offset as u64);
                out.append(" is at or past the end of line ");
                text::push_dec(&mut out, *line as u64);
                out.append(" (");
                text::push_dec(&mut out, *content as u64);
                out.append(" content bytes)");
                out
            },
            ArtifactError::OffsetInsideCharacter => "line_byte_offset must fall on a UTF-8 character boundary".to_owned(),
        }
    }
}

/// The line a call starts at when it does not say.
pub fn default_start_line() -> (r: usize)
    ensures
        r == 1,
{
    1
}

/// The last line of a call's window: as given, or a page behind the first.
pub open spec fn window(start_line: usize, end_line: Option<usize>) -> Result<
    usize,
    ArtifactError,
> {
    let end = match end_line {
        Some(e) => e as int,
        None => start_line + DEFAULT_PAGE_LINES - 1,
    };
    if end > usize::MAX {
        Err(ArtifactError::NoRoom)
    } else if start_line == 0 || end < start_line {
        Err(ArtifactError::InvalidRange)
    } else if end - start_line + 1 > MAX_READ_LINES {
        Err(ArtifactError::TooManyLines)
    } else {
        Ok(end as usize)
    }
}

/// Resolves the window of a call.
pub fn resolve_window(start_line: usize, end_line: Option<usize>) -> (r: Result<
    usize,
    ArtifactError,
>)
    ensures
        r == window(start_line, end_line),
        r matches Ok(end) ==> 1 <= start_line <= end && end - start_line < MAX_READ_LINES,
{
    let end: usize = match end_line {
        Some(e) => e,
        None => match start_line.checked_add(DEFAULT_PAGE_LINES - 1) {
            Some(e) => e,
            None => {
                return Err(ArtifactError::NoRoom);
            },
        },
    };
    if start_line == 0 || end < start_line {
        return Err(ArtifactError::InvalidRange);
    }
    if end - start_line >= MAX_READ_LINES {
        return Err(ArtifactError::TooManyLines);
    }
    Ok(end)
}

// ---------------------------------------------------------------------
// Capturing a page
// ---------------------------------------------------------------------

/// Whether a byte continues a character that started before it.
pub open spec fn continues(b: u8) -> bool {
    0x80 <= b < 0xC0
}

/// Whether a position in raw bytes does not fall inside a character.
pub open spec fn raw_boundary(bytes: Seq<u8>, i: int) -> bool {
    i == 0 || i == bytes.len() || !continues(bytes[i])
}

/// Whether a position in raw bytes does not fall inside a character.
pub fn is_char_boundary(bytes: &[u8], index: usize) -> (r: bool)
    requires
        index <= bytes@.len(),
    ensures
        r == raw_boundary(bytes@, index as int),
{
    if index == 0 || index == bytes.len() {
        return true;
    }
    let b: u8 = bytes[index];
    assert((b & 0xC0 != 0x80) == !(0x80 <= b < 0xC0)) by (bit_vector);
    b & 0xC0 != 0x80
}

/// The last boundary at or before `k`.
pub open spec fn snap(bytes: Seq<u8>, k: int) -> int
    decreases k,
{
    if k <= 0 || raw_boundary(bytes, k) {
        k
    } else {
        snap(bytes, k - 1)
    }
}

proof fn lemma_snap(bytes: Seq<u8>, k: int)
    requires
        0 <= k,
    ensures
        0 <= snap(bytes, k) <= k,
    decreases k,
{
    if k > 0 && !raw_boundary(bytes, k) {
        lemma_snap(bytes, k - 1);
    }
}

/// How many bytes of a line are content: all but its line break.
pub open spec fn content_len(line: Seq<u8>) -> int {
    let n = line.len() as int;
    if n >= 2 && line[n - 2] == 13u8 && line[n - 1] == 10u8 {
        n - 2
    } else if n >= 1 && line[n - 1] == 10u8 {
        n - 1
    } else {
        n
    }
}

/// Raw content the way a page shows it.
pub open spec fn shown_text(bytes: Seq<u8>) -> Seq<char> {
    text::without_cr(outside::utf8_lossy(bytes))
}

/// What a call looks for and how much room its page has.
#[derive(Clone, Copy, Debug, PartialEq, Eq, Structural)]
pub struct CaptureWindow {
    pub start_line: usize,
    pub end_line: usize,
    /// Where the window starts inside its first line.
    pub start_offset: usize,
    pub budget: usize,
}

/// One captured interval as values.
pub ghost struct SpanFacts {
    pub line: nat,
    pub shown_to: nat,
    pub complete: bool,
    pub text: Seq<char>,
}

pub open spec fn span_facts(span: DeliveredSpan) -> SpanFacts {
    SpanFacts {
        line: span.line as nat,
        shown_to: span.shown_to as nat,
        complete: span.complete,
        text: span.text@,
    }
}

/// What capturing one line gives.
pub enum LineCapture {
    /// The line is not part of the page.
    Passed,
    /// Not even its first character fits: the page ends before it.
    Closed,
    /// A part of it, or all of it, is captured.
    Captured(SpanFacts),
    Rejected(ArtifactError),
}

/// Where the window starts inside line `number`.
pub open spec fn skip_of(w: CaptureWindow, number: nat) -> int {
    if number == w.start_line {
        w.start_offset as int
    } else {
        0
    }
}

/// What capture does with line `number` when `used` characters of the budget
/// are spent: the whole rest of the line where it fits by bytes, otherwise
/// as many bytes as fit, cut between two characters.
pub open spec fn line_capture(
    w: CaptureWindow,
    closed: bool,
    used: nat,
    number: nat,
    line: Seq<u8>,
) -> LineCapture {
    let content = content_len(line);
    let skip = skip_of(w, number);
    if number < w.start_line || number > w.end_line || closed {
        LineCapture::Passed
    } else if skip > 0 && skip >= content {
        LineCapture::Rejected(
            ArtifactError::OffsetPastEnd {
                offset: skip as usize,
                line: w.start_line,
                content: content as usize,
            },
        )
    } else if skip > 0 && !raw_boundary(line, skip) {
        LineCapture::Rejected(ArtifactError::OffsetInsideCharacter)
    } else {
        let rest = line.subrange(skip, content);
        let spent = used + page::prefix_chars(number) + 1;
        let room = if spent >= w.budget {
            0
        } else {
            w.budget - spent
        };
        if rest.len() <= room {
            LineCapture::Captured(
                SpanFacts {
                    line: number,
                    shown_to: content as nat,
                    complete: true,
                    text: shown_text(rest),
                },
            )
        } else {
            let take = snap(rest, room);
            if take == 0 {
                LineCapture::Closed
            } else {
                LineCapture::Captured(
                    SpanFacts {
                        line: number,
                        shown_to: (skip + take) as nat,
                        complete: false,
                        text: shown_text(rest.take(take)),
                    },
                )
            }
        }
    }
}

/// Spans as values.
pub open spec fn facts_seq(spans: Seq<DeliveredSpan>) -> Seq<SpanFacts> {
    Seq::new(spans.len(), |i: int| span_facts(spans[i]))
}

/// What was captured of a source, as values.
pub ghost struct Captured {
    pub spans: Seq<SpanFacts>,
    pub used: nat,
    pub closed: bool,
}

/// What the first `k` lines of a source give.
pub open spec fn captured(w: CaptureWindow, lines: Seq<Seq<u8>>, k: int) -> Captured
    decreases k,
{
    if k <= 0 {
        Captured { spans: Seq::empty(), used: 0, closed: false }
    } else {
        let before = captured(w, lines, k - 1);
        match line_capture(w, before.closed, before.used, k as nat, lines[k - 1]) {
            LineCapture::Captured(span) => Captured {
                spans: before.spans.push(span),
                used: before.used + page::prefix_chars(k as nat) + 1 + span.text.len(),
                closed: !span.complete,
            },
            LineCapture::Closed => Captured { closed: true, ..before },
            _ => before,
        }
    }
}

/// Whether the first line of the window, where it was scanned, allows the
/// offset the window starts at.
pub open spec fn accepts(w: CaptureWindow, lines: Seq<Seq<u8>>) -> bool {
    1 <= w.start_line <= lines.len() ==> !(line_capture(
        w,
        false,
        0,
        w.start_line as nat,
        lines[w.start_line - 1],
    ) is Rejected)
}

proof fn lemma_captured_prefix(w: CaptureWindow, a: Seq<Seq<u8>>, b: Seq<Seq<u8>>, k: int)
    requires
        k <= a.len(),
        k <= b.len(),
        forall|i: int| 0 <= i < k ==> a[i] == b[i],
    ensures
        captured(w, a, k) == captured(w, b, k),
    decreases k,
{
    if k > 0 {
        lemma_captured_prefix(w, a, b, k - 1);
    }
}

proof fn lemma_captured_push(w: CaptureWindow, lines: Seq<Seq<u8>>, line: Seq<u8>)
    ensures
        captured(w, lines.push(line), lines.len() as int) == captured(
            w,
            lines,
            lines.len() as int,
        ),
{
    lemma_captured_prefix(w, lines.push(line), lines, lines.len() as int);
}

/// A page as far as it was captured while its source is scanned line by
/// line. Capture ends at the first position that does not fit; the scan goes
/// on for the totals.
pub struct Capture {
    pub window: CaptureWindow,
    pub spans: Vec<DeliveredSpan>,
    /// How many characters of the budget are spent.
    pub used: usize,
    /// Whether capture has met a position that does not fit.
    pub closed: bool,
    pub lines: usize,
    pub bytes: u64,
}

impl Capture {
    /// The spans are consecutive lines from the start of the window, of
    /// which only the last may be cut, and cost what was counted. Capture is
    /// closed once a line was cut.
    pub open spec fn wf(&self) -> bool {
        let n = self.spans@.len() as int;
        &&& self.window.budget <= FINAL_BODY_CHARS
        &&& 1 <= self.window.start_line <= self.window.end_line
        &&& self.window.end_line - self.window.start_line < MAX_READ_LINES
        &&& self.lines <= self.bytes <= MAX_SCAN_BYTES
        &&& self.used == spans_cost(self.spans@, n)
        &&& self.used <= n * (FINAL_BODY_CHARS + 25)
        &&& forall|k: int|
            0 <= k < n ==> {
                &&& (#[trigger] self.spans@[k]).line == self.window.start_line + k
                &&& k + 1 < n ==> self.spans@[k].complete
            }
        &&& n > 0 && !self.spans@[n - 1].complete ==> self.closed
        &&& n > 0 ==> self.spans@[n - 1].line <= self.lines && self.spans@[n - 1].line
            <= self.window.end_line
        &&& !self.closed && self.lines >= self.window.start_line ==> n == if self.lines
            <= self.window.end_line {
            self.lines - self.window.start_line + 1
        } else {
            self.window.end_line - self.window.start_line + 1
        }
        &&& self.lines < self.window.start_line ==> n == 0 && !self.closed
        &&& n > 0 && self.spans@[0].text@.len() > 0 ==> spans_cost(self.spans@, 1)
            <= self.window.budget
    }

    /// Whether this is what scanning the lines of a source, one after the
    /// other, captures.
    pub open spec fn holds(&self, lines: Seq<Seq<u8>>) -> bool {
        let all = captured(self.window, lines, lines.len() as int);
        &&& self.lines == lines.len()
        &&& facts_seq(self.spans@) == all.spans
        &&& self.used == all.used
        &&& self.closed == all.closed
        &&& accepts(self.window, lines)
    }

    /// Nothing captured, nothing scanned.
    pub fn new(window: CaptureWindow) -> (r: Capture)
        requires
            window.budget <= FINAL_BODY_CHARS,
            1 <= window.start_line <= window.end_line,
            window.end_line - window.start_line < MAX_READ_LINES,
        ensures
            r.wf(),
            r.holds(Seq::empty()),
            r.window == window,
            r.spans@ == Seq::<DeliveredSpan>::empty(),
            !r.closed,
            r.lines == 0,
            r.bytes == 0,
    {
        let r = Capture { window, spans: Vec::new(), used: 0, closed: false, lines: 0, bytes: 0 };
        assert(facts_seq(r.spans@) =~= Seq::empty());
        r
    }

    /// Takes the next line of the source, its line break included.
    pub fn take_line(&mut self, line: &[u8]) -> (r: Result<(), ArtifactError>)
        requires
            old(self).wf(),
            line@.len() > 0,
            old(self).bytes + line@.len() <= MAX_SCAN_BYTES,
        ensures
            r is Ok ==> final(self).wf(),
            final(self).window == old(self).window,
            final(self).lines == old(self).lines + 1,
            final(self).bytes == old(self).bytes + line@.len(),
            match line_capture(
                old(self).window,
                old(self).closed,
                old(self).used as nat,
                final(self).lines as nat,
                line@,
            ) {
                LineCapture::Passed => r is Ok && final(self).spans@ == old(self).spans@
                    && final(self).closed == old(self).closed,
                LineCapture::Closed => r is Ok && final(self).spans@ == old(self).spans@
                    && final(self).closed,
                LineCapture::Captured(facts) => {
                    &&& r is Ok
                    &&& final(self).spans@.len() == old(self).spans@.len() + 1
                    &&& final(self).spans@.drop_last() == old(self).spans@
                    &&& span_facts(final(self).spans@.last()) == facts
                    &&& final(self).closed == !facts.complete
                },
                LineCapture::Rejected(e) => r == Err::<(), ArtifactError>(e)
                    && final(self).spans@ == old(self).spans@,
            },
            forall|lines: Seq<Seq<u8>>|
                r is Ok && #[trigger] old(self).holds(lines) ==> final(self).holds(
                    lines.push(line@),
                ),
    {
        self.lines = self.lines + 1;
        self.bytes = self.bytes + line.len() as u64;
        let ghost was = *old(self);
        if self.closed || self.lines < self.window.start_line || self.lines
            > self.window.end_line {
            assert forall|lines: Seq<Seq<u8>>| was.holds(lines) implies self.holds(
                lines.push(line@),
            ) by {
                lemma_captured_push(self.window, lines, line@);
            }
            return Ok(());
        }
        match capture_line(self.window, self.used, self.lines, line) {
            Err(e) => Err(e),
            Ok(None) => {
                self.closed = true;
                assert forall|lines: Seq<Seq<u8>>| was.holds(lines) implies self.holds(
                    lines.push(line@),
                ) by {
                    lemma_captured_push(self.window, lines, line@);
                }
                Ok(())
            },
            Ok(Some((span, cost))) => {
                let ghost before = self.spans@;
                self.closed = !span.complete;
                self.used = self.used + cost;
                self.spans.push(span);
                proof {
                    assert(self.spans@.drop_last() =~= before);
                    lemma_spans_cost_prefix(before, self.spans@, before.len() as int);
                    if before.len() > 0 {
                        lemma_spans_cost_prefix(before, self.spans@, 1);
                    }
                    assert forall|lines: Seq<Seq<u8>>| was.holds(lines) implies self.holds(
                        lines.push(line@),
                    ) by {
                        lemma_captured_push(self.window, lines, line@);
                        assert(facts_seq(self.spans@) =~= facts_seq(before).push(
                            span_facts(self.spans@.last()),
                        ));
                    }
                }
                Ok(())
            },
        }
    }

    /// Ends the scan. `complete` says whether it reached the end of the
    /// source rather than the scan budget.
    pub fn scanned(&self, complete: bool) -> (r: ScannedPosition)
        ensures
            r == (ScannedPosition { lines: self.lines, bytes: self.bytes, complete }),
    {
        ScannedPosition { lines: self.lines, bytes: self.bytes, complete }
    }
}

/// Captures one line of the window, with what it costs; `None` where not
/// even its first character fits.
fn capture_line(window: CaptureWindow, used: usize, number: usize, line: &[u8]) -> (r: Result<
    Option<(DeliveredSpan, usize)>,
    ArtifactError,
>)
    requires
        line@.len() > 0,
        window.start_line <= number <= window.end_line,
        window.budget <= FINAL_BODY_CHARS,
        used <= MAX_READ_LINES * (FINAL_BODY_CHARS + 25),
    ensures
        match line_capture(window, false, used as nat, number as nat, line@) {
            LineCapture::Passed => false,
            LineCapture::Closed => r matches Ok(None),
            LineCapture::Captured(facts) => r matches Ok(Some((span, cost))) && span_facts(span)
                == facts && cost == page::prefix_chars(number as nat) + 1 + span.text@.len()
                && cost <= FINAL_BODY_CHARS + 25 && (span.text@.len() > 0 ==> used + cost
                <= window.budget),
            LineCapture::Rejected(e) => r == Err::<Option<(DeliveredSpan, usize)>, ArtifactError>(
                e,
            ),
        },
{
    let n: usize = line.len();
    let eol: usize = if n >= 2 && line[n - 2] == 13u8 && line[n - 1] == 10u8 {
        2
    } else if line[n - 1] == 10u8 {
        1
    } else {
        0
    };
    let content: usize = n - eol;
    let skip: usize = if number == window.start_line {
        window.start_offset
    } else {
        0
    };
    if skip > 0 {
        if skip >= content {
            return Err(
                ArtifactError::OffsetPastEnd { offset: skip, line: window.start_line, content },
            );
        }
        if !is_char_boundary(line, skip) {
            return Err(ArtifactError::OffsetInsideCharacter);
        }
    }
    let rest = vstd::slice::slice_subrange(line, skip, content);
    let envelope: usize = page::rendered_prefix_chars(number) + 1;
    let spent: usize = used + envelope;
    let room: usize = if spent >= window.budget {
        0
    } else {
        window.budget - spent
    };
    let complete = rest.len() <= room;
    let mut take: usize = rest.len();
    if !complete {
        take = room;
        while take > 0 && !is_char_boundary(rest, take)
            invariant
                take <= room < rest@.len(),
                snap(rest@, room as int) == snap(rest@, take as int),
            decreases take,
        {
            take = take - 1;
        }
        if take == 0 {
            return Ok(None);
        }
    }
    let chunk = vstd::slice::slice_subrange(rest, 0, take);
    let decoded = outside::lossy_text(chunk);
    let chars = text::chars_of(decoded.as_str());
    let end: usize = if chars.len() > 0 && chars[chars.len() - 1] == '\r' {
        chars.len() - 1
    } else {
        chars.len()
    };
    let shown = text::string_of_range(&chars, 0, end);
    proof {
        if complete {
            assert(chunk@ =~= rest@);
        } else {
            assert(chunk@ =~= rest@.take(take as int));
        }
        assert(shown@ =~= text::without_cr(decoded@));
    }
    let shown_to: usize = if complete {
        content
    } else {
        skip + take
    };
    Ok(Some((DeliveredSpan { line: number, shown_to, complete, text: shown }, envelope + end)))
}

/// What the first `k` spans cost: each its number, itself and a line break.
pub open spec fn spans_cost(spans: Seq<DeliveredSpan>, k: int) -> nat
    decreases k,
{
    if k <= 0 {
        0
    } else {
        spans_cost(spans, k - 1) + page::prefix_chars(spans[k - 1].line as nat) + 1
            + spans[k - 1].text@.len()
    }
}

proof fn lemma_spans_cost_prefix(a: Seq<DeliveredSpan>, b: Seq<DeliveredSpan>, k: int)
    requires
        0 <= k <= a.len() <= b.len(),
        forall|i: int| 0 <= i < k ==> a[i] == b[i],
    ensures
        spans_cost(a, k) == spans_cost(b, k),
    decreases k,
{
    if k > 0 {
        lemma_spans_cost_prefix(a, b, k - 1);
    }
}

// ---------------------------------------------------------------------
// The call
// ---------------------------------------------------------------------

/// One page of an artifact with the positions it stands for.
#[derive(Debug)]
pub struct ArtifactPage {
    pub summary: String,
    pub body: String,
    pub scanned: ScannedPosition,
    /// The first position capture did not append.
    pub captured: SourcePosition,
    /// The first position the page does not show: the continuation.
    pub delivered: SourcePosition,
    pub returned: usize,
    pub has_more: bool,
    pub window_truncated: bool,
}

/// The summary of a page.
pub open spec fn summary_of(f: Coverage, start_line: nat, shown_path: Seq<char>) -> Seq<char> {
    "read lines "@ + text::dec(
        if f.first_line > 0 {
            f.first_line
        } else {
            start_line
        },
    ) + "-"@ + text::dec(
        if f.last_line > 0 {
            f.last_line
        } else {
            start_line
        },
    ) + " of "@ + shown_path + " ("@ + text::dec(f.counted_lines) + " lines total"@ + (
    if f.scan_complete {
        ""@
    } else {
        "; scan stopped at the "@ + text::dec(MAX_SCAN_BYTES as nat)
            + "-byte per-call budget, totals are incomplete"@
    }) + (if f.window_truncated {
        "; window truncated at the per-call page budget"@
    } else {
        ""@
    }) + ")"@
}

/// The spans a finished page of a capture delivers.
pub open spec fn delivered_spans(c: Capture, complete: bool, reference: Seq<char>) -> Seq<
    DeliveredSpan,
> {
    let scanned = ScannedPosition { lines: c.lines, bytes: c.bytes, complete };
    let start = SourcePosition {
        line: c.window.start_line,
        line_byte_offset: c.window.start_offset,
    };
    c.spans@.take(
        kept_spans(
            c.spans@,
            scanned,
            start,
            c.window.end_line,
            reference,
            c.spans@.len() as int,
        ),
    )
}

/// Finishes the page of a scan that has ended.
pub fn finish(capture: Capture, complete: bool, reference: &str, shown_path: &str) -> (r:
    ArtifactPage)
    requires
        capture.wf(),
    ensures
        ({
            let scanned = ScannedPosition { lines: capture.lines, bytes: capture.bytes, complete };
            let start = SourcePosition {
                line: capture.window.start_line,
                line_byte_offset: capture.window.start_offset,
            };
            let end = capture.window.end_line;
            let spans = delivered_spans(capture, complete, reference@);
            let f = facts_of(spans, scanned, start, end, reference@);
            &&& contiguous(spans, start)
            &&& r.body@ == page_of(spans, scanned, start, end, reference@)
            &&& spans.len() == 0 || r.body@.len() <= FINAL_BODY_CHARS
            &&& r.summary@ == summary_of(f, start.line as nat, shown_path@)
            &&& r.scanned == scanned
            &&& r.captured == first_unshown(capture.spans@, start)
            &&& r.delivered == next_position(spans, scanned, start, end)
            &&& r.returned == spans.len()
            &&& r.has_more == f.has_more
            &&& r.window_truncated == f.window_truncated
        }),
{
    let scanned = capture.scanned(complete);
    let start = SourcePosition::new(capture.window.start_line, capture.window.start_offset);
    let end_line: usize = capture.window.end_line;
    let captured = first_unshown_from_spans(&capture.spans, start);
    let ghost spans = delivered_spans(capture, complete, reference@);
    proof {
        lemma_kept_spans_range(
            capture.spans@,
            scanned,
            start,
            end_line,
            reference@,
            capture.spans@.len() as int,
        );
    }
    let page = finalize_delivered_page(capture.spans, scanned, start, end_line, reference);
    let facts = page.facts;
    let first: usize = if facts.first_line > 0 {
        facts.first_line
    } else {
        start.line
    };
    let last: usize = if facts.last_line > 0 {
        facts.last_line
    } else {
        start.line
    };
    let mut summary = "read lines ".to_owned();
    text::push_dec(&mut summary, first as u64);
    summary.append("-");
    text::push_dec(&mut summary, last as u64);
    summary.append(" of ");
    summary.append(shown_path);
    summary.append(" (");
    text::push_dec(&mut summary, scanned.lines as u64);
    summary.append(" lines total");
    let mut note = String::new();
    if complete {
        note = "".to_owned();
    } else {
        note = "; scan stopped at the ".to_owned();
        text::push_dec(&mut note, MAX_SCAN_BYTES);
        note.append("-byte per-call budget, totals are incomplete");
    }
    summary.append(note.as_str());
    if facts.window_truncated {
        summary.append("; window truncated at the per-call page budget");
    } else {
        summary.append("");
    }
    summary.append(")");
    ArtifactPage {
        summary,
        body: page.body,
        scanned,
        captured,
        delivered: facts.next,
        returned: page.returned,
        has_more: facts.has_more,
        window_truncated: facts.window_truncated,
    }
}

proof fn lemma_kept_spans_range(
    spans: Seq<DeliveredSpan>,
    scanned: ScannedPosition,
    window_start: SourcePosition,
    end_line: usize,
    reference: Seq<char>,
    n: int,
)
    requires
        0 <= n,
    ensures
        0 <= kept_spans(spans, scanned, window_start, end_line, reference, n) <= n,
    decreases n,
{
    if n > 0 {
        lemma_kept_spans_range(spans, scanned, window_start, end_line, reference, n - 1);
    }
}

// ---------------------------------------------------------------------
// Laws
// ---------------------------------------------------------------------

/// Consecutive lines from the start of the window, of which only the last
/// may be cut.
pub open spec fn contiguous(spans: Seq<DeliveredSpan>, window_start: SourcePosition) -> bool {
    forall|k: int|
        0 <= k < spans.len() ==> {
            &&& (#[trigger] spans[k]).line == window_start.line + k
            &&& k + 1 < spans.len() ==> spans[k].complete
        }
}

/// The continuation never advances past a position the page does not show:
/// every line from the start of the window up to the continuation is
/// delivered whole, scanned or not; and where the continuation points into a
/// line, the page shows that line exactly up to there. Without a
/// continuation, every line of the window that the source has is delivered
/// whole.
pub proof fn law_the_continuation_respects_the_delivered_position(
    spans: Seq<DeliveredSpan>,
    scanned: ScannedPosition,
    window_start: SourcePosition,
    end_line: usize,
)
    requires
        contiguous(spans, window_start),
        window_start.line <= end_line < usize::MAX,
        spans.len() > 0 ==> spans.last().line <= end_line,
    ensures
        ({
            let next = next_position(spans, scanned, window_start, end_line);
            let more = more_follows(spans, scanned, window_start, end_line);
            &&& more ==> forall|line: int|
                window_start.line <= line < next.line ==> line - window_start.line < spans.len()
                    && (#[trigger] spans[line - window_start.line]).complete
            &&& !more ==> forall|line: int|
                window_start.line <= line <= end_line && line <= scanned.lines ==> line
                    - window_start.line < spans.len() && (#[trigger] spans[line
                    - window_start.line]).complete
            &&& next.line_byte_offset > 0 ==> (if spans.len() == 0 {
                next == window_start
            } else {
                !spans.last().complete && next.line == spans.last().line && next.line_byte_offset
                    == spans.last().shown_to
            })
        }),
{
    let next = next_position(spans, scanned, window_start, end_line);
    let unshown = first_unshown(spans, window_start);
    assert forall|line: int| window_start.line <= line < unshown.line implies line
        - window_start.line < spans.len() && (#[trigger] spans[line - window_start.line]).complete by {
        if spans.len() > 0 {
            let last = spans.len() - 1;
            assert(spans[last].line == window_start.line + last);
            let k = line - window_start.line;
            assert(k < spans.len());
            assert(spans[k].line == line);
        }
    }
}

/// Where the scan did not get to the end, the next page starts at the first
/// position that this one does not show, whatever the window.
pub proof fn law_an_incomplete_scan_goes_on_at_the_first_unshown_position(
    spans: Seq<DeliveredSpan>,
    scanned: ScannedPosition,
    window_start: SourcePosition,
    end_line: usize,
)
    requires
        !scanned.complete,
    ensures
        more_follows(spans, scanned, window_start, end_line),
        next_position(spans, scanned, window_start, end_line) == first_unshown(
            spans,
            window_start,
        ),
{
}

/// A page that delivers anything moves on: its continuation lies behind the
/// start of its window.
pub proof fn law_a_page_that_delivers_moves_on(
    spans: Seq<DeliveredSpan>,
    scanned: ScannedPosition,
    window_start: SourcePosition,
    end_line: usize,
)
    requires
        contiguous(spans, window_start),
        window_start.line <= end_line < usize::MAX,
        spans.len() > 0,
        spans[0].complete || spans[0].shown_to > window_start.line_byte_offset,
        more_follows(spans, scanned, window_start, end_line),
    ensures
        ({
            let next = next_position(spans, scanned, window_start, end_line);
            next.line > window_start.line || (next.line == window_start.line
                && next.line_byte_offset > window_start.line_byte_offset)
        }),
{
    let last = spans.len() - 1;
    assert(spans[last].line == window_start.line + last);
    assert(spans[0].line == window_start.line);
}

/// The content of a line: all of it but its line break.
pub open spec fn content(line: Seq<u8>) -> Seq<u8> {
    line.take(content_len(line))
}

/// The first `k` lines of a source, or all where there are fewer, with every
/// line break written as one line feed.
pub open spec fn lines_text(lines: Seq<Seq<u8>>, k: int) -> Seq<u8>
    decreases k,
{
    if k <= 0 {
        Seq::empty()
    } else if k > lines.len() {
        lines_text(lines, k - 1)
    } else {
        lines_text(lines, k - 1) + content(lines[k - 1]).push(10u8)
    }
}

/// What stands before a position of a source.
pub open spec fn text_before(lines: Seq<Seq<u8>>, p: SourcePosition) -> Seq<u8> {
    lines_text(lines, p.line - 1) + if 1 <= p.line <= lines.len() {
        lines[p.line - 1].take(p.line_byte_offset as int)
    } else {
        Seq::empty()
    }
}

/// The part of a source that one span shows, its line break included where
/// the line is shown to its end.
pub open spec fn span_source(
    lines: Seq<Seq<u8>>,
    window_start: SourcePosition,
    span: DeliveredSpan,
) -> Seq<u8> {
    let from = if span.line == window_start.line {
        window_start.line_byte_offset as int
    } else {
        0
    };
    let shown = lines[span.line - 1].subrange(from, span.shown_to as int);
    if span.complete {
        shown.push(10u8)
    } else {
        shown
    }
}

/// The part of a source that the first `k` spans of a page show.
pub open spec fn page_source(
    lines: Seq<Seq<u8>>,
    window_start: SourcePosition,
    spans: Seq<DeliveredSpan>,
    k: int,
) -> Seq<u8>
    decreases k,
{
    if k <= 0 {
        Seq::empty()
    } else {
        page_source(lines, window_start, spans, k - 1) + span_source(
            lines,
            window_start,
            spans[k - 1],
        )
    }
}

/// Where the window of a capture starts.
pub open spec fn start_of(c: Capture) -> SourcePosition {
    SourcePosition { line: c.window.start_line, line_byte_offset: c.window.start_offset }
}

/// Whether a captured span shows a part of its line that starts where the
/// window starts in it and ends with the line only where it is complete.
pub open spec fn shows(w: CaptureWindow, lines: Seq<Seq<u8>>, span: SpanFacts) -> bool {
    let line = lines[span.line - 1];
    let from = skip_of(w, span.line);
    &&& 1 <= span.line <= lines.len()
    &&& 0 <= from <= span.shown_to <= content_len(line)
    &&& from > 0 ==> from < span.shown_to
    &&& span.complete ==> span.shown_to == content_len(line)
    &&& !span.complete ==> from < span.shown_to
    &&& span.text == shown_text(line.subrange(from, span.shown_to as int))
}

proof fn lemma_content_len(line: Seq<u8>)
    ensures
        0 <= content_len(line) <= line.len(),
{
}

proof fn lemma_captured_shows(w: CaptureWindow, lines: Seq<Seq<u8>>, k: int)
    requires
        0 <= k <= lines.len(),
        1 <= w.start_line,
        accepts(w, lines),
    ensures
        forall|i: int|
            0 <= i < captured(w, lines, k).spans.len() ==> shows(
                w,
                lines,
                #[trigger] captured(w, lines, k).spans[i],
            ),
        k < w.start_line ==> captured(w, lines, k).used == 0 && !captured(w, lines, k).closed,
    decreases k,
{
    if k > 0 {
        lemma_captured_shows(w, lines, k - 1);
        let before = captured(w, lines, k - 1);
        let now = captured(w, lines, k);
        let line = lines[k - 1];
        lemma_content_len(line);
        match line_capture(w, before.closed, before.used, k as nat, line) {
            LineCapture::Captured(span) => {
                let content = content_len(line);
                let skip = skip_of(w, k as nat);
                let rest = line.subrange(skip, content);
                if span.complete {
                } else {
                    let spent = before.used + page::prefix_chars(k as nat) + 1;
                    let room = if spent >= w.budget {
                        0
                    } else {
                        w.budget - spent
                    };
                    lemma_snap(rest, room);
                    let take = snap(rest, room);
                    assert(rest.take(take) =~= line.subrange(skip, skip + take));
                }
                assert(shows(w, lines, span));
                assert forall|i: int| 0 <= i < now.spans.len() implies shows(
                    w,
                    lines,
                    #[trigger] now.spans[i],
                ) by {
                    if i < before.spans.len() {
                        assert(now.spans[i] == before.spans[i]);
                    }
                }
            },
            _ => {},
        }
    }
}

/// Every delivered row is the text of the source from where the window
/// starts in its line, under the line's true number; a row that claims to be
/// complete ends where the line's content ends.
pub proof fn law_a_row_shows_its_part_of_the_source(
    c: Capture,
    lines: Seq<Seq<u8>>,
    complete: bool,
    reference: Seq<char>,
    i: int,
)
    requires
        c.wf(),
        c.holds(lines),
        0 <= i < delivered_spans(c, complete, reference).len(),
    ensures
        ({
            let span = delivered_spans(c, complete, reference)[i];
            &&& span.line == c.window.start_line + i
            &&& shows(c.window, lines, span_facts(span))
        }),
{
    lemma_captured_shows(c.window, lines, lines.len() as int);
    lemma_delivered_is_prefix(c, complete, reference);
    let span = delivered_spans(c, complete, reference)[i];
    assert(span == c.spans@[i]);
    assert(facts_seq(c.spans@)[i] == span_facts(span));
}

proof fn lemma_delivered_is_prefix(c: Capture, complete: bool, reference: Seq<char>)
    ensures
        ({
            let spans = delivered_spans(c, complete, reference);
            &&& spans.len() <= c.spans@.len()
            &&& forall|i: int| 0 <= i < spans.len() ==> spans[i] == c.spans@[i]
        }),
{
    lemma_kept_spans_range(
        c.spans@,
        ScannedPosition { lines: c.lines, bytes: c.bytes, complete },
        start_of(c),
        c.window.end_line,
        reference,
        c.spans@.len() as int,
    );
}

proof fn lemma_page_source(
    lines: Seq<Seq<u8>>,
    w: CaptureWindow,
    start: SourcePosition,
    spans: Seq<DeliveredSpan>,
    k: int,
)
    requires
        1 <= start.line,
        w.start_line == start.line,
        w.start_offset == start.line_byte_offset,
        0 <= k <= spans.len(),
        forall|i: int|
            0 <= i < spans.len() ==> {
                &&& (#[trigger] spans[i]).line == start.line + i
                &&& i + 1 < spans.len() ==> spans[i].complete
                &&& shows(w, lines, span_facts(spans[i]))
            },
    ensures
        k == 0 ==> page_source(lines, start, spans, k) == Seq::<u8>::empty(),
        k > 0 ==> text_before(lines, start) + page_source(lines, start, spans, k) == (
        if spans[k - 1].complete {
            lines_text(lines, start.line - 1 + k)
        } else {
            lines_text(lines, start.line - 1 + k - 1) + lines[start.line - 1 + k - 1].take(
                spans[k - 1].shown_to as int,
            )
        }),
    decreases k,
{
    if k > 0 {
        lemma_page_source(lines, w, start, spans, k - 1);
        let span = spans[k - 1];
        assert(shows(w, lines, span_facts(span)));
        let line = lines[span.line - 1];
        lemma_content_len(line);
        let so_far = text_before(lines, start) + page_source(lines, start, spans, k - 1);
        let added = span_source(lines, start, span);
        assert(text_before(lines, start) + page_source(lines, start, spans, k) =~= so_far + added);
        if k > 1 {
            assert(spans[k - 2].complete);
            assert(line.subrange(0, span.shown_to as int) =~= line.take(span.shown_to as int));
            assert(so_far == lines_text(lines, start.line - 1 + k - 1));
        } else {
            assert(so_far =~= text_before(lines, start));
            assert(line.take(start.line_byte_offset as int) + line.subrange(
                start.line_byte_offset as int,
                span.shown_to as int,
            ) =~= line.take(span.shown_to as int));
        }
        if span.complete {
            assert(so_far + added =~= lines_text(lines, start.line - 1 + k - 1) + content(
                line,
            ).push(10u8));
        } else {
            assert(so_far + added =~= lines_text(lines, start.line - 1 + k - 1) + line.take(
                span.shown_to as int,
            ));
        }
    }
}

proof fn lemma_lines_text_beyond(lines: Seq<Seq<u8>>, k: int)
    requires
        lines.len() <= k,
    ensures
        lines_text(lines, k) == lines_text(lines, lines.len() as int),
    decreases k,
{
    if k > lines.len() {
        lemma_lines_text_beyond(lines, k - 1);
    }
}

/// A page delivers the source from the start of its window up to its
/// continuation, nothing left out and nothing twice; and a page that offers
/// no continuation delivers all that is left.
pub proof fn law_a_page_delivers_up_to_its_continuation(
    c: Capture,
    lines: Seq<Seq<u8>>,
    reference: Seq<char>,
)
    requires
        c.wf(),
        c.holds(lines),
        c.window.end_line < usize::MAX,
    ensures
        ({
            let spans = delivered_spans(c, true, reference);
            let scanned = ScannedPosition { lines: c.lines, bytes: c.bytes, complete: true };
            let shown = text_before(lines, start_of(c)) + page_source(
                lines,
                start_of(c),
                spans,
                spans.len() as int,
            );
            if more_follows(spans, scanned, start_of(c), c.window.end_line) {
                shown == text_before(
                    lines,
                    next_position(spans, scanned, start_of(c), c.window.end_line),
                )
            } else {
                shown == lines_text(lines, lines.len() as int)
            }
        }),
{
    let start = start_of(c);
    let end = c.window.end_line;
    let scanned = ScannedPosition { lines: c.lines, bytes: c.bytes, complete: true };
    let spans = delivered_spans(c, true, reference);
    let n = spans.len() as int;
    lemma_delivered_is_prefix(c, true, reference);
    assert forall|i: int| 0 <= i < n implies {
        &&& (#[trigger] spans[i]).line == start.line + i
        &&& i + 1 < n ==> spans[i].complete
        &&& shows(c.window, lines, span_facts(spans[i]))
    } by {
        law_a_row_shows_its_part_of_the_source(c, lines, true, reference, i);
        assert(spans[i] == c.spans@[i]);
    }
    lemma_page_source(lines, c.window, start, spans, n);
    let unshown = first_unshown(spans, start);
    let shown = text_before(lines, start) + page_source(lines, start, spans, n);
    if n > 0 {
        assert(spans[n - 1].line == start.line + n - 1);
        assert(c.spans@[n - 1].line <= c.window.end_line);
        if spans[n - 1].complete {
            assert(unshown.line == start.line + n);
            if unshown.line <= lines.len() {
                assert(lines[unshown.line - 1].take(0) =~= Seq::<u8>::empty());
            }
            assert(text_before(lines, unshown) =~= lines_text(lines, start.line + n - 1));
        } else {
            assert(shown == text_before(lines, unshown));
        }
    } else {
        assert(shown =~= text_before(lines, start));
    }
    assert(shown == text_before(lines, unshown));
    if !in_window_unshown(spans, scanned, start, end) {
        if more_follows(spans, scanned, start, end) {
            // The window is shown to its end, and lines follow it.
            assert(unshown.line > end);
            assert(n > 0);
            assert(unshown == next_position(spans, scanned, start, end));
        } else {
            assert(unshown.line > lines.len());
            lemma_lines_text_beyond(lines, unshown.line - 1);
            assert(text_before(lines, unshown) =~= lines_text(lines, unshown.line - 1));
        }
    }
}

/// Whether anything follows the page of a capture of a whole source.
pub open spec fn goes_on(c: Capture, reference: Seq<char>) -> bool {
    more_follows(
        delivered_spans(c, true, reference),
        ScannedPosition { lines: c.lines, bytes: c.bytes, complete: true },
        start_of(c),
        c.window.end_line,
    )
}

/// Where the page of a capture of a whole source says to go on.
pub open spec fn continuation(c: Capture, reference: Seq<char>) -> SourcePosition {
    next_position(
        delivered_spans(c, true, reference),
        ScannedPosition { lines: c.lines, bytes: c.bytes, complete: true },
        start_of(c),
        c.window.end_line,
    )
}

/// Whether captures are those of a reader that starts at the first line of a
/// source and then follows nothing but the continuation of each page.
pub open spec fn is_walk(pages: Seq<Capture>, lines: Seq<Seq<u8>>, reference: Seq<char>) -> bool {
    forall|i: int|
        0 <= i < pages.len() ==> {
            &&& (#[trigger] pages[i]).wf()
            &&& pages[i].holds(lines)
            &&& pages[i].window.end_line < usize::MAX
            &&& start_of(pages[i]) == if i == 0 {
                (SourcePosition { line: 1, line_byte_offset: 0 })
            } else {
                continuation(pages[i - 1], reference)
            }
            &&& i + 1 < pages.len() ==> goes_on(pages[i], reference)
        }
}

/// What the first `k` pages of a walk deliver.
pub open spec fn walk_source(
    pages: Seq<Capture>,
    lines: Seq<Seq<u8>>,
    reference: Seq<char>,
    k: int,
) -> Seq<u8>
    decreases k,
{
    if k <= 0 {
        Seq::empty()
    } else {
        let spans = delivered_spans(pages[k - 1], true, reference);
        walk_source(pages, lines, reference, k - 1) + page_source(
            lines,
            start_of(pages[k - 1]),
            spans,
            spans.len() as int,
        )
    }
}

proof fn lemma_walk(pages: Seq<Capture>, lines: Seq<Seq<u8>>, reference: Seq<char>, k: int)
    requires
        is_walk(pages, lines, reference),
        0 <= k < pages.len(),
    ensures
        walk_source(pages, lines, reference, k) == text_before(lines, start_of(pages[k])),
    decreases k,
{
    if k == 0 {
        assert(start_of(pages[0]) == (SourcePosition { line: 1, line_byte_offset: 0 }));
        if lines.len() > 0 {
            assert(lines[0].take(0) =~= Seq::<u8>::empty());
        }
        assert(text_before(lines, start_of(pages[0])) =~= Seq::<u8>::empty());
    } else {
        lemma_walk(pages, lines, reference, k - 1);
        let page = pages[k - 1];
        assert(goes_on(page, reference));
        law_a_page_delivers_up_to_its_continuation(page, lines, reference);
        assert(start_of(pages[k]) == continuation(page, reference));
    }
}

/// Following the continuations reads the whole source: once a page offers no
/// further one, the pages together have delivered every byte of every line,
/// in order, each exactly once.
pub proof fn law_a_walk_delivers_the_source_exactly_once(
    pages: Seq<Capture>,
    lines: Seq<Seq<u8>>,
    reference: Seq<char>,
)
    requires
        is_walk(pages, lines, reference),
        pages.len() > 0,
        !goes_on(pages.last(), reference),
    ensures
        walk_source(pages, lines, reference, pages.len() as int) == lines_text(
            lines,
            lines.len() as int,
        ),
{
    lemma_walk(pages, lines, reference, pages.len() - 1);
    law_a_page_delivers_up_to_its_continuation(pages.last(), lines, reference);
}

proof fn lemma_join_of_clauses(clauses: Seq<Seq<char>>)
    ensures
        clauses.len() == 2 ==> text::join(clauses, "; "@).len() == clauses[0].len() + 2
            + clauses[1].len(),
        clauses.len() == 3 ==> text::join(clauses, "; "@).len() == clauses[0].len() + 2
            + clauses[1].len() + 2 + clauses[2].len(),
{
    reveal_strlit("; ");
    reveal_with_fuel(text::join, 4);
}

/// Whether every number of some facts fits a machine word.
pub open spec fn in_range(f: Coverage) -> bool {
    &&& f.first_line <= usize::MAX
    &&& f.last_line <= usize::MAX
    &&& f.counted_lines <= usize::MAX
    &&& f.next_line <= usize::MAX
    &&& f.next_offset <= usize::MAX
    &&& f.truncated_line matches Some(n) ==> n <= usize::MAX
}

/// The reserve covers every footer: whatever a page states about its
/// coverage, its footer and the line break before it are no longer than what
/// was kept free for its reference.
pub proof fn law_the_reserve_covers_every_footer(f: Coverage)
    requires
        in_range(f),
    ensures
        page::footer_of(clauses_of(f)) matches Some(t) ==> t.len() + 1 <= footer_reserve(
            f.reference,
        ),
{
    let big = usize::MAX as nat;
    let worst = worst_facts(f.reference);
    reveal_strlit("");
    reveal_strlit("[coverage] ");
    reveal_strlit("no lines in the scanned prefix of ");
    reveal_strlit(" lines");
    reveal_strlit(" (scan budget reached; totals are incomplete)");
    reveal_strlit("showing lines ");
    reveal_strlit("-");
    reveal_strlit(" of ");
    reveal_strlit(" total");
    reveal_strlit(" of at least ");
    reveal_strlit(" total (scan budget reached; totals are incomplete)");
    reveal_strlit("end of artifact (");
    reveal_strlit(" lines)");
    reveal_strlit("continue with artifact.read reference=");
    page::lemma_dec_len_monotone(f.first_line, big);
    page::lemma_dec_len_monotone(f.last_line, big);
    page::lemma_dec_len_monotone(f.counted_lines, big);
    page::lemma_dec_len_monotone(f.next_line, big);
    page::lemma_dec_len_monotone(f.next_offset, big);
    assert(text::dec(100).len() == 3) by {
        reveal_with_fuel(text::dec, 3);
    }
    page::lemma_dec_len_monotone(100, big);
    if let Some(line) = f.truncated_line {
        page::lemma_dec_len_monotone(line, big);
        assert(cut_clause(line).len() <= cut_clause(big).len());
    }
    lemma_join_of_clauses(clauses_of(f));
    lemma_join_of_clauses(clauses_of(worst));
    assert(showing_clause(f).len() <= showing_clause(worst).len());
    assert(continue_clause(f).len() <= continue_clause(worst).len());
    assert(end_clause(f).len() <= continue_clause(worst).len());
}

proof fn lemma_facts_in_range(
    spans: Seq<DeliveredSpan>,
    scanned: ScannedPosition,
    window_start: SourcePosition,
    end_line: usize,
    reference: Seq<char>,
)
    ensures
        in_range(facts_of(spans, scanned, window_start, end_line, reference)),
{
}

/// A finished page fits the budget of the reader, unless the reference alone
/// leaves no room for a page.
pub proof fn law_a_page_fits_the_budget(c: Capture, complete: bool, reference: Seq<char>)
    requires
        c.wf(),
        footer_reserve(reference) + "no lines in range"@.len() <= FINAL_BODY_CHARS,
    ensures
        page_of(
            delivered_spans(c, complete, reference),
            ScannedPosition { lines: c.lines, bytes: c.bytes, complete },
            start_of(c),
            c.window.end_line,
            reference,
        ).len() <= FINAL_BODY_CHARS,
{
    let scanned = ScannedPosition { lines: c.lines, bytes: c.bytes, complete };
    let start = start_of(c);
    let end = c.window.end_line;
    lemma_kept_fits(c.spans@, scanned, start, end, reference, c.spans@.len() as int);
    let none = Seq::<DeliveredSpan>::empty();
    lemma_facts_in_range(none, scanned, start, end, reference);
    law_the_reserve_covers_every_footer(facts_of(none, scanned, start, end, reference));
    reveal_strlit("\n");
    assert(c.spans@.take(0) =~= none);
}

proof fn lemma_kept_fits(
    spans: Seq<DeliveredSpan>,
    scanned: ScannedPosition,
    window_start: SourcePosition,
    end_line: usize,
    reference: Seq<char>,
    n: int,
)
    requires
        0 <= n <= spans.len(),
    ensures
        ({
            let k = kept_spans(spans, scanned, window_start, end_line, reference, n);
            &&& 0 <= k <= n
            &&& k > 0 ==> page_of(
                spans.take(k),
                scanned,
                window_start,
                end_line,
                reference,
            ).len() <= FINAL_BODY_CHARS
            &&& n >= 1 && page_of(
                spans.take(1),
                scanned,
                window_start,
                end_line,
                reference,
            ).len() <= FINAL_BODY_CHARS ==> k >= 1
        }),
    decreases n,
{
    if n > 0 {
        lemma_kept_fits(spans, scanned, window_start, end_line, reference, n - 1);
    }
}

/// The room a page has for its first row.
pub open spec fn first_room(c: Capture) -> int {
    c.window.budget - page::prefix_chars(c.window.start_line as nat) - 1
}

/// What is left of the line a page starts at.
pub open spec fn first_rest(c: Capture, lines: Seq<Seq<u8>>) -> Seq<u8> {
    let line = lines[c.window.start_line - 1];
    line.subrange(c.window.start_offset as int, content_len(line))
}

proof fn lemma_first_row(w: CaptureWindow, lines: Seq<Seq<u8>>, k: int)
    requires
        1 <= w.start_line <= w.end_line,
        w.start_line <= k <= lines.len(),
        accepts(w, lines),
        page::prefix_chars(w.start_line as nat) + 1 <= w.budget,
        ({
            let line = lines[w.start_line - 1];
            let rest = line.subrange(w.start_offset as int, content_len(line));
            let room = w.budget - page::prefix_chars(w.start_line as nat) - 1;
            rest.len() <= room || snap(rest, room) > 0
        }),
    ensures
        captured(w, lines, k).spans.len() >= 1,
    decreases k,
{
    if k > w.start_line {
        lemma_first_row(w, lines, k - 1);
    } else {
        lemma_nothing_before_the_window(w, lines, k - 1);
    }
}

proof fn lemma_nothing_before_the_window(w: CaptureWindow, lines: Seq<Seq<u8>>, k: int)
    requires
        k < w.start_line,
    ensures
        captured(w, lines, k) == (Captured { spans: Seq::empty(), used: 0, closed: false }),
    decreases k,
{
    if k > 0 {
        lemma_nothing_before_the_window(w, lines, k - 1);
    }
}

/// A reader that follows the continuations never stands still: as long as a
/// page has room for the first character that is left, its continuation lies
/// behind its start.
pub proof fn law_a_page_with_room_moves_on(c: Capture, lines: Seq<Seq<u8>>, reference: Seq<char>)
    requires
        c.wf(),
        c.holds(lines),
        c.window.end_line < usize::MAX,
        c.window.budget == content_budget(reference),
        goes_on(c, reference),
        c.window.start_line <= lines.len(),
        0 <= first_room(c),
        first_rest(c, lines).len() <= first_room(c) || snap(
            first_rest(c, lines),
            first_room(c),
        ) > 0,
    ensures
        ({
            let start = start_of(c);
            let next = continuation(c, reference);
            next.line > start.line || (next.line == start.line && next.line_byte_offset
                > start.line_byte_offset)
        }),
{
    let start = start_of(c);
    let end = c.window.end_line;
    let scanned = ScannedPosition { lines: c.lines, bytes: c.bytes, complete: true };
    lemma_first_row(c.window, lines, lines.len() as int);
    assert(facts_seq(c.spans@).len() >= 1);
    let one = c.spans@.take(1);
    assert(spans_cost(c.spans@, 1) <= c.window.budget) by {
        assert(c.spans@[0].line == c.window.start_line);
        reveal_with_fuel(spans_cost, 2);
    }
    assert(page_of(one, scanned, start, end, reference).len() <= FINAL_BODY_CHARS) by {
        reveal_with_fuel(spans_cost, 2);
        reveal_with_fuel(text::join, 2);
        reveal_strlit("\n");
        reveal_strlit(" | ");
        let rows = Seq::new(one.len(), |i: int| page::span_row(one[i]));
        assert(rows.len() == 1 && rows[0] == page::span_row(c.spans@[0]));
        assert(page::span_rows(one) =~= page::span_row(c.spans@[0]));
        lemma_facts_in_range(one, scanned, start, end, reference);
        law_the_reserve_covers_every_footer(facts_of(one, scanned, start, end, reference));
    }
    lemma_kept_fits(c.spans@, scanned, start, end, reference, c.spans@.len() as int);
    let spans = delivered_spans(c, true, reference);
    assert(spans.len() >= 1);
    lemma_delivered_is_prefix(c, true, reference);
    law_a_row_shows_its_part_of_the_source(c, lines, true, reference, 0);
    assert(contiguous(spans, start)) by {
        assert forall|k: int| 0 <= k < spans.len() implies {
            &&& (#[trigger] spans[k]).line == start.line + k
            &&& k + 1 < spans.len() ==> spans[k].complete
        } by {
            assert(spans[k] == c.spans@[k]);
        }
    }
    law_a_page_that_delivers_moves_on(spans, scanned, start, end);
}

proof fn lemma_a_closed_page_stays_empty(w: CaptureWindow, lines: Seq<Seq<u8>>, k: int)
    requires
        1 <= k <= lines.len(),
        captured(w, lines, 1).spans.len() == 0,
        captured(w, lines, 1).closed,
    ensures
        captured(w, lines, k).spans.len() == 0,
        captured(w, lines, k).closed,
    decreases k,
{
    if k > 1 {
        lemma_a_closed_page_stays_empty(w, lines, k - 1);
    }
}

proof fn lemma_a_continuation_is_not_the_beginning(
    c: Capture,
    lines: Seq<Seq<u8>>,
    reference: Seq<char>,
)
    requires
        c.wf(),
        c.holds(lines),
        c.window.end_line < usize::MAX,
        goes_on(c, reference),
        continuation(c, reference) == (SourcePosition { line: 1, line_byte_offset: 0 }),
    ensures
        start_of(c) == (SourcePosition { line: 1, line_byte_offset: 0 }),
        lines.len() >= 1,
{
    let spans = delivered_spans(c, true, reference);
    lemma_delivered_is_prefix(c, true, reference);
    if spans.len() > 0 {
        law_a_row_shows_its_part_of_the_source(c, lines, true, reference, spans.len() - 1);
        assert(spans.last() == c.spans@[spans.len() - 1]);
    }
}

proof fn lemma_the_first_row_fits(last: Capture, lines: Seq<Seq<u8>>, reference: Seq<char>)
    requires
        last.wf(),
        last.holds(lines),
        start_of(last) == (SourcePosition { line: 1, line_byte_offset: 0 }),
        lines.len() >= 1,
        !goes_on(last, reference),
        0 <= first_room(last),
    ensures
        first_rest(last, lines).len() <= first_room(last) || snap(
            first_rest(last, lines),
            first_room(last),
        ) > 0,
{
    lemma_delivered_is_prefix(last, true, reference);
    assert(delivered_spans(last, true, reference).len() > 0);
    assert(facts_seq(last.spans@).len() > 0);
    let w = last.window;
    assert(captured(w, lines, 0) == (Captured { spans: Seq::empty(), used: 0, closed: false }));
    if captured(w, lines, 1).spans.len() == 0 {
        lemma_a_closed_page_stays_empty(w, lines, lines.len() as int);
    }
    lemma_snap(first_rest(last, lines), first_room(last));
}

// Both pages start at the first line and have the same room, so what fits the
// one fits the other.
proof fn lemma_a_page_of_all_is_the_first(
    before: Capture,
    last: Capture,
    lines: Seq<Seq<u8>>,
    reference: Seq<char>,
)
    requires
        before.wf(),
        before.holds(lines),
        before.window.end_line < usize::MAX,
        last.wf(),
        last.holds(lines),
        start_of(before) == (SourcePosition { line: 1, line_byte_offset: 0 }),
        start_of(last) == start_of(before),
        before.window.budget == content_budget(reference),
        last.window.budget == content_budget(reference),
        page::prefix_chars(1) + 1 <= content_budget(reference),
        lines.len() >= 1,
        !goes_on(last, reference),
        goes_on(before, reference),
    ensures
        continuation(before, reference) != start_of(before),
{
    lemma_the_first_row_fits(last, lines, reference);
    assert(first_rest(before, lines) == first_rest(last, lines));
    assert(first_room(before) == first_room(last));
    law_a_page_with_room_moves_on(before, lines, reference);
}

/// Whether the page of a capture of a whole source closes with the clause
/// that says that the source ends there.
pub open spec fn says_the_end(c: Capture, lines: Seq<Seq<u8>>, reference: Seq<char>) -> bool {
    let spans = delivered_spans(c, true, reference);
    let scanned = ScannedPosition { lines: c.lines, bytes: c.bytes, complete: true };
    let f = facts_of(spans, scanned, start_of(c), c.window.end_line, reference);
    &&& end_clause(f) == "end of artifact ("@ + text::dec(lines.len()) + " lines)"@
    &&& page_of(spans, scanned, start_of(c), c.window.end_line, reference) == page::with_footer(
        if spans.len() == 0 {
            "no lines in range"@
        } else {
            page::span_rows(spans)
        },
        page::footer_of(seq![showing_clause(f), end_clause(f)]),
    )
}

proof fn lemma_a_later_page_says_the_end(c: Capture, lines: Seq<Seq<u8>>, reference: Seq<char>)
    requires
        c.holds(lines),
        !goes_on(c, reference),
        start_of(c) != (SourcePosition { line: 1, line_byte_offset: 0 }),
    ensures
        says_the_end(c, lines, reference),
{
}

proof fn lemma_walk_end(pages: Seq<Capture>, lines: Seq<Seq<u8>>, reference: Seq<char>, i: int)
    requires
        is_walk(pages, lines, reference),
        0 < i < pages.len(),
    ensures
        pages[i].wf(),
        pages[i].holds(lines),
        start_of(pages[i]) == continuation(pages[i - 1], reference),
        pages[i - 1].wf(),
        pages[i - 1].holds(lines),
        pages[i - 1].window.end_line < usize::MAX,
        goes_on(pages[i - 1], reference),
{
    let here = pages[i];
    let before = pages[i - 1];
}

/// The last page of a walk over more than one page closes with the end
/// clause, which names the number of lines of the source; as long as the
/// reference leaves room for the number of a row, so that a page shows
/// anything at all.
pub proof fn law_the_last_page_of_a_walk_says_so(
    pages: Seq<Capture>,
    lines: Seq<Seq<u8>>,
    reference: Seq<char>,
)
    requires
        is_walk(pages, lines, reference),
        pages.len() > 1,
        !goes_on(pages.last(), reference),
        forall|i: int|
            0 <= i < pages.len() ==> (#[trigger] pages[i]).window.budget == content_budget(
                reference,
            ),
        page::prefix_chars(1) + 1 <= content_budget(reference),
    ensures
        says_the_end(pages.last(), lines, reference),
{
    lemma_walk_end(pages, lines, reference, pages.len() - 1);
    lemma_the_end(pages[pages.len() - 2], pages.last(), lines, reference);
}

proof fn lemma_the_end(
    before: Capture,
    last: Capture,
    lines: Seq<Seq<u8>>,
    reference: Seq<char>,
)
    requires
        before.wf(),
        before.holds(lines),
        before.window.end_line < usize::MAX,
        last.wf(),
        last.holds(lines),
        start_of(last) == continuation(before, reference),
        before.window.budget == content_budget(reference),
        last.window.budget == content_budget(reference),
        page::prefix_chars(1) + 1 <= content_budget(reference),
        !goes_on(last, reference),
        goes_on(before, reference),
    ensures
        says_the_end(last, lines, reference),
{
    if start_of(last) == (SourcePosition { line: 1, line_byte_offset: 0 }) {
        lemma_a_continuation_is_not_the_beginning(before, lines, reference);
        lemma_a_page_of_all_is_the_first(before, last, lines, reference);
    } else {
        lemma_a_later_page_says_the_end(last, lines, reference);
    }
}

// ---------------------------------------------------------------------
// Laws over the bytes
// ---------------------------------------------------------------------

/// The content of a line is the line without the break at its end: a line
/// feed, with the carriage return before it where there is one.
pub proof fn law_the_content_of_a_line_is_without_its_break(line: Seq<u8>)
    ensures
        0 <= content_len(line) <= line.len(),
        ({
            let end = line.skip(content_len(line));
            &&& end == Seq::<u8>::empty() || end == seq![10u8] || end == seq![13u8, 10u8]
            &&& line.len() > 0 && line.last() == 10u8 ==> end.len() > 0
            &&& line.len() > 1 && line.last() == 10u8 && line[line.len() - 2] == 13u8 ==> end.len()
                == 2
            &&& end == seq![10u8] ==> !(line.len() > 1 && line[line.len() - 2] == 13u8)
        }),
{
    let n = content_len(line);
    let end = line.skip(n);
    if n == line.len() - 2 {
        assert(end =~= seq![13u8, 10u8]);
    } else if n == line.len() - 1 {
        assert(end =~= seq![10u8]);
    } else {
        assert(end =~= Seq::empty());
    }
    if end == seq![10u8] {
        assert(end.len() == 1);
    }
}

/// A cut falls on the last character boundary that is not behind it.
pub proof fn law_a_cut_falls_on_the_last_boundary(bytes: Seq<u8>, k: int, b: int)
    requires
        0 <= k <= bytes.len(),
    ensures
        0 <= snap(bytes, k) <= k,
        snap(bytes, k) == 0 || snap(bytes, k) == bytes.len() || !(0x80 <= bytes[snap(bytes, k)]
            < 0xC0),
        0 <= b <= k && (b == 0 || b == bytes.len() || !(0x80 <= bytes[b] < 0xC0)) ==> b <= snap(
            bytes,
            k,
        ),
    decreases k,
{
    if k > 0 && !raw_boundary(bytes, k) {
        law_a_cut_falls_on_the_last_boundary(bytes, k - 1, b);
    }
}

/// A call reads from its first line to the last one it names, or two hundred
/// lines where it names none; a range that is empty, or longer than four
/// hundred lines, is refused.
pub proof fn law_a_call_reads_at_most_four_hundred_lines(
    start_line: usize,
    end_line: Option<usize>,
    last: usize,
)
    ensures
        window(start_line, Some(last)) is Ok <==> 1 <= start_line <= last && last - start_line
            < 400,
        window(start_line, Some(last)) is Ok ==> window(start_line, Some(last)) == Ok::<
            usize,
            ArtifactError,
        >(last),
        window(start_line, None) is Ok <==> 1 <= start_line && start_line + 199 <= usize::MAX,
        window(start_line, None) is Ok ==> window(start_line, None)->Ok_0 == start_line + 199,
        start_line == 0 || last < start_line ==> window(start_line, Some(last)) == Err::<usize, _>(
            ArtifactError::InvalidRange,
        ),
        start_line > 0 && last >= start_line + 400 ==> window(start_line, Some(last)) == Err::<
            usize,
            _,
        >(ArtifactError::TooManyLines),
        MAX_READ_LINES == 400,
        DEFAULT_PAGE_LINES == 200,
        MAX_SCAN_BYTES == 8 * 1024 * 1024,
{
}

/// What becomes of a line: one outside the window, or behind the page's end,
/// is passed; one that is asked for from its middle must have a character
/// there; of any other, as much is shown as fits what is left of the page: all
/// of it, or its beginning up to the last character that fits.
pub proof fn law_as_much_of_a_line_is_shown_as_fits(
    w: CaptureWindow,
    used: nat,
    number: nat,
    line: Seq<u8>,
)
    requires
        w.start_line <= number <= w.end_line,
        0 <= skip_of(w, number) < content_len(line) || skip_of(w, number) == 0,
        skip_of(w, number) == 0 || skip_of(w, number) == line.len() || !(0x80 <= line[skip_of(
            w,
            number,
        )] < 0xC0),
    ensures
        ({
            let from = skip_of(w, number);
            let left = content_len(line) - from;
            let room = w.budget - used - (if text::dec(number).len() < 6 {
                6
            } else {
                text::dec(number).len()
            }) - 4;
            let r = line_capture(w, false, used, number, line);
            &&& left <= room || left == 0 ==> r == LineCapture::Captured(
                SpanFacts {
                    line: number,
                    shown_to: content_len(line) as nat,
                    complete: true,
                    text: shown_text(line.subrange(from, content_len(line))),
                },
            )
            &&& left > room && left > 0 ==> r is Closed || {
                &&& r is Captured
                &&& r->Captured_0.line == number
                &&& !r->Captured_0.complete
                &&& from < r->Captured_0.shown_to <= from + room
                &&& r->Captured_0.text == shown_text(
                    line.subrange(from, r->Captured_0.shown_to as int),
                )
            }
            &&& r is Closed ==> room <= 0 || forall|b: int|
                from < b <= from + room ==> 0x80 <= #[trigger] line[b] < 0xC0
            &&& r is Captured && !r->Captured_0.complete ==> forall|b: int|
                r->Captured_0.shown_to < b <= from + room ==> 0x80 <= #[trigger] line[b] < 0xC0
        }),
        w.start_offset > 0 ==> (number == w.start_line ==> skip_of(w, number) == w.start_offset),
        number != w.start_line ==> skip_of(w, number) == 0,
{
    let from = skip_of(w, number);
    let content = content_len(line);
    let rest = line.subrange(from, content);
    let spent = used + page::prefix_chars(number) + 1;
    let room = if spent >= w.budget {
        0
    } else {
        w.budget - spent
    };
    if rest.len() > room {
        let take = snap(rest, room);
        law_a_cut_falls_on_the_last_boundary(rest, room, 0);
        assert(rest.take(take) =~= line.subrange(from, from + take));
        assert forall|b: int| from + take < b <= from + room implies 0x80 <= #[trigger] line[b]
            < 0xC0 by {
            law_a_cut_falls_on_the_last_boundary(rest, room, b - from);
            assert(rest[b - from] == line[b]);
        }
    }
}

/// A line outside the window is passed over, and so is every line behind the
/// end of the page.
pub proof fn law_lines_outside_the_window_are_passed(
    w: CaptureWindow,
    closed: bool,
    used: nat,
    number: nat,
    line: Seq<u8>,
)
    requires
        number < w.start_line || number > w.end_line || closed,
    ensures
        line_capture(w, closed, used, number, line) == LineCapture::Passed,
{
}

/// A first line asked for from its middle is refused where the offset is at or
/// past the end of its content, or inside a character.
pub proof fn law_an_offset_must_fall_on_a_character(w: CaptureWindow, used: nat, line: Seq<u8>)
    requires
        w.start_line <= w.end_line,
        w.start_offset > 0,
    ensures
        ({
            let r = line_capture(w, false, used, w.start_line as nat, line);
            &&& r is Rejected <==> w.start_offset >= content_len(line) || (0x80
                <= line[w.start_offset as int] < 0xC0)
            &&& w.start_offset >= content_len(line) ==> r == LineCapture::Rejected(
                ArtifactError::OffsetPastEnd {
                    offset: w.start_offset,
                    line: w.start_line,
                    content: content_len(line) as usize,
                },
            )
            &&& w.start_offset < content_len(line) && 0x80 <= line[w.start_offset as int] < 0xC0
                ==> r == LineCapture::Rejected(ArtifactError::OffsetInsideCharacter)
        }),
{
}

/// Where reading goes on: at the first place that was not shown. After a line
/// that was cut that is inside it; after a whole line it is the next line;
/// where nothing was shown it is where the page started.
pub proof fn law_the_first_unshown_place(spans: Seq<DeliveredSpan>, window_start: SourcePosition)
    ensures
        spans.len() == 0 ==> first_unshown(spans, window_start) == window_start,
        spans.len() > 0 && !spans.last().complete ==> first_unshown(spans, window_start)
            == (SourcePosition {
            line: spans.last().line,
            line_byte_offset: spans.last().shown_to,
        }),
        spans.len() > 0 && spans.last().complete && spans.last().line < usize::MAX
            ==> first_unshown(spans, window_start).line == spans.last().line + 1 && first_unshown(
            spans,
            window_start,
        ).line_byte_offset == 0,
{
}

/// There is more exactly where the scan did not reach the end, or a scanned
/// line is not shown; and then reading goes on at the first place that is not
/// shown, or behind the window where all of it is shown.
pub proof fn law_more_follows_where_something_is_unshown(
    spans: Seq<DeliveredSpan>,
    scanned: ScannedPosition,
    window_start: SourcePosition,
    end_line: usize,
)
    ensures
        ({
            let unshown = first_unshown(spans, window_start);
            let more = more_follows(spans, scanned, window_start, end_line);
            let next = next_position(spans, scanned, window_start, end_line);
            &&& more <==> !scanned.complete || unshown.line <= end_line && unshown.line
                <= scanned.lines || end_line < scanned.lines
            &&& !scanned.complete ==> next == unshown
            &&& unshown.line <= end_line && unshown.line <= scanned.lines ==> next == unshown
            &&& scanned.complete && unshown.line > end_line && end_line < scanned.lines
                ==> next.line == end_line + 1 && next.line_byte_offset == 0
            &&& in_window_unshown(spans, scanned, window_start, end_line) <==> unshown.line
                <= end_line && unshown.line <= scanned.lines
        }),
{
}

/// What a page says of itself: its first and last shown line, how many lines
/// were counted, which line is cut, and that it is the whole artifact exactly
/// where it starts at the beginning, the scan is complete and nothing follows.
pub proof fn law_a_page_says_what_it_shows(
    spans: Seq<DeliveredSpan>,
    scanned: ScannedPosition,
    window_start: SourcePosition,
    end_line: usize,
    reference: Seq<char>,
)
    ensures
        ({
            let f = facts_of(spans, scanned, window_start, end_line, reference);
            &&& spans.len() > 0 ==> f.first_line == spans[0].line && f.last_line
                == spans.last().line
            &&& spans.len() == 0 ==> f.first_line == 0 && f.last_line == 0
            &&& f.counted_lines == scanned.lines
            &&& f.scan_complete == scanned.complete
            &&& f.truncated_line is Some <==> spans.len() > 0 && !spans.last().complete
            &&& f.truncated_line is Some ==> f.truncated_line->0 == spans.last().line
            &&& f.has_more == more_follows(spans, scanned, window_start, end_line)
            &&& f.next_line == next_position(spans, scanned, window_start, end_line).line
            &&& f.next_offset == next_position(
                spans,
                scanned,
                window_start,
                end_line,
            ).line_byte_offset
            &&& f.reference == reference
            &&& f.plain <==> window_start == (SourcePosition { line: 1, line_byte_offset: 0 })
                && scanned.complete && !f.has_more
        }),
{
}

/// The footer of a page that is not the whole artifact says what is shown and,
/// exactly where there is more, how to read on: with an offset where reading
/// goes on inside a line.
pub proof fn law_a_footer_says_how_to_read_on(f: Coverage)
    ensures
        f.plain ==> clauses_of(f).len() == 0,
        !f.plain && f.has_more ==> clauses_of(f).last() == "continue with artifact.read reference="@
            + f.reference + " start_line="@ + text::dec(f.next_line) + (if f.next_offset > 0 {
            " line_byte_offset="@ + text::dec(f.next_offset)
        } else {
            Seq::empty()
        }),
        !f.plain && !f.has_more ==> clauses_of(f).last() == "end of artifact ("@ + text::dec(
            f.counted_lines,
        ) + " lines)"@,
        !f.plain && f.has_more && f.truncated_line is Some ==> clauses_of(f).len() == 3
            && clauses_of(f)[1] == "line "@ + text::dec(f.truncated_line->0)
            + " is cut at the page budget; its unshown suffix continues inside the line"@,
        !f.plain && f.first_line > 0 && f.scan_complete ==> clauses_of(f)[0] == "showing lines "@
            + text::dec(f.first_line) + "-"@ + text::dec(f.last_line) + " of "@ + text::dec(
            f.counted_lines,
        ) + " total"@,
        !f.plain && f.first_line > 0 && !f.scan_complete ==> clauses_of(f)[0] == "showing lines "@
            + text::dec(f.first_line) + "-"@ + text::dec(f.last_line) + " of at least "@ + text::dec(
            f.counted_lines,
        ) + " total (scan budget reached; totals are incomplete)"@,
{
    if !f.plain && f.has_more {
        assert(clauses_of(f).last() =~= "continue with artifact.read reference="@ + f.reference
            + " start_line="@ + text::dec(f.next_line) + (if f.next_offset > 0 {
            " line_byte_offset="@ + text::dec(f.next_offset)
        } else {
            Seq::empty()
        }));
    }
}

/// A page is the rows of its lines under a footer, and keeps the most of its
/// first spans that fit sixteen thousand characters.
pub proof fn law_a_page_keeps_the_most_that_fit(
    spans: Seq<DeliveredSpan>,
    scanned: ScannedPosition,
    window_start: SourcePosition,
    end_line: usize,
    reference: Seq<char>,
    n: int,
    m: int,
)
    requires
        0 <= n <= spans.len(),
    ensures
        ({
            let kept = kept_spans(spans, scanned, window_start, end_line, reference, n);
            &&& 0 <= kept <= n
            &&& kept > 0 ==> page_of(
                spans.take(kept),
                scanned,
                window_start,
                end_line,
                reference,
            ).len() <= 16_000
            &&& kept < m <= n ==> page_of(
                spans.take(m),
                scanned,
                window_start,
                end_line,
                reference,
            ).len() > 16_000
        }),
    decreases n,
{
    if !(n <= 0 || page_of(spans.take(n), scanned, window_start, end_line, reference).len()
        <= FINAL_BODY_CHARS) {
        law_a_page_keeps_the_most_that_fit(
            spans,
            scanned,
            window_start,
            end_line,
            reference,
            n - 1,
            m,
        );
    }
}

/// The whole of a page is used: what the longest footer leaves of sixteen
/// thousand characters is left for lines.
pub proof fn law_what_is_left_of_a_page_is_for_lines(reference: Seq<char>)
    requires
        content_budget(reference) > 0,
    ensures
        content_budget(reference) + page::footer_of(clauses_of(worst_facts(reference)))->0.len() + 1
            == 16_000,
{
}

/// The summary of a page names the lines that it shows, or the line that was
/// asked for where it shows none, and how many lines were counted.
pub proof fn law_a_summary_names_the_shown_lines(
    f: Coverage,
    start_line: nat,
    shown_path: Seq<char>,
)
    requires
        f.scan_complete,
        !f.window_truncated,
    ensures
        f.first_line > 0 && f.last_line > 0 ==> summary_of(f, start_line, shown_path)
            == "read lines "@ + text::dec(f.first_line) + "-"@ + text::dec(f.last_line) + " of "@
            + shown_path + " ("@ + text::dec(f.counted_lines) + " lines total"@ + ")"@,
        f.first_line == 0 && f.last_line == 0 ==> summary_of(f, start_line, shown_path)
            == "read lines "@ + text::dec(start_line) + "-"@ + text::dec(start_line) + " of "@
            + shown_path + " ("@ + text::dec(f.counted_lines) + " lines total"@ + ")"@,
{
    reveal_strlit("");
    if f.first_line > 0 && f.last_line > 0 {
        assert(summary_of(f, start_line, shown_path) =~= "read lines "@ + text::dec(f.first_line)
            + "-"@ + text::dec(f.last_line) + " of "@ + shown_path + " ("@ + text::dec(
            f.counted_lines,
        ) + " lines total"@ + ")"@);
    }
    if f.first_line == 0 && f.last_line == 0 {
        assert(summary_of(f, start_line, shown_path) =~= "read lines "@ + text::dec(start_line)
            + "-"@ + text::dec(start_line) + " of "@ + shown_path + " ("@ + text::dec(
            f.counted_lines,
        ) + " lines total"@ + ")"@);
    }
}

} // verus!
