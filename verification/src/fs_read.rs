//! `fs.read`: one page of a file, whole lines under their true numbers.
//!
//! A page is captured under the budget that is left once the header and the
//! longest possible footer are paid for, so the finished page always fits
//! and the continuation it names is the first line the reader has not seen.
use crate::echo;
use crate::matching;
use crate::matching::LineEnding;
use crate::outside;
use crate::page;
use crate::page::{DeliveredSpan, PageRenderer, FINAL_BODY_CHARS};
use crate::patch;
use crate::patch::MAX_FILE_BYTES;
use crate::text;
use vstd::prelude::*;

verus! {

/// How many lines one call may ask for.
pub const MAX_READ_LINES: usize = 400;

/// How many lines a continuation past the requested window asks for.
pub const FS_READ_PAGE_LINES: usize = 200;

/// The line a call starts at when it does not say.
pub fn default_start_line() -> (r: usize)
    ensures
        r == 1,
{
    1
}

/// The line a call ends at when it does not say.
pub fn default_end_line() -> (r: usize)
    ensures
        r == 200,
{
    200
}

/// Why a call is invalid.
#[derive(Clone, Copy, Debug, PartialEq, Eq, Structural)]
pub enum ReadError {
    InvalidRange,
    TooManyLines,
    FileTooLarge(u64),
    FileGrew,
}

/// The text of an invalid-request error.
pub open spec fn read_error_text(e: ReadError) -> Seq<char> {
    let limit = text::dec(MAX_FILE_BYTES as nat);
    match e {
        ReadError::InvalidRange => "invalid line range"@,
        ReadError::TooManyLines => "fs.read is limited to "@ + text::dec(MAX_READ_LINES as nat)
            + " lines per call"@,
        ReadError::FileTooLarge(n) => "file is "@ + text::dec(n as nat)
            + " bytes; use a narrower/specialized tool for files above "@ + limit + " bytes"@,
        ReadError::FileGrew => "file grew beyond the fs.read limit of "@ + limit
            + " bytes while it was read"@,
    }
}

impl ReadError {
    /// The text of the error.
    pub fn message(&self) -> (out: String)
        ensures
            out@ == read_error_text(*self),
    {
        match self {
            ReadError::InvalidRange => "invalid line range".to_owned(),
            ReadError::TooManyLines => {
                let mut out = "fs.read is limited to ".to_owned();
                text::push_dec(&mut out, MAX_READ_LINES as u64);
                out.append(" lines per call");
                out
            },
            ReadError::FileTooLarge(n) => {
                let mut out = "file is ".to_owned();
                text::push_dec(&mut out, *n);
                out.append(" bytes; use a narrower/specialized tool for files above ");
                text::push_dec(&mut out, MAX_FILE_BYTES as u64);
                out.append(" bytes");
                out
            },
            ReadError::FileGrew => {
                let mut out = "file grew beyond the fs.read limit of ".to_owned();
                text::push_dec(&mut out, MAX_FILE_BYTES as u64);
                out.append(" bytes while it was read");
                out
            },
        }
    }
}

/// Whether a range of lines can be asked for in one call.
pub open spec fn is_range(start_line: usize, end_line: usize) -> bool {
    1 <= start_line <= end_line && end_line - start_line < MAX_READ_LINES
}

/// Checks the requested range.
pub fn check_range(start_line: usize, end_line: usize) -> (r: Result<(), ReadError>)
    ensures
        r == if start_line == 0 || end_line < start_line {
            Err::<(), ReadError>(ReadError::InvalidRange)
        } else if end_line - start_line >= MAX_READ_LINES {
            Err(ReadError::TooManyLines)
        } else {
            Ok(())
        },
        (r is Ok) == is_range(start_line, end_line),
{
    if start_line == 0 || end_line < start_line {
        return Err(ReadError::InvalidRange);
    }
    if end_line - start_line >= MAX_READ_LINES {
        return Err(ReadError::TooManyLines);
    }
    Ok(())
}

/// Checks the size of the file before it is read and of what was read.
pub fn check_size(file_bytes: u64, read_bytes: u64) -> (r: Result<(), ReadError>)
    ensures
        r == if file_bytes > MAX_FILE_BYTES {
            Err::<(), ReadError>(ReadError::FileTooLarge(file_bytes))
        } else if read_bytes > MAX_FILE_BYTES {
            Err(ReadError::FileGrew)
        } else {
            Ok(())
        },
{
    if file_bytes > MAX_FILE_BYTES as u64 {
        return Err(ReadError::FileTooLarge(file_bytes));
    }
    if read_bytes > MAX_FILE_BYTES as u64 {
        return Err(ReadError::FileGrew);
    }
    Ok(())
}

// ---------------------------------------------------------------------
// The newline map of a mixed file
// ---------------------------------------------------------------------

/// How each line from character `from` on ends: `C` for CRLF, `L` for LF,
/// `N` for the last line without a break.
pub open spec fn eol_map_from(s: Seq<char>, from: int) -> Seq<char>
    decreases s.len() - from,
{
    if from < 0 || from >= s.len() {
        Seq::empty()
    } else {
        let end = text::line_feed_from(s, from);
        if from <= end < s.len() {
            seq![
                if end > from && s[end - 1] == '\r' {
                    'C'
                } else {
                    'L'
                },
            ] + eol_map_from(s, end + 1)
        } else {
            seq!['N']
        }
    }
}

/// How each line of a text ends.
pub open spec fn eol_map(s: Seq<char>) -> Seq<char> {
    eol_map_from(s, 0)
}

/// Entries `start..end` of a map, as far as there are any.
pub open spec fn eol_window(map: Seq<char>, start: int, end: int) -> Seq<char> {
    let stop = if end <= map.len() {
        end
    } else {
        map.len() as int
    };
    if start < stop {
        map.subrange(start, stop)
    } else {
        Seq::empty()
    }
}

/// The newline map of lines `requested_start..requested_end`, counted from
/// zero.
pub fn mixed_eol_tokens(text: &str, requested_start: usize, requested_end: usize) -> (out: String)
    ensures
        out@ == eol_window(eol_map(text@), requested_start as int, requested_end as int),
{
    let chars = text::chars_of(text);
    let n: usize = chars.len();
    let mut out = String::new();
    let mut line: usize = 0;
    let mut cursor: usize = 0;
    let ghost map = eol_map(text@);
    assert(map =~= map.take(0) + eol_map_from(text@, 0));
    assert(out@ =~= eol_window(map.take(0), requested_start as int, requested_end as int));
    while cursor < n
        invariant_except_break
            line < requested_end || line == 0,
            line <= cursor,
        invariant
            n == chars@.len(),
            chars@ == text@,
            n < usize::MAX,
            cursor <= n,
            map == eol_map(text@),
            line <= map.len(),
            map == map.take(line as int) + eol_map_from(text@, cursor as int),
            out@ == eol_window(
                map.take(line as int),
                requested_start as int,
                requested_end as int,
            ),
        ensures
            line == map.len() || line >= requested_end,
        decreases n - cursor,
    {
        let newline: usize = text::find_line_feed(&chars, cursor);
        let ghost rest = eol_map_from(text@, cursor as int);
        let token: char = if newline < n {
            if newline > cursor && chars[newline - 1] == '\r' {
                'C'
            } else {
                'L'
            }
        } else {
            'N'
        };
        proof {
            assert(rest.len() > 0 && rest[0] == token);
            assert(map[line as int] == token);
            assert(map.take(line + 1) =~= map.take(line as int).push(token));
        }
        let ghost before = out@;
        if requested_start <= line && line < requested_end {
            out.push(token);
        }
        assert(out@ =~= eol_window(
            map.take(line + 1),
            requested_start as int,
            requested_end as int,
        ));
        if newline < n {
            cursor = newline + 1;
        } else {
            cursor = n;
        }
        assert(map =~= map.take(line + 1) + eol_map_from(text@, cursor as int));
        line = line + 1;
        if line >= requested_end {
            break;
        }
    }
    proof {
        if line < map.len() {
            assert(out@ =~= eol_window(map, requested_start as int, requested_end as int));
        } else {
            assert(map.take(line as int) =~= map);
        }
    }
    out
}

// ---------------------------------------------------------------------
// What a page says
// ---------------------------------------------------------------------

pub open spec fn eol_label() -> Seq<char> {
    " eol_tokens(C=CRLF,L=LF,N=none)="@
}

/// The part of the header that identifies the file.
pub open spec fn identity_text(relative: Seq<char>, revision: Seq<char>, ending: LineEnding) -> Seq<
    char,
> {
    "file="@ + outside::json_string(relative) + " revision="@ + revision + " line_ending="@
        + matching::line_ending_name(ending)
}

/// A line counted from zero.
pub open spec fn before_line(line: nat) -> int {
    if line > 0 {
        line - 1
    } else {
        0
    }
}

/// The part of the header that names the delivered lines.
pub open spec fn lines_text(first: nat, last: nat, total: nat) -> Seq<char> {
    " lines="@ + text::dec(first) + "-"@ + text::dec(last) + "/"@ + text::dec(total)
}

/// The clause of a page that the budget cut short.
pub open spec fn showing_clause(from: nat, to: nat, first: nat, last: nat) -> Seq<char> {
    "requested lines "@ + text::dec(from) + "-"@ + text::dec(to) + "; showing lines "@ + text::dec(
        first,
    ) + "-"@ + text::dec(last) + " at the page budget"@
}

/// The clause that declares a line which the page's budget cannot hold.
pub open spec fn oversized_clause(line: nat) -> Seq<char> {
    "line "@ + text::dec(line) + " exceeds the page budget and is not shown"@
}

/// The clause that names the next page.
pub open spec fn continue_clause(relative: Seq<char>, next: nat, end: nat) -> Seq<char> {
    "continue with fs.read path="@ + relative + " start_line="@ + text::dec(next) + " end_line="@
        + text::dec(end)
}

/// A file and the window a call asks for, with what was found out while its
/// lines were captured.
pub struct ReadView {
    pub text: String,
    pub relative: String,
    pub revision: String,
    pub ending: LineEnding,
    pub line_count: usize,
    /// The lines before the window.
    pub skipped: usize,
    /// The last line of the window that exists.
    pub window_end: usize,
    /// The line at which the budget ended the page.
    pub stopped_at: Option<usize>,
    /// Whether that line alone exceeds the budget.
    pub oversized: bool,
    /// The first line and the last line of the next page.
    pub continuation: Option<(usize, usize)>,
}

/// What a page is made from, as values.
pub ghost struct ReadFacts {
    pub text: Seq<char>,
    pub relative: Seq<char>,
    pub revision: Seq<char>,
    pub ending: LineEnding,
    pub total: nat,
    pub skipped: nat,
    pub window_end: nat,
    pub stopped_at: Option<nat>,
    pub oversized: bool,
    pub continuation: Option<(nat, nat)>,
}

impl ReadView {
    pub open spec fn facts(&self) -> ReadFacts {
        ReadFacts {
            text: self.text@,
            relative: self.relative@,
            revision: self.revision@,
            ending: self.ending,
            total: self.line_count as nat,
            skipped: self.skipped as nat,
            window_end: self.window_end as nat,
            stopped_at: match self.stopped_at {
                Some(n) => Some(n as nat),
                None => None,
            },
            oversized: self.oversized,
            continuation: match self.continuation {
                Some((n, e)) => Some((n as nat, e as nat)),
                None => None,
            },
        }
    }

    /// The first and the last delivered line.
    pub open spec fn delivered(spans: Seq<DeliveredSpan>) -> Option<(nat, nat)> {
        if spans.len() == 0 {
            None
        } else {
            Some((spans[0].line as nat, spans.last().line as nat))
        }
    }
}

/// The header of a page that delivers lines `first..=last`, or none.
pub open spec fn header_text(f: ReadFacts, delivered: Option<(nat, nat)>) -> Seq<char> {
    let identity = identity_text(f.relative, f.revision, f.ending);
    match delivered {
        Some((first, last)) => {
            let tokens = if f.ending == LineEnding::Mixed {
                eol_label() + eol_window(eol_map(f.text), before_line(first), last as int)
            } else {
                Seq::empty()
            };
            identity + tokens + lines_text(first, last, f.total)
        },
        None => if f.total == 0 {
            identity + " lines=0-0/0"@
        } else {
            identity
        },
    }
}

/// What a page that delivers lines `first..=last`, or none, states about its
/// coverage.
pub open spec fn clauses_of(f: ReadFacts, delivered: Option<(nat, nat)>) -> Seq<Seq<char>> {
    let cut = match (f.stopped_at, delivered) {
        (Some(stop), _) if f.oversized => seq![oversized_clause(stop)],
        (Some(_), Some((first, last))) => seq![
            showing_clause(f.skipped + 1, f.window_end, first, last),
        ],
        _ => Seq::empty(),
    };
    let next = match f.continuation {
        Some((next, end)) => seq![continue_clause(f.relative, next, end)],
        None => Seq::empty(),
    };
    cut + next
}

/// A finished page: header, rows and footer.
pub open spec fn page_of(
    f: ReadFacts,
    delivered: Option<(nat, nat)>,
    rows: Seq<char>,
) -> Seq<char> {
    page::with_footer(
        header_text(f, delivered) + (if delivered is None {
            Seq::empty()
        } else {
            "\n"@ + rows
        }),
        page::footer_of(clauses_of(f, delivered)),
    )
}

impl PageRenderer for ReadView {
    open spec fn inv(&self) -> bool {
        self.skipped < usize::MAX
    }

    open spec fn page_text(&self, spans: Seq<DeliveredSpan>) -> Seq<char> {
        page_of(self.facts(), Self::delivered(spans), page::span_rows(spans))
    }

    fn render(&self, spans: &Vec<DeliveredSpan>) -> (out: String) {
        let mut content = "file=".to_owned();
        content.append(outside::json_quoted(self.relative.as_str()).as_str());
        content.append(" revision=");
        content.append(self.revision.as_str());
        content.append(" line_ending=");
        content.append(self.ending.as_str());
        let ghost identity = identity_text(self.relative@, self.revision@, self.ending);
        assert(content@ == identity);
        let mut clauses: Vec<String> = Vec::new();
        let ghost delivered = Self::delivered(spans@);
        if spans.len() > 0 {
            let first: usize = spans[0].line;
            let last: usize = spans[spans.len() - 1].line;
            if self.ending == LineEnding::Mixed {
                let before: usize = if first > 0 {
                    first - 1
                } else {
                    0
                };
                content.append(" eol_tokens(C=CRLF,L=LF,N=none)=");
                content.append(mixed_eol_tokens(self.text.as_str(), before, last).as_str());
            }
            let ghost tokens = if self.ending == LineEnding::Mixed {
                eol_label() + eol_window(
                    eol_map(self.text@),
                    before_line(first as nat),
                    last as int,
                )
            } else {
                Seq::empty()
            };
            assert(content@ =~= identity + tokens);
            content.append(" lines=");
            text::push_dec(&mut content, first as u64);
            content.append("-");
            text::push_dec(&mut content, last as u64);
            content.append("/");
            text::push_dec(&mut content, self.line_count as u64);
            assert(content@ =~= header_text(self.facts(), delivered));
            content.append("\n");
            content.append(page::render_numbered_spans(spans).as_str());
            assert(content@ =~= header_text(self.facts(), delivered) + ("\n"@ + page::span_rows(spans@)));
        } else {
            if self.line_count == 0 {
                content.append(" lines=0-0/0");
            }
            assert(content@ =~= header_text(self.facts(), delivered) + Seq::<char>::empty());
        }
        if let Some(stop) = self.stopped_at {
            if self.oversized {
                let mut c = "line ".to_owned();
                text::push_dec(&mut c, stop as u64);
                c.append(" exceeds the page budget and is not shown");
                clauses.push(c);
                assert(text::views(clauses@) =~= seq![oversized_clause(stop as nat)]);
            } else if spans.len() > 0 {
                let mut c = "requested lines ".to_owned();
                text::push_dec(&mut c, (self.skipped + 1) as u64);
                c.append("-");
                text::push_dec(&mut c, self.window_end as u64);
                c.append("; showing lines ");
                text::push_dec(&mut c, spans[0].line as u64);
                c.append("-");
                text::push_dec(&mut c, spans[spans.len() - 1].line as u64);
                c.append(" at the page budget");
                clauses.push(c);
                assert(text::views(clauses@) =~= seq![
                    showing_clause(
                        (self.skipped + 1) as nat,
                        self.window_end as nat,
                        spans@[0].line as nat,
                        spans@.last().line as nat,
                    ),
                ]);
            }
        }
        let ghost cut = text::views(clauses@);
        if let Some((next, end)) = self.continuation {
            let mut c = "continue with fs.read path=".to_owned();
            c.append(self.relative.as_str());
            c.append(" start_line=");
            text::push_dec(&mut c, next as u64);
            c.append(" end_line=");
            text::push_dec(&mut c, end as u64);
            proof {
                text::lemma_views_push(clauses@, c);
            }
            clauses.push(c);
        }
        assert(text::views(clauses@) =~= clauses_of(self.facts(), delivered));
        let footer = page::coverage_footer(&clauses);
        page::with_coverage_footer(content, footer)
    }
}

// ---------------------------------------------------------------------
// Capturing a page
// ---------------------------------------------------------------------

/// The smaller of two numbers.
pub open spec fn least(a: int, b: int) -> int {
    if a <= b {
        a
    } else {
        b
    }
}

/// The larger of two numbers.
pub open spec fn greatest(a: int, b: int) -> int {
    if a <= b {
        b
    } else {
        a
    }
}

/// The longest header a page of the window can have.
pub open spec fn header_reserve(
    identity: nat,
    mixed: bool,
    skipped: nat,
    end: nat,
    total: nat,
) -> nat {
    let window_end = least(end as int, total as int) as nat;
    identity + (if mixed {
        eol_label().len() + (end - skipped) as nat
    } else {
        0
    }) + " lines="@.len() + text::dec(skipped + 1).len() + 1 + text::dec(window_end).len() + 1
        + text::dec(total).len()
}

/// Every clause a page of the window might need.
pub open spec fn longest_clauses(
    relative: Seq<char>,
    skipped: nat,
    end: nat,
    total: nat,
) -> Seq<Seq<char>> {
    let window_end = least(end as int, total as int) as nat;
    seq![
        showing_clause(skipped + 1, window_end, skipped + 1, window_end),
        oversized_clause(total),
        continue_clause(relative, window_end, greatest(end as int, total as int) as nat),
    ]
}

/// The longest footer a page of the window can have, its line break
/// included.
pub open spec fn footer_reserve(relative: Seq<char>, skipped: nat, end: nat, total: nat) -> nat {
    page::footer_of(longest_clauses(relative, skipped, end, total))->0.len() + 1
}

/// What is left for the lines of a page.
pub open spec fn content_budget(
    text: Seq<char>,
    relative: Seq<char>,
    skipped: nat,
    end: nat,
) -> nat {
    let total = text::lines(text).len();
    let ending = matching::line_ending(text);
    let identity = identity_text(relative, patch::revision_of(text), ending).len();
    let reserve = header_reserve(identity, ending == LineEnding::Mixed, skipped, end, total)
        + footer_reserve(relative, skipped, end, total);
    if reserve >= FINAL_BODY_CHARS {
        0
    } else {
        (FINAL_BODY_CHARS - reserve) as nat
    }
}

/// What one line costs on a page: its number, itself and a line break.
pub open spec fn line_cost(lines: Seq<Seq<char>>, i: int) -> nat {
    page::prefix_chars((i + 1) as nat) + 1 + lines[i].len()
}

/// Where capture stops when `used` characters are spent before line `i`: at
/// the first line that does not fit, or at `to`.
pub open spec fn capture_end(lines: Seq<Seq<char>>, i: int, to: int, budget: nat, used: nat) -> int
    decreases to - i,
{
    if i >= to || used + line_cost(lines, i) > budget {
        i
    } else {
        capture_end(lines, i + 1, to, budget, used + line_cost(lines, i))
    }
}

/// The rows of lines `from..to`.
pub open spec fn rows_of(lines: Seq<Seq<char>>, from: int, to: int) -> Seq<char> {
    text::join(
        Seq::new(
            (if from < to {
                to - from
            } else {
                0
            }) as nat,
            |k: int| echo::aligned((from + k + 1) as nat) + " | "@ + lines[from + k],
        ),
        "\n"@,
    )
}

/// The lines `from..to` of a page, as spans.
pub open spec fn spans_are(
    spans: Seq<DeliveredSpan>,
    lines: Seq<Seq<char>>,
    from: int,
    to: int,
) -> bool {
    &&& spans.len() == to - from
    &&& forall|k: int|
        0 <= k < spans.len() ==> {
            &&& (#[trigger] spans[k]).line == from + k + 1
            &&& spans[k].text@ == lines[from + k]
            &&& spans[k].shown_to == text::byte_len(lines[from + k])
            &&& spans[k].complete
        }
}

/// A captured page, by numbers: lines `skipped..stop` are delivered.
pub ghost struct Capture {
    pub total: int,
    pub window_end: int,
    pub stop: int,
    pub stopped: bool,
    pub oversized: bool,
}

/// What a call on a text delivers.
pub open spec fn capture(text: Seq<char>, relative: Seq<char>, start_line: nat, end_line: nat) -> Capture {
    let lines = text::lines(text);
    let skipped = (start_line - 1) as nat;
    let budget = content_budget(text, relative, skipped, end_line);
    let total = lines.len() as int;
    let window_end = least(end_line as int, total);
    let stop = capture_end(lines, skipped as int, window_end, budget, 0);
    Capture {
        total,
        window_end,
        stop,
        stopped: stop < window_end,
        oversized: stop < window_end && line_cost(lines, stop) > budget,
    }
}

/// The line the next page starts at: the first that was not delivered, or
/// the one behind it where it is declared too long for the page.
pub open spec fn next_line(c: Capture, skipped: int) -> Option<int> {
    let next = if c.stopped {
        if c.oversized {
            Some(c.stop + 2)
        } else {
            Some(c.stop + 1)
        }
    } else if c.stop > skipped {
        Some(c.stop + 1)
    } else {
        None
    };
    match next {
        Some(n) => if n <= c.total {
            Some(n)
        } else {
            None
        },
        None => None,
    }
}

/// The last line of the next page: the rest of the window first, then pages
/// of their own size.
pub open spec fn next_end(c: Capture, end_line: int, next: int) -> int {
    if next <= c.window_end {
        end_line
    } else {
        least(next + FS_READ_PAGE_LINES - 1, c.total)
    }
}

proof fn lemma_capture_end(lines: Seq<Seq<char>>, i: int, to: int, budget: nat, used: nat)
    requires
        0 <= i,
    ensures
        i <= capture_end(lines, i, to, budget, used),
        capture_end(lines, i, to, budget, used) <= greatest(i, to),
        i < to && capture_end(lines, i, to, budget, used) == i ==> used + line_cost(lines, i)
            > budget,
    decreases to - i,
{
    if !(i >= to || used + line_cost(lines, i) > budget) {
        lemma_capture_end(lines, i + 1, to, budget, used + line_cost(lines, i));
    }
}

/// What lines `from..to` cost together.
pub open spec fn cost(lines: Seq<Seq<char>>, from: int, to: int) -> nat
    decreases to - from,
{
    if to <= from {
        0
    } else {
        cost(lines, from, to - 1) + line_cost(lines, to - 1)
    }
}

proof fn lemma_capture_cost(lines: Seq<Seq<char>>, from: int, i: int, to: int, budget: nat)
    requires
        0 <= from <= i,
        cost(lines, from, i) <= budget,
    ensures
        cost(lines, from, capture_end(lines, i, to, budget, cost(lines, from, i))) <= budget,
    decreases to - i,
{
    let used = cost(lines, from, i);
    if !(i >= to || used + line_cost(lines, i) > budget) {
        assert(cost(lines, from, i + 1) == used + line_cost(lines, i));
        lemma_capture_cost(lines, from, i + 1, to, budget);
    }
}

proof fn lemma_rows_cost(lines: Seq<Seq<char>>, from: int, to: int)
    requires
        0 <= from < to,
    ensures
        rows_of(lines, from, to).len() + 1 == cost(lines, from, to),
    decreases to - from,
{
    reveal_strlit(" | ");
    reveal_strlit("\n");
    let rows = Seq::new(
        (to - from) as nat,
        |k: int| echo::aligned((from + k + 1) as nat) + " | "@ + lines[from + k],
    );
    assert(rows[to - from - 1].len() == page::prefix_chars(to as nat) + lines[to - 1].len());
    if to == from + 1 {
        assert(cost(lines, from, from) == 0);
    } else {
        lemma_rows_cost(lines, from, to - 1);
        assert(rows.drop_last() =~= Seq::new(
            (to - 1 - from) as nat,
            |k: int| echo::aligned((from + k + 1) as nat) + " | "@ + lines[from + k],
        ));
    }
}

proof fn lemma_span_rows(spans: Seq<DeliveredSpan>, lines: Seq<Seq<char>>, from: int, to: int)
    requires
        from <= to,
        spans_are(spans, lines, from, to),
    ensures
        page::span_rows(spans) == rows_of(lines, from, to),
{
    assert(Seq::new(spans.len(), |i: int| page::span_row(spans[i])) =~= Seq::new(
        (to - from) as nat,
        |k: int| echo::aligned((from + k + 1) as nat) + " | "@ + lines[from + k],
    ));
}

/// The facts of a call on a text.
pub open spec fn facts_of(
    text: Seq<char>,
    relative: Seq<char>,
    start_line: nat,
    end_line: nat,
) -> ReadFacts {
    let c = capture(text, relative, start_line, end_line);
    ReadFacts {
        text,
        relative,
        revision: patch::revision_of(text),
        ending: matching::line_ending(text),
        total: c.total as nat,
        skipped: (start_line - 1) as nat,
        window_end: c.window_end as nat,
        stopped_at: if c.stopped {
            Some((c.stop + 1) as nat)
        } else {
            None
        },
        oversized: c.oversized,
        continuation: match next_line(c, start_line - 1) {
            Some(n) => Some((n as nat, next_end(c, end_line as int, n) as nat)),
            None => None,
        },
    }
}

/// The lines a call delivers, first and last.
pub open spec fn delivered_lines(
    text: Seq<char>,
    relative: Seq<char>,
    start_line: nat,
    end_line: nat,
) -> Option<(nat, nat)> {
    let c = capture(text, relative, start_line, end_line);
    if c.stop >= start_line {
        Some((start_line, c.stop as nat))
    } else {
        None
    }
}

/// The finished page of a call.
pub open spec fn body_of(
    text: Seq<char>,
    relative: Seq<char>,
    start_line: nat,
    end_line: nat,
) -> Seq<char> {
    page_of(
        facts_of(text, relative, start_line, end_line),
        delivered_lines(text, relative, start_line, end_line),
        rows_of(
            text::lines(text),
            start_line - 1,
            capture(text, relative, start_line, end_line).stop,
        ),
    )
}

/// The reservations cover the finished page: a page that delivers anything
/// never overruns the budget.
pub proof fn law_a_page_fits_the_budget(
    text: Seq<char>,
    relative: Seq<char>,
    start_line: nat,
    end_line: nat,
)
    requires
        1 <= start_line <= end_line,
        text::lines(text).len() <= u64::MAX,
        delivered_lines(text, relative, start_line, end_line) is Some,
    ensures
        body_of(text, relative, start_line, end_line).len() <= FINAL_BODY_CHARS,
{
    let c = capture(text, relative, start_line, end_line);
    let f = facts_of(text, relative, start_line, end_line);
    let lines = text::lines(text);
    let s = (start_line - 1) as nat;
    let budget = content_budget(text, relative, s, end_line);
    lemma_capture_end(lines, s as int, c.window_end, budget, 0);
    assert(cost(lines, s as int, s as int) == 0);
    lemma_capture_cost(lines, s as int, s as int, c.window_end, budget);
    lemma_rows_cost(lines, s as int, c.stop);
    assert(cost(lines, s as int, c.stop) <= budget);
    let first = start_line;
    let last = c.stop as nat;
    let total = c.total as nat;
    page::lemma_dec_len_monotone(last, c.window_end as nat);
    reveal_strlit("-");
    reveal_strlit("/");
    reveal_strlit("\n");
    assert(eol_window(eol_map(text), s as int, last as int).len() <= end_line - s);
    let identity = identity_text(relative, patch::revision_of(text), f.ending).len();
    assert(header_text(f, Some((first, last))).len() <= header_reserve(
        identity,
        f.ending == LineEnding::Mixed,
        s,
        end_line,
        total,
    ));
    lemma_footer_fits(f, s, end_line, c, first, last);
}

proof fn lemma_join_lens(clauses: Seq<Seq<char>>)
    ensures
        clauses.len() == 1 ==> text::join(clauses, "; "@).len() == clauses[0].len(),
        clauses.len() == 2 ==> text::join(clauses, "; "@).len() == clauses[0].len() + 2
            + clauses[1].len(),
        clauses.len() == 3 ==> text::join(clauses, "; "@).len() == clauses[0].len() + 2
            + clauses[1].len() + 2 + clauses[2].len(),
{
    reveal_strlit("; ");
    reveal_with_fuel(text::join, 4);
}

proof fn lemma_footer_fits(
    f: ReadFacts,
    s: nat,
    end_line: nat,
    c: Capture,
    first: nat,
    last: nat,
)
    requires
        f.skipped == s,
        f.window_end == c.window_end,
        f.total == c.total,
        f.total <= u64::MAX,
        f.oversized == c.oversized,
        c.window_end == least(end_line as int, c.total),
        s <= c.stop <= c.window_end,
        c.stopped == (c.stop < c.window_end),
        c.oversized ==> c.stopped,
        first == s + 1,
        last == c.stop,
        first <= last,
        f.stopped_at == if c.stopped {
            Some((c.stop + 1) as nat)
        } else {
            None
        },
        f.continuation == match next_line(c, s as int) {
            Some(n) => Some((n as nat, next_end(c, end_line as int, n) as nat)),
            None => None,
        },
    ensures
        match page::footer_of(clauses_of(f, Some((first, last)))) {
            Some(t) => t.len() + 1 <= footer_reserve(f.relative, s, end_line, f.total),
            None => true,
        },
{
    let total = c.total as nat;
    let all = longest_clauses(f.relative, s, end_line, total);
    let clauses = clauses_of(f, Some((first, last)));
    lemma_join_lens(all);
    lemma_join_lens(clauses);
    reveal_strlit("[coverage] ");
    reveal_strlit("requested lines ");
    reveal_strlit("-");
    reveal_strlit("; showing lines ");
    reveal_strlit(" at the page budget");
    page::lemma_dec_len_monotone(last, c.window_end as nat);
    page::lemma_dec_digits(total);
    if let Some((n, e)) = f.continuation {
        page::lemma_dec_len_monotone(n, total);
        page::lemma_dec_len_monotone(e, greatest(end_line as int, total as int) as nat);
        if n <= c.window_end {
            page::lemma_dec_len_monotone(n, c.window_end as nat);
        }
    }
    if let Some(stop) = f.stopped_at {
        page::lemma_dec_len_monotone(stop, total);
    }
}

// ---------------------------------------------------------------------
// The call
// ---------------------------------------------------------------------

/// One page of a file and what it proves the reader has seen.
#[derive(Debug)]
pub struct ReadPage {
    pub body: String,
    pub summary: String,
    pub line_count: usize,
    pub bytes: usize,
    pub line_ending: LineEnding,
    pub revision: String,
    /// The first delivered line.
    pub start_line: Option<usize>,
    /// The last delivered line.
    pub end_line: Option<usize>,
    /// Whether the page delivers the whole file.
    pub covers_file: bool,
    pub has_more: bool,
    pub next_start_line: Option<usize>,
}

/// A page of a call: the captured lines under their true numbers, with the
/// claims and the continuation read off them.
pub open spec fn page_is(
    p: ReadPage,
    text: Seq<char>,
    relative: Seq<char>,
    start_line: nat,
    end_line: nat,
) -> bool {
    let c = capture(text, relative, start_line, end_line);
    let s = start_line - 1;
    let some = c.stop > s;
    &&& p.body@ == body_of(text, relative, start_line, end_line)
    &&& p.summary@ == "read lines "@ + text::dec(
        (if some {
            start_line as int
        } else {
            least(s, c.total) + 1
        }) as nat,
    ) + "-"@ + text::dec(
        (if some {
            c.stop
        } else {
            c.window_end
        }) as nat,
    ) + " of "@ + relative
    &&& p.line_count == c.total
    &&& p.bytes == text::byte_len(text)
    &&& p.line_ending == matching::line_ending(text)
    &&& p.revision@ == patch::revision_of(text)
    &&& p.start_line == if some {
        Some(start_line as usize)
    } else {
        None
    }
    &&& p.end_line == if some {
        Some(c.stop as usize)
    } else {
        None
    }
    &&& p.covers_file == (c.total == 0 || (some && start_line == 1 && c.stop == c.total))
    &&& p.has_more == (c.stopped || (some && c.stop < c.total))
    &&& p.next_start_line == match next_line(c, s) {
        Some(n) => Some(n as usize),
        None => None,
    }
}

/// The page's budget, computed from the same texts the page is made of.
fn budget_of(
    relative: &str,
    revision: &str,
    ending: LineEnding,
    skipped: usize,
    end_line: usize,
    total: usize,
) -> (r: usize)
    requires
        skipped < end_line,
        skipped < usize::MAX,
    ensures
        r == ({
            let identity = identity_text(relative@, revision@, ending).len();
            let reserve = header_reserve(
                identity,
                ending == LineEnding::Mixed,
                skipped as nat,
                end_line as nat,
                total as nat,
            ) + footer_reserve(relative@, skipped as nat, end_line as nat, total as nat);
            if reserve >= FINAL_BODY_CHARS {
                0int
            } else {
                FINAL_BODY_CHARS - reserve
            }
        }),
{
    let window_end: usize = if end_line <= total {
        end_line
    } else {
        total
    };
    let mut identity = "file=".to_owned();
    identity.append(outside::json_quoted(relative).as_str());
    identity.append(" revision=");
    identity.append(revision);
    identity.append(" line_ending=");
    identity.append(ending.as_str());
    let mut reserve: usize = text::chars_of(identity.as_str()).len();
    if ending == LineEnding::Mixed {
        reserve = reserve.saturating_add(
            text::chars_of(" eol_tokens(C=CRLF,L=LF,N=none)=").len(),
        );
        reserve = reserve.saturating_add(end_line - skipped);
    }
    let mut numbers = " lines=".to_owned();
    text::push_dec(&mut numbers, (skipped + 1) as u64);
    numbers.append("-");
    text::push_dec(&mut numbers, window_end as u64);
    numbers.append("/");
    text::push_dec(&mut numbers, total as u64);
    reserve = reserve.saturating_add(text::chars_of(numbers.as_str()).len());
    proof {
        reveal_strlit("-");
        reveal_strlit("/");
    }
    let mut showing = "requested lines ".to_owned();
    text::push_dec(&mut showing, (skipped + 1) as u64);
    showing.append("-");
    text::push_dec(&mut showing, window_end as u64);
    showing.append("; showing lines ");
    text::push_dec(&mut showing, (skipped + 1) as u64);
    showing.append("-");
    text::push_dec(&mut showing, window_end as u64);
    showing.append(" at the page budget");
    let mut oversized = "line ".to_owned();
    text::push_dec(&mut oversized, total as u64);
    oversized.append(" exceeds the page budget and is not shown");
    let mut next = "continue with fs.read path=".to_owned();
    next.append(relative);
    next.append(" start_line=");
    text::push_dec(&mut next, window_end as u64);
    next.append(" end_line=");
    let farthest: usize = if end_line <= total {
        total
    } else {
        end_line
    };
    text::push_dec(&mut next, farthest as u64);
    let mut clauses: Vec<String> = Vec::new();
    clauses.push(showing);
    clauses.push(oversized);
    clauses.push(next);
    assert(text::views(clauses@) =~= longest_clauses(
        relative@,
        skipped as nat,
        end_line as nat,
        total as nat,
    ));
    let footer: usize = match page::coverage_footer(&clauses) {
        Some(f) => text::chars_of(f.as_str()).len() + 1,
        None => 0,
    };
    reserve = reserve.saturating_add(footer);
    if reserve >= FINAL_BODY_CHARS {
        0
    } else {
        FINAL_BODY_CHARS - reserve
    }
}

/// Captures the lines of a window that fit the budget: the spans, where
/// capture stopped, and whether the line there is too long for the page.
fn capture_spans(
    lines: &Vec<String>,
    skipped: usize,
    window_end: usize,
    budget: usize,
) -> (r: (Vec<DeliveredSpan>, usize, bool))
    requires
        window_end <= lines@.len() < usize::MAX,
        budget <= FINAL_BODY_CHARS,
    ensures
        ({
            let all = text::views(lines@);
            let stop = capture_end(all, skipped as int, window_end as int, budget as nat, 0);
            &&& r.1 == stop
            &&& spans_are(r.0@, all, skipped as int, stop)
            &&& r.2 == (stop < window_end && line_cost(all, stop) > budget)
        }),
{
    let ghost all = text::views(lines@);
    let ghost stop = capture_end(all, skipped as int, window_end as int, budget as nat, 0);
    let mut spans: Vec<DeliveredSpan> = Vec::new();
    let mut used: usize = 0;
    let mut i: usize = skipped;
    while i < window_end
        invariant
            skipped <= i,
            window_end <= lines@.len() < usize::MAX,
            all == text::views(lines@),
            budget <= FINAL_BODY_CHARS,
            used <= budget,
            stop == capture_end(all, skipped as int, window_end as int, budget as nat, 0),
            stop == capture_end(all, i as int, window_end as int, budget as nat, used as nat),
            spans_are(spans@, all, skipped as int, i as int),
        decreases window_end - i,
    {
        assert(lines@[i as int]@ == all[i as int]);
        let width: usize = text::chars_of(lines[i].as_str()).len();
        let envelope: usize = page::rendered_prefix_chars(i + 1) + 1;
        // The first test keeps the sum in the second one small.
        if width > budget || envelope + width > budget {
            return (spans, i, true);
        }
        if used + envelope + width > budget {
            return (spans, i, false);
        }
        used = used + envelope + width;
        spans.push(
            DeliveredSpan {
                line: i + 1,
                shown_to: text::bytes_in(lines[i].as_str()),
                complete: true,
                text: lines[i].clone(),
            },
        );
        i = i + 1;
    }
    (spans, i, false)
}

/// The continuation of a page whose capture stopped at `stop`.
fn continuation_of(
    skipped: usize,
    stop: usize,
    window_end: usize,
    total: usize,
    end_line: usize,
    oversized: bool,
) -> (r: Option<(usize, usize)>)
    requires
        window_end == least(end_line as int, total as int),
        total < usize::MAX,
        skipped <= stop,
        stop <= window_end || stop == skipped,
    ensures
        ({
            let c = Capture {
                total: total as int,
                window_end: window_end as int,
                stop: stop as int,
                stopped: stop < window_end,
                oversized,
            };
            match r {
                Some((n, e)) => next_line(c, skipped as int) == Some(n as int) && e == next_end(
                    c,
                    end_line as int,
                    n as int,
                ),
                None => next_line(c, skipped as int) is None,
            }
        }),
{
    let next: usize = if stop < window_end {
        if oversized {
            stop + 2
        } else {
            stop + 1
        }
    } else if stop > skipped {
        stop + 1
    } else {
        return None;
    };
    if next > total {
        return None;
    }
    let end: usize = if next <= window_end {
        end_line
    } else if total - next >= FS_READ_PAGE_LINES - 1 {
        next + FS_READ_PAGE_LINES - 1
    } else {
        total
    };
    Some((next, end))
}

/// Renders the page a call asks for.
pub fn read_page(text: &str, relative: &str, start_line: usize, end_line: usize) -> (r: ReadPage)
    requires
        is_range(start_line, end_line),
    ensures
        page_is(r, text@, relative@, start_line as nat, end_line as nat),
        r.next_start_line matches Some(n) ==> n > start_line,
{
    let chars = text::chars_of(text);
    let ending = matching::detect_chars(&chars);
    let lines = text::lines_of(&chars);
    let total: usize = lines.len();
    let skipped: usize = start_line - 1;
    let revision = patch::content_digest(text);
    let budget: usize = budget_of(
        relative,
        revision.as_str(),
        ending,
        skipped,
        end_line,
        total,
    );
    let window_end: usize = if end_line <= total {
        end_line
    } else {
        total
    };
    let ghost all = text::views(lines@);
    let ghost c = capture(text@, relative@, start_line as nat, end_line as nat);
    assert(all == text::lines(text@));
    assert(budget == content_budget(text@, relative@, skipped as nat, end_line as nat));
    proof {
        text::lemma_lines_from_bound(text@, 0);
        lemma_capture_end(all, skipped as int, window_end as int, budget as nat, 0);
    }
    let (spans, stop, oversized) = capture_spans(&lines, skipped, window_end, budget);
    let stopped = stop < window_end;
    let continuation = continuation_of(skipped, stop, window_end, total, end_line, oversized);
    let view = ReadView {
        text: text.to_owned(),
        relative: relative.to_owned(),
        revision,
        ending,
        line_count: total,
        skipped,
        window_end,
        stopped_at: if stopped {
            Some(stop + 1)
        } else {
            None
        },
        oversized,
        continuation,
    };
    let some = stop > skipped;
    let ghost captured = spans@;
    proof {
        assert(view.facts() == facts_of(
            text@,
            relative@,
            start_line as nat,
            end_line as nat,
        ));
        lemma_span_rows(captured, all, skipped as int, stop as int);
        assert(captured.take(captured.len() as int) =~= captured);
        assert(ReadView::delivered(captured) == delivered_lines(
            text@,
            relative@,
            start_line as nat,
            end_line as nat,
        ));
        assert(view.page_text(captured) == body_of(
            text@,
            relative@,
            start_line as nat,
            end_line as nat,
        ));
        if captured.len() > 0 {
            law_a_page_fits_the_budget(text@, relative@, start_line as nat, end_line as nat);
        }
    }
    let finished = page::finalize_within_budget(spans, &view);
    assert(finished.spans@ == captured);
    proof {
        law_every_page_moves_on(text@, relative@, start_line as nat, end_line as nat);
        law_the_continuation_is_the_first_undelivered_line(
            text@,
            relative@,
            start_line as nat,
            end_line as nat,
        );
    }
    summarize(text, relative, start_line, end_line, view, finished.body, stop)
}

/// The page of a call around its finished body.
fn summarize(
    text: &str,
    relative: &str,
    start_line: usize,
    end_line: usize,
    view: ReadView,
    body: String,
    stop: usize,
) -> (r: ReadPage)
    requires
        is_range(start_line, end_line),
        text::lines(text@).len() < usize::MAX,
        view.facts() == facts_of(text@, relative@, start_line as nat, end_line as nat),
        stop == capture(text@, relative@, start_line as nat, end_line as nat).stop,
        body@ == body_of(text@, relative@, start_line as nat, end_line as nat),
    ensures
        page_is(r, text@, relative@, start_line as nat, end_line as nat),
{
    let total: usize = view.line_count;
    let window_end: usize = view.window_end;
    let skipped: usize = start_line - 1;
    let stopped = stop < window_end;
    let some = stop > skipped;
    let first_shown: usize = if some {
        start_line
    } else if skipped <= total {
        skipped + 1
    } else {
        total + 1
    };
    let last_shown: usize = if some {
        stop
    } else {
        window_end
    };
    let mut summary = "read lines ".to_owned();
    text::push_dec(&mut summary, first_shown as u64);
    summary.append("-");
    text::push_dec(&mut summary, last_shown as u64);
    summary.append(" of ");
    summary.append(relative);
    let next_start_line: Option<usize> = match view.continuation {
        Some((n, _)) => Some(n),
        None => None,
    };
    ReadPage {
        body,
        summary,
        line_count: total,
        bytes: text::bytes_in(text),
        line_ending: view.ending,
        revision: view.revision,
        start_line: if some {
            Some(start_line)
        } else {
            None
        },
        end_line: if some {
            Some(stop)
        } else {
            None
        },
        covers_file: total == 0 || (some && start_line == 1 && stop == total),
        has_more: stopped || (some && stop < total),
        next_start_line,
    }
}

// ---------------------------------------------------------------------
// Laws
// ---------------------------------------------------------------------

/// The continuation never passes over a line: the next page starts at the
/// first line that was not delivered, or right behind it where the page
/// declared that line too long to be shown.
pub proof fn law_the_continuation_is_the_first_undelivered_line(
    text: Seq<char>,
    relative: Seq<char>,
    start_line: nat,
    end_line: nat,
)
    requires
        1 <= start_line <= end_line,
    ensures
        ({
            let c = capture(text, relative, start_line, end_line);
            match next_line(c, start_line - 1) {
                Some(next) => {
                    &&& start_line < next <= c.total
                    &&& !c.oversized ==> next == c.stop + 1
                    &&& c.oversized ==> next == c.stop + 2 && line_cost(text::lines(text), c.stop)
                        > content_budget(text, relative, (start_line - 1) as nat, end_line)
                    &&& next_end(c, end_line as int, next) >= next
                },
                // Nothing is left: the file ends at the delivered lines, at
                // the one line that is declared, or before the window.
                None => c.stop == c.total || (c.oversized && c.stop + 1 == c.total) || start_line
                    > c.total,
            }
        }),
{
    let lines = text::lines(text);
    let s = (start_line - 1) as nat;
    let c = capture(text, relative, start_line, end_line);
    let budget = content_budget(text, relative, s, end_line);
    lemma_capture_end(lines, s as int, c.window_end, budget, 0);
}

/// A page that names a next page has moved on: the next one starts behind
/// the first line of this one and behind every delivered line. A page stands
/// still nowhere, because a line that its budget cannot hold is declared and
/// stepped over.
pub proof fn law_every_page_moves_on(
    text: Seq<char>,
    relative: Seq<char>,
    start_line: nat,
    end_line: nat,
)
    requires
        1 <= start_line <= end_line,
    ensures
        ({
            let c = capture(text, relative, start_line, end_line);
            next_line(c, start_line - 1) matches Some(next) ==> next > start_line && next > c.stop
        }),
{
    law_the_continuation_is_the_first_undelivered_line(text, relative, start_line, end_line);
}

/// What a reader gets of one line, which counts from zero.
pub ghost struct Reading {
    pub line: int,
    /// Whether the line is shown, or declared too long to be.
    pub shown: bool,
}

/// What one page says of the lines it passes.
pub open spec fn page_readings(c: Capture, skipped: int) -> Seq<Reading> {
    let shown = Seq::new(
        (c.stop - skipped) as nat,
        |k: int| Reading { line: skipped + k, shown: true },
    );
    if c.oversized {
        shown.push(Reading { line: c.stop, shown: false })
    } else {
        shown
    }
}

/// What a reader gets who asks for a window and then follows nothing but the
/// continuation of each page, for so many pages at most.
pub open spec fn walk(
    text: Seq<char>,
    relative: Seq<char>,
    start_line: nat,
    end_line: nat,
    pages: nat,
) -> Seq<Reading>
    decreases pages,
{
    if pages == 0 {
        Seq::empty()
    } else {
        let c = capture(text, relative, start_line, end_line);
        page_readings(c, start_line - 1) + match next_line(c, start_line - 1) {
            Some(next) => walk(
                text,
                relative,
                next as nat,
                next_end(c, end_line as int, next) as nat,
                (pages - 1) as nat,
            ),
            None => Seq::empty(),
        }
    }
}

/// Whether such a reader meets a page without a continuation.
pub open spec fn walk_ends(
    text: Seq<char>,
    relative: Seq<char>,
    start_line: nat,
    end_line: nat,
    pages: nat,
) -> bool
    decreases pages,
{
    pages > 0 && {
        let c = capture(text, relative, start_line, end_line);
        match next_line(c, start_line - 1) {
            Some(next) => walk_ends(
                text,
                relative,
                next as nat,
                next_end(c, end_line as int, next) as nat,
                (pages - 1) as nat,
            ),
            None => true,
        }
    }
}

/// Following the continuations passes every line exactly once and in order:
/// each is shown whole or declared too long to be shown. Where no further
/// continuation is offered, nothing is left of the file.
pub proof fn law_a_walk_passes_every_line_exactly_once(
    text: Seq<char>,
    relative: Seq<char>,
    start_line: nat,
    end_line: nat,
    pages: nat,
)
    requires
        1 <= start_line <= end_line,
        start_line <= text::lines(text).len(),
    ensures
        ({
            let readings = walk(text, relative, start_line, end_line, pages);
            &&& forall|k: int|
                0 <= k < readings.len() ==> (#[trigger] readings[k]).line == start_line - 1 + k
            &&& walk_ends(text, relative, start_line, end_line, pages) ==> start_line - 1
                + readings.len() == text::lines(text).len()
        }),
    decreases pages,
{
    if pages > 0 {
        let c = capture(text, relative, start_line, end_line);
        let s = (start_line - 1) as nat;
        lemma_capture_end(
            text::lines(text),
            s as int,
            c.window_end,
            content_budget(text, relative, s, end_line),
            0,
        );
        law_the_continuation_is_the_first_undelivered_line(text, relative, start_line, end_line);
        let here = page_readings(c, s as int);
        assert(forall|k: int| 0 <= k < here.len() ==> (#[trigger] here[k]).line == s + k);
        let readings = walk(text, relative, start_line, end_line, pages);
        match next_line(c, start_line - 1) {
            Some(next) => {
                let end = next_end(c, end_line as int, next) as nat;
                law_a_walk_passes_every_line_exactly_once(
                    text,
                    relative,
                    next as nat,
                    end,
                    (pages - 1) as nat,
                );
                let later = walk(text, relative, next as nat, end, (pages - 1) as nat);
                assert(readings == here + later);
                assert(s + here.len() == next - 1);
                assert forall|k: int| 0 <= k < readings.len() implies (#[trigger] readings[k]).line
                    == s + k by {
                    if k >= here.len() {
                        assert(readings[k] == later[k - here.len()]);
                    }
                }
            },
            None => {
                assert(readings =~= here);
            },
        }
    }
}

/// Following the continuations comes to an end: it takes at most one page
/// for each line that is left.
pub proof fn law_a_walk_comes_to_an_end(
    text: Seq<char>,
    relative: Seq<char>,
    start_line: nat,
    end_line: nat,
    pages: nat,
)
    requires
        1 <= start_line <= end_line,
        start_line <= text::lines(text).len(),
        text::lines(text).len() < start_line + pages,
    ensures
        walk_ends(text, relative, start_line, end_line, pages),
    decreases pages,
{
    let c = capture(text, relative, start_line, end_line);
    law_the_continuation_is_the_first_undelivered_line(text, relative, start_line, end_line);
    if let Some(next) = next_line(c, start_line - 1) {
        lemma_capture_end(
            text::lines(text),
            start_line - 1,
            c.window_end,
            content_budget(text, relative, (start_line - 1) as nat, end_line),
            0,
        );
        law_a_walk_comes_to_an_end(
            text,
            relative,
            next as nat,
            next_end(c, end_line as int, next) as nat,
            (pages - 1) as nat,
        );
    }
}

// ---------------------------------------------------------------------
// Laws over the lines
// ---------------------------------------------------------------------

/// The map says of each line how it ends: the entry of the line that ends at
/// the line feed at `at` is `C` where a carriage return stands before it and
/// `L` where none does; a last line without a line feed is `N`. There is one
/// entry for each line.
pub proof fn law_the_map_names_the_end_of_each_line(s: Seq<char>, at: int)
    requires
        0 <= at < s.len(),
    ensures
        eol_map(s).len() == text::feeds(s) + if s.last() != '\n' {
            1nat
        } else {
            0nat
        },
        text::feeds(s.take(at)) < eol_map(s).len(),
        s[at] == '\n' ==> eol_map(s)[text::feeds(s.take(at)) as int] == if at > 0 && s[at - 1]
            == '\r' {
            'C'
        } else {
            'L'
        },
        s.last() != '\n' ==> eol_map(s).last() == 'N',
{
    lemma_map_from(s, 0, at);
    assert(s.skip(0) =~= s);
    assert(s.subrange(0, at) =~= s.take(at));
}

proof fn lemma_map_from(s: Seq<char>, from: int, at: int)
    requires
        0 <= from <= at < s.len(),
        from > 0 ==> s[from - 1] == '\n',
    ensures
        eol_map_from(s, from).len() == text::feeds(s.skip(from)) + if s.last() != '\n' {
            1nat
        } else {
            0nat
        },
        text::feeds(s.subrange(from, at)) < eol_map_from(s, from).len(),
        s[at] == '\n' ==> eol_map_from(s, from)[text::feeds(s.subrange(from, at)) as int]
            == if at > 0 && s[at - 1] == '\r' {
            'C'
        } else {
            'L'
        },
        s.last() != '\n' ==> eol_map_from(s, from).last() == 'N',
    decreases s.len() - from,
{
    let end = text::line_feed_from(s, from);
    text::lemma_line_feed_from(s, from);
    let rest = eol_map_from(s, end + 1);
    let all = eol_map_from(s, from);
    if end < s.len() {
        let head = s.subrange(from, end);
        text::lemma_no_feeds(head);
        assert(s.subrange(from, end + 1) =~= head.push('\n'));
        assert(head.push('\n').drop_last() =~= head);
        assert(s.skip(from) =~= s.subrange(from, end + 1) + s.skip(end + 1));
        text::lemma_feeds_concat(s.subrange(from, end + 1), s.skip(end + 1));
        assert(all == seq![
            if end > from && s[end - 1] == '\r' {
                'C'
            } else {
                'L'
            },
        ] + rest);
        if at <= end {
            text::lemma_no_feeds(s.subrange(from, at));
            if s[at] == '\n' {
                assert(at == end);
            }
            if end + 1 < s.len() {
                lemma_map_from(s, end + 1, end + 1);
            } else {
                assert(s.skip(end + 1) =~= Seq::empty());
            }
        } else {
            lemma_map_from(s, end + 1, at);
            assert(s.subrange(from, at) =~= s.subrange(from, end + 1) + s.subrange(end + 1, at));
            text::lemma_feeds_concat(s.subrange(from, end + 1), s.subrange(end + 1, at));
        }
        if rest.len() > 0 {
            assert(all.last() == rest.last());
        }
    } else {
        text::lemma_no_feeds(s.skip(from));
        text::lemma_no_feeds(s.subrange(from, at));
    }
}

/// The map of a page names exactly the lines of the page: entry `k` is that
/// of line `start + k`, up to the end of the page or of the file.
pub proof fn law_a_window_of_the_map_names_its_lines(map: Seq<char>, start: int, end: int)
    requires
        0 <= start <= end,
    ensures
        start >= map.len() ==> eol_window(map, start, end).len() == 0,
        start < map.len() && end <= map.len() ==> eol_window(map, start, end).len() == end - start,
        start < map.len() < end ==> eol_window(map, start, end).len() == map.len() - start,
        forall|k: int|
            0 <= k < eol_window(map, start, end).len() ==> #[trigger] eol_window(map, start, end)[k]
                == map[start + k],
{
}

/// A page delivers whole lines from the first one asked for on, as many as fit
/// what is left of the page, and none behind the last one asked for: each line
/// costs its number in at least six characters, three more, itself and a line
/// break.
pub proof fn law_a_page_delivers_as_many_lines_as_fit(
    text: Seq<char>,
    relative: Seq<char>,
    start_line: nat,
    end_line: nat,
)
    requires
        1 <= start_line <= end_line,
    ensures
        ({
            let lines = text::lines(text);
            let c = capture(text, relative, start_line, end_line);
            let budget = content_budget(text, relative, (start_line - 1) as nat, end_line);
            let first = start_line - 1;
            &&& c.total == lines.len()
            &&& c.window_end == if end_line <= lines.len() {
                end_line as int
            } else {
                lines.len() as int
            }
            &&& first <= c.stop
            &&& c.stop > first ==> c.stop <= c.window_end
            &&& cost(lines, first, c.stop) <= budget
            &&& c.stop < c.window_end ==> cost(lines, first, c.stop) + line_cost(lines, c.stop)
                > budget
            &&& c.stopped <==> c.stop < c.window_end
            &&& c.oversized <==> c.stop < c.window_end && line_cost(lines, c.stop) > budget
        }),
        forall|lines: Seq<Seq<char>>, i: int|
            0 <= i < lines.len() ==> #[trigger] line_cost(lines, i) == (if text::dec(
                (i + 1) as nat,
            ).len() < 6 {
                6
            } else {
                text::dec((i + 1) as nat).len()
            }) + 4 + lines[i].len(),
{
    let lines = text::lines(text);
    let c = capture(text, relative, start_line, end_line);
    let first = start_line - 1;
    let budget = content_budget(text, relative, (start_line - 1) as nat, end_line);
    lemma_capture_end(lines, first, c.window_end, budget, 0);
    lemma_capture_cost(lines, first, first, c.window_end, budget);
    lemma_capture_is_greedy(lines, first, first, c.window_end, budget);
}

proof fn lemma_capture_is_greedy(lines: Seq<Seq<char>>, from: int, i: int, to: int, budget: nat)
    requires
        0 <= from <= i,
    ensures
        ({
            let stop = capture_end(lines, i, to, budget, cost(lines, from, i));
            stop < to ==> cost(lines, from, stop) + line_cost(lines, stop) > budget
        }),
    decreases to - i,
{
    if !(i >= to || cost(lines, from, i) + line_cost(lines, i) > budget) {
        lemma_capture_is_greedy(lines, from, i + 1, to, budget);
    }
}

/// The rows of a page are its lines, whole and in order, each under its own
/// number.
pub proof fn law_a_row_is_its_line_under_its_number(lines: Seq<Seq<char>>, from: int, to: int)
    requires
        0 <= from < to <= lines.len(),
    ensures
        from + 1 == to ==> rows_of(lines, from, to) == echo::aligned(to as nat) + " | "@
            + lines[from],
        from + 1 < to ==> rows_of(lines, from, to) == rows_of(lines, from, to - 1) + "\n"@
            + echo::aligned(to as nat) + " | "@ + lines[to - 1],
{
    let row = |k: int| echo::aligned((from + k + 1) as nat) + " | "@ + lines[from + k];
    let all = Seq::new((to - from) as nat, row);
    let fewer = Seq::new((to - 1 - from) as nat, row);
    assert(all.drop_last() =~= fewer);
    assert(all.last() == echo::aligned(to as nat) + " | "@ + lines[to - 1]);
    if from + 1 < to {
        assert(rows_of(lines, from, to) =~= rows_of(lines, from, to - 1) + "\n"@ + echo::aligned(
            to as nat,
        ) + " | "@ + lines[to - 1]);
    } else {
        text::law_joining_goes_part_by_part(all, "\n"@);
    }
}

/// The next page ends where the window does, while it starts inside it; one
/// that starts behind it is two hundred lines long, or ends with the file.
pub proof fn law_the_next_page_ends_with_the_window(c: Capture, end_line: int, next: int)
    ensures
        next <= c.window_end ==> next_end(c, end_line, next) == end_line,
        next > c.window_end && next + 199 <= c.total ==> next_end(c, end_line, next) == next + 199,
        next > c.window_end && next + 199 > c.total ==> next_end(c, end_line, next) == c.total,
{
}

/// What a page says of itself: the lines it names are those it delivers, it
/// covers the file exactly where it delivers all of its lines, and there is
/// more exactly where a line of the file stands behind the delivered ones or
/// the page was cut.
pub proof fn law_a_page_says_what_it_delivers(
    p: ReadPage,
    text: Seq<char>,
    relative: Seq<char>,
    start_line: nat,
    end_line: nat,
)
    requires
        page_is(p, text, relative, start_line, end_line),
        1 <= start_line <= end_line <= usize::MAX,
        text::lines(text).len() <= usize::MAX,
    ensures
        p.line_count == text::lines(text).len(),
        p.bytes == vstd::utf8::encode_utf8(text).len(),
        p.start_line is Some <==> p.end_line is Some,
        p.start_line matches Some(first) ==> first == start_line,
        p.end_line matches Some(last) ==> start_line <= last <= end_line && last <= p.line_count,
        p.covers_file <==> p.line_count == 0 || p.start_line == Some(1usize) && p.end_line == Some(
            p.line_count,
        ),
        p.end_line matches Some(last) ==> (p.has_more <==> last < p.line_count),
        p.end_line is None ==> (p.has_more <==> start_line <= p.line_count),
        p.next_start_line matches Some(next) ==> p.has_more && start_line < next <= p.line_count,
        p.end_line matches Some(last) ==> p.next_start_line matches Some(next) ==> next == last + 1
            || next == last + 2,
{
    law_a_page_delivers_as_many_lines_as_fit(text, relative, start_line, end_line);
    law_the_continuation_is_the_first_undelivered_line(text, relative, start_line, end_line);
    text::lemma_byte_len_is_utf8(text);
}

/// A range of lines can be asked for where it is not empty, starts at one or
/// later and holds at most four hundred lines.
pub proof fn law_a_range_is_at_most_four_hundred_lines(start_line: usize, end_line: usize)
    ensures
        is_range(start_line, end_line) <==> start_line >= 1 && end_line >= start_line && end_line
            - start_line + 1 <= 400,
        MAX_READ_LINES == 400,
        FS_READ_PAGE_LINES == 200,
{
}

/// The header of a page names the file, its revision, how its lines end and
/// the lines that are delivered of how many; the map of line ends stands in
/// it exactly where they are mixed.
pub proof fn law_a_header_names_the_delivered_lines(f: ReadFacts, first: nat, last: nat)
    requires
        1 <= first <= last,
    ensures
        ({
            let identity = "file="@ + outside::json_string(f.relative) + " revision="@ + f.revision
                + " line_ending="@ + matching::line_ending_name(f.ending);
            let lines = " lines="@ + text::dec(first) + "-"@ + text::dec(last) + "/"@ + text::dec(
                f.total,
            );
            &&& f.ending != LineEnding::Mixed ==> header_text(f, Some((first, last))) == identity
                + lines
            &&& f.ending == LineEnding::Mixed ==> header_text(f, Some((first, last))) == identity
                + " eol_tokens(C=CRLF,L=LF,N=none)="@ + eol_window(
                eol_map(f.text),
                first - 1,
                last as int,
            ) + lines
            &&& header_text(f, None) == if f.total == 0 {
                identity + " lines=0-0/0"@
            } else {
                identity
            }
        }),
{
    let identity = "file="@ + outside::json_string(f.relative) + " revision="@ + f.revision
        + " line_ending="@ + matching::line_ending_name(f.ending);
    let lines = " lines="@ + text::dec(first) + "-"@ + text::dec(last) + "/"@ + text::dec(f.total);
    if f.ending == LineEnding::Mixed {
        assert(header_text(f, Some((first, last))) =~= identity
            + " eol_tokens(C=CRLF,L=LF,N=none)="@ + eol_window(
            eol_map(f.text),
            first - 1,
            last as int,
        ) + lines);
    } else {
        assert(header_text(f, Some((first, last))) =~= identity + lines);
    }
}

/// The footer of a page names the continuation exactly where there is one,
/// and says why the page was cut exactly where it was.
pub proof fn law_a_footer_says_what_is_missing(f: ReadFacts, delivered: Option<(nat, nat)>)
    ensures
        f.stopped_at is None && f.continuation is None ==> clauses_of(f, delivered).len() == 0,
        f.continuation matches Some((next, end)) ==> clauses_of(f, delivered).len() > 0
            && clauses_of(f, delivered).last() == "continue with fs.read path="@ + f.relative
            + " start_line="@ + text::dec(next) + " end_line="@ + text::dec(end),
        f.stopped_at is Some && f.oversized ==> clauses_of(f, delivered).len() > 0 && clauses_of(
            f,
            delivered,
        )[0] == "line "@ + text::dec(f.stopped_at->0)
            + " exceeds the page budget and is not shown"@,
        f.stopped_at is Some && !f.oversized && delivered is Some ==> clauses_of(f, delivered).len()
            > 0 && clauses_of(f, delivered)[0] == "requested lines "@ + text::dec(f.skipped + 1)
            + "-"@ + text::dec(f.window_end) + "; showing lines "@ + text::dec((delivered->0).0)
            + "-"@ + text::dec((delivered->0).1) + " at the page budget"@,
{
}

/// What a page is made from: the file as it is, and where its lines stop and
/// go on.
pub proof fn law_a_page_is_made_from_its_file(
    text: Seq<char>,
    relative: Seq<char>,
    start_line: nat,
    end_line: nat,
)
    requires
        1 <= start_line <= end_line,
    ensures
        ({
            let f = facts_of(text, relative, start_line, end_line);
            let c = capture(text, relative, start_line, end_line);
            &&& f.text == text && f.relative == relative
            &&& f.revision == patch::revision_of(text)
            &&& f.ending == matching::line_ending(text)
            &&& f.total == text::lines(text).len()
            &&& f.skipped + 1 == start_line
            &&& f.window_end == c.window_end
            &&& f.stopped_at is Some <==> c.stop < c.window_end
            &&& f.stopped_at matches Some(line) ==> line == c.stop + 1
            &&& f.oversized == c.oversized
            &&& f.continuation matches Some((next, end)) ==> next_line(c, start_line - 1) == Some(
                next as int,
            )
            &&& f.continuation is Some <==> next_line(c, start_line - 1) is Some
        }),
{
    law_a_page_delivers_as_many_lines_as_fit(text, relative, start_line, end_line);
    law_the_continuation_is_the_first_undelivered_line(text, relative, start_line, end_line);
}

/// The lines that some spans deliver are those of the first and the last.
pub proof fn law_spans_deliver_from_the_first_to_the_last(spans: Seq<DeliveredSpan>)
    ensures
        spans.len() == 0 ==> ReadView::delivered(spans) is None,
        spans.len() > 0 ==> ReadView::delivered(spans) == Some(
            (spans[0].line as nat, spans.last().line as nat),
        ),
{
}

/// The whole of a page is used: what the longest header and the longest footer
/// leave of sixteen thousand characters is left for lines.
pub proof fn law_what_is_left_of_a_page_is_for_lines(
    text: Seq<char>,
    relative: Seq<char>,
    skipped: nat,
    end: nat,
)
    requires
        content_budget(text, relative, skipped, end) > 0,
        skipped < end,
    ensures
        ({
            let total = text::lines(text).len();
            let last = if end <= total {
                end
            } else {
                total
            };
            let furthest = if end <= total {
                total
            } else {
                end
            };
            let ending = matching::line_ending(text);
            let header = ("file="@ + outside::json_string(relative) + " revision="@
                + patch::revision_of(text) + " line_ending="@ + matching::line_ending_name(
                ending,
            )).len() + (if ending == LineEnding::Mixed {
                " eol_tokens(C=CRLF,L=LF,N=none)="@.len() + end - skipped
            } else {
                0
            }) + " lines="@.len() + text::dec(skipped + 1).len() + 1 + text::dec(last).len() + 1
                + text::dec(total).len();
            let footer = "[coverage] "@ + text::join(
                seq![
                    showing_clause(skipped + 1, last, skipped + 1, last),
                    oversized_clause(total),
                    continue_clause(relative, last, furthest),
                ],
                "; "@,
            );
            content_budget(text, relative, skipped, end) + header + footer.len() + 1 == 16_000
        }),
{
}

/// The summary of a page names the lines that it delivers.
pub proof fn law_a_summary_names_the_delivered_lines(
    p: ReadPage,
    text: Seq<char>,
    relative: Seq<char>,
    start_line: nat,
    end_line: nat,
)
    requires
        page_is(p, text, relative, start_line, end_line),
        1 <= start_line <= end_line <= usize::MAX,
        text::lines(text).len() <= usize::MAX,
    ensures
        p.start_line is Some && p.end_line is Some ==> p.summary@ == "read lines "@ + text::dec(
            p.start_line->0 as nat,
        ) + "-"@ + text::dec(p.end_line->0 as nat) + " of "@ + relative,
        p.line_ending == matching::line_ending(text),
        p.revision@ == outside::sha256_hex(vstd::utf8::encode_utf8(text)),
{
    law_a_page_delivers_as_many_lines_as_fit(text, relative, start_line, end_line);
}

/// A call delivers from the line it asks for up to where its page stops, and
/// nothing where the page stops before that line.
pub proof fn law_a_call_delivers_up_to_where_it_stops(
    text: Seq<char>,
    relative: Seq<char>,
    start_line: nat,
    end_line: nat,
)
    requires
        1 <= start_line <= end_line,
    ensures
        ({
            let stop = capture(text, relative, start_line, end_line).stop;
            &&& stop == start_line - 1 ==> delivered_lines(text, relative, start_line, end_line)
                is None
            &&& stop > start_line - 1 ==> delivered_lines(text, relative, start_line, end_line)
                == Some((start_line, stop as nat))
        }),
{
}

} // verus!
