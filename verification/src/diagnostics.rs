//! `code.diagnostics`: from the positions in a compiler's or linter's output
//! to the source lines around them.
use crate::echo;
use crate::outside;
use crate::patch;
use crate::text;
use vstd::prelude::*;

verus! {

/// How much of the source is shown, in characters.
pub const MAX_DIAG_MODEL_CHARS: usize = 12_000;

/// How much of one source line is shown, in characters.
pub const MAX_DIAG_LINE_CHARS: usize = 200;

/// How much of the input is read, in characters.
pub const MAX_DIAG_INPUT_CHARS: usize = 100_000;

/// The largest file that is shown, in bytes.
pub const MAX_DIAG_FILE_BYTES: u64 = 2_097_152;

/// How many positions are shown.
pub const MAX_DIAG_POSITIONS: usize = 50;

/// How many lines of context are shown around a position.
pub const MAX_DIAG_CONTEXT: usize = 10;

/// The lines of context of a call that does not say.
pub fn default_context() -> (r: usize)
    ensures
        r == 3,
{
    3
}

/// The number of positions of a call that does not say.
pub fn default_diag_limit() -> (r: usize)
    ensures
        r == 20,
{
    20
}

/// A position: `<file>:<line>`, perhaps with `:<column>`. The file must have
/// a known extension, so that an address or a time is not taken for one.
pub open spec fn position_pattern() -> Seq<char> {
    r"(?m)\b(?P<f>(?:\./)?[A-Za-z0-9_][A-Za-z0-9_./\\-]*\.(?:rs|py|js|jsx|mjs|cjs|ts|tsx|go|c|h|cpp|hpp|cc|hh|cxx|hxx|java|cs|kt|kts|scala|swift|zig|toml|json|md|txt|sh|bat|ps1|sql|xml|yml|yaml|css|html))(?::(?P<l>[0-9]+))(?::(?P<c>[0-9]+))?"@
}

/// A place in the source.
#[derive(Debug)]
pub struct Position {
    pub file: String,
    pub line: usize,
    pub column: usize,
}

/// A place as values.
pub ghost struct PositionView {
    pub file: Seq<char>,
    pub line: nat,
    pub column: nat,
}

impl View for Position {
    type V = PositionView;

    open spec fn view(&self) -> PositionView {
        PositionView { file: self.file@, line: self.line as nat, column: self.column as nat }
    }
}

pub open spec fn position_views(list: Seq<Position>) -> Seq<PositionView> {
    Seq::new(list.len(), |i: int| list[i]@)
}

/// The text of group `i`, empty where it took no part in the match.
pub open spec fn group_text(groups: Seq<Option<Seq<char>>>, i: int) -> Seq<char> {
    if i < groups.len() && groups[i] is Some {
        groups[i]->0
    } else {
        Seq::empty()
    }
}

/// The number a text spells, one where it spells none.
pub open spec fn number_or_one(s: Seq<char>) -> nat {
    match text::parse_unsigned(s, usize::MAX as nat) {
        Some(n) => n,
        None => 1,
    }
}

/// The place a match names: group 1 is the file, group 2 the line, group 3
/// the column.
pub open spec fn position_of(groups: Seq<Option<Seq<char>>>) -> PositionView {
    PositionView {
        file: group_text(groups, 1),
        line: number_or_one(group_text(groups, 2)),
        column: number_or_one(group_text(groups, 3)),
    }
}

/// Whether a list already holds a place on the same line.
pub open spec fn holds_line(list: Seq<PositionView>, p: PositionView) -> bool {
    exists|i: int|
        0 <= i < list.len() && (#[trigger] list[i]).file == p.file && list[i].line == p.line
}

/// The first places on different lines that the matches from `i` on name
/// behind those already found, up to `limit`.
pub open spec fn places(
    matches: Seq<Seq<Option<Seq<char>>>>,
    i: int,
    limit: nat,
    so_far: Seq<PositionView>,
) -> Seq<PositionView>
    decreases matches.len() - i,
{
    if i < 0 || i >= matches.len() || so_far.len() >= limit {
        so_far
    } else {
        let p = position_of(matches[i]);
        places(
            matches,
            i + 1,
            limit,
            if holds_line(so_far, p) {
                so_far
            } else {
                so_far.push(p)
            },
        )
    }
}

fn text_of_group(groups: &Vec<Option<String>>, i: usize) -> (out: String)
    ensures
        out@ == group_text(outside::text_views(groups@), i as int),
{
    let ghost views = outside::text_views(groups@);
    if i < groups.len() {
        assert(views[i as int] == match groups@[i as int] {
            Some(g) => Some(g@),
            None => None,
        });
        match &groups[i] {
            Some(g) => g.clone(),
            None => String::new(),
        }
    } else {
        String::new()
    }
}

fn number_of(s: &str) -> (n: usize)
    ensures
        n == number_or_one(s@),
{
    let chars = text::chars_of(s);
    match text::parse_bounded(&chars, usize::MAX as u64) {
        Some(v) => v as usize,
        None => 1,
    }
}

fn on_same_line(list: &Vec<Position>, file: &str, line: usize) -> (r: bool)
    ensures
        r == (exists|i: int|
            0 <= i < list@.len() && (#[trigger] position_views(list@)[i]).file == file@
                && position_views(list@)[i].line == line),
{
    let ghost views = position_views(list@);
    let mut i: usize = 0;
    while i < list.len()
        invariant
            i <= list@.len(),
            views == position_views(list@),
            forall|k: int|
                0 <= k < i ==> !((#[trigger] views[k]).file == file@ && views[k].line == line),
        decreases list@.len() - i,
    {
        assert(views[i as int] == list@[i as int]@);
        if list[i].line == line && text::same(list[i].file.as_str(), file) {
            return true;
        }
        i = i + 1;
    }
    false
}

/// The places that some matches name: the first ones on different lines, up
/// to `limit`.
pub fn positions_of(matches: &Vec<Vec<Option<String>>>, limit: usize) -> (out: Vec<Position>)
    ensures
        position_views(out@) == places(
            outside::match_views(matches@),
            0,
            limit as nat,
            Seq::empty(),
        ),
        out@.len() <= limit,
{
    let ghost all = outside::match_views(matches@);
    let ghost end = places(all, 0, limit as nat, Seq::empty());
    let mut out: Vec<Position> = Vec::new();
    let mut i: usize = 0;
    assert(position_views(out@) =~= Seq::<PositionView>::empty());
    while i < matches.len() && out.len() < limit
        invariant
            i <= matches@.len(),
            all == outside::match_views(matches@),
            end == places(all, i as int, limit as nat, position_views(out@)),
            out@.len() <= limit,
        decreases matches@.len() - i,
    {
        let groups = &matches[i];
        assert(all[i as int] == outside::text_views(groups@));
        let file = text_of_group(groups, 1);
        let line: usize = number_of(text_of_group(groups, 2).as_str());
        let column: usize = number_of(text_of_group(groups, 3).as_str());
        let known = on_same_line(&out, file.as_str(), line);
        let ghost p = position_of(all[i as int]);
        assert(known == holds_line(position_views(out@), p));
        if !known {
            let ghost before = out@;
            out.push(Position { file, line, column });
            assert(position_views(out@) =~= position_views(before).push(p));
        }
        i = i + 1;
    }
    out
}

/// The places a call shows, and whether its input was cut.
pub fn find_positions(input: &str, limit: usize) -> (r: (Vec<Position>, bool))
    ensures
        position_views(r.0@) == places(
            outside::regex_captures_all(
                position_pattern(),
                text::clip(input@, MAX_DIAG_INPUT_CHARS as int),
            ),
            0,
            clamped_limit(limit),
            Seq::empty(),
        ),
        r.0@.len() <= MAX_DIAG_POSITIONS,
        r.1 == (input@.len() > MAX_DIAG_INPUT_CHARS),
{
    let bounded: usize = if limit < 1 {
        1
    } else if limit > MAX_DIAG_POSITIONS {
        MAX_DIAG_POSITIONS
    } else {
        limit
    };
    let truncated = text::chars_of(input).len() > MAX_DIAG_INPUT_CHARS;
    let read = text::clip_str(input, MAX_DIAG_INPUT_CHARS);
    let matches = outside::regex_search_all(
        r"(?m)\b(?P<f>(?:\./)?[A-Za-z0-9_][A-Za-z0-9_./\\-]*\.(?:rs|py|js|jsx|mjs|cjs|ts|tsx|go|c|h|cpp|hpp|cc|hh|cxx|hxx|java|cs|kt|kts|scala|swift|zig|toml|json|md|txt|sh|bat|ps1|sql|xml|yml|yaml|css|html))(?::(?P<l>[0-9]+))(?::(?P<c>[0-9]+))?",
        read.as_str(),
    );
    (positions_of(&matches, bounded), truncated)
}

/// The number of positions within its bounds.
pub open spec fn clamped_limit(limit: usize) -> nat {
    if limit < 1 {
        1
    } else if limit > MAX_DIAG_POSITIONS {
        MAX_DIAG_POSITIONS as nat
    } else {
        limit as nat
    }
}

/// Whether no two places of a list are on the same line.
pub open spec fn different_lines(list: Seq<PositionView>) -> bool {
    forall|a: int, b: int|
        #![trigger list[a], list[b]]
        0 <= a < b < list.len() ==> !(list[a].file == list[b].file && list[a].line
            == list[b].line)
}

/// No two shown places are on the same line.
pub proof fn law_places_are_on_different_lines(
    matches: Seq<Seq<Option<Seq<char>>>>,
    i: int,
    limit: nat,
    so_far: Seq<PositionView>,
)
    requires
        different_lines(so_far),
    ensures
        different_lines(places(matches, i, limit, so_far)),
    decreases matches.len() - i,
{
    if !(i < 0 || i >= matches.len() || so_far.len() >= limit) {
        let p = position_of(matches[i]);
        if holds_line(so_far, p) {
            law_places_are_on_different_lines(matches, i + 1, limit, so_far);
        } else {
            let next = so_far.push(p);
            assert forall|a: int, b: int|
                #![trigger next[a], next[b]]
                0 <= a < b < next.len() implies !(next[a].file == next[b].file && next[a].line
                == next[b].line) by {
                assert(next[a] == so_far[a]);
                if b < so_far.len() {
                    assert(next[b] == so_far[b]);
                }
            }
            law_places_are_on_different_lines(matches, i + 1, limit, next);
        }
    }
}

// ---------------------------------------------------------------------
// The source around a place
// ---------------------------------------------------------------------

/// A number, right-aligned to five characters.
pub open spec fn aligned5(number: nat) -> Seq<char> {
    echo::spaces(5 - text::dec(number).len()) + text::dec(number)
}

/// One row: a marker on the line itself, the number and the line.
pub open spec fn source_row(number: nat, target: nat, line: Seq<char>) -> Seq<char> {
    (if number == target {
        "=>"@
    } else {
        "  "@
    }) + " "@ + aligned5(number) + " | "@ + text::clip(line, MAX_DIAG_LINE_CHARS as int) + "\n"@
}

/// The rows of lines `from..to`.
pub open spec fn source_rows(lines: Seq<Seq<char>>, from: int, to: int, target: nat) -> Seq<char>
    decreases to - from,
{
    if to <= from {
        Seq::empty()
    } else {
        source_rows(lines, from, to - 1, target) + source_row(to as nat, target, lines[to - 1])
    }
}

/// The header of a block.
pub open spec fn block_header(p: PositionView) -> Seq<char> {
    "== "@ + p.file + ":"@ + text::dec(p.line) + ":"@ + text::dec(p.column) + " ==\n"@
}

/// The first line of a block, counted from zero.
pub open spec fn block_from(line: nat, context: nat) -> int {
    if line > context + 1 {
        line - (context + 1)
    } else {
        0
    }
}

/// Where a block of a file of `total` lines ends.
pub open spec fn block_to(line: nat, context: nat, total: int) -> int {
    if line + context <= total {
        (line + context) as int
    } else {
        total
    }
}

/// The source around a place.
pub open spec fn block_of(p: PositionView, context: nat, lines: Seq<Seq<char>>) -> Seq<char> {
    block_header(p) + source_rows(
        lines,
        block_from(p.line, context),
        block_to(p.line, context, lines.len() as int),
        p.line,
    )
}

/// The lines of context within their bound.
pub fn clamp_context(context: usize) -> (r: usize)
    ensures
        r == if context > MAX_DIAG_CONTEXT {
            MAX_DIAG_CONTEXT
        } else {
            context
        },
{
    if context > MAX_DIAG_CONTEXT {
        MAX_DIAG_CONTEXT
    } else {
        context
    }
}

fn push_aligned5(out: &mut String, number: usize)
    ensures
        final(out)@ == old(out)@ + aligned5(number as nat),
{
    let digits = text::dec_string(number as u64);
    let ghost start = out@;
    let ghost width = digits@.len() as int;
    let mut pad: usize = text::chars_of(digits.as_str()).len();
    assert(out@ =~= start + echo::spaces(0));
    while pad < 5
        invariant
            width <= pad,
            pad <= 5 || pad == width,
            out@ == start + echo::spaces(pad - width),
        decreases 5 - pad,
    {
        out.push(' ');
        pad = pad + 1;
        assert(out@ =~= start + echo::spaces(pad - width));
    }
    assert(echo::spaces(pad - width) =~= echo::spaces(5 - width));
    out.append(digits.as_str());
    assert(out@ =~= start + aligned5(number as nat));
}

/// Shows the source around a place.
pub fn block(position: &Position, context: usize, lines: &Vec<String>) -> (out: String)
    requires
        context <= MAX_DIAG_CONTEXT,
    ensures
        out@ == block_of(position@, context as nat, text::views(lines@)),
{
    let ghost all = text::views(lines@);
    let total: usize = lines.len();
    let line: usize = position.line;
    let from: usize = if line > context + 1 {
        line - (context + 1)
    } else {
        0
    };
    let to: usize = if line <= total && context <= total - line {
        line + context
    } else {
        total
    };
    let mut out = "== ".to_owned();
    out.append(position.file.as_str());
    out.append(":");
    text::push_dec(&mut out, line as u64);
    out.append(":");
    text::push_dec(&mut out, position.column as u64);
    out.append(" ==\n");
    let ghost header = out@;
    assert(header == block_header(position@));
    let mut i: usize = from;
    assert(out@ =~= header + source_rows(all, from as int, from as int, line as nat));
    while i < to
        invariant
            from <= i,
            i <= to || i == from,
            to <= total,
            total == lines@.len(),
            all == text::views(lines@),
            out@ == header + source_rows(all, from as int, i as int, line as nat),
        decreases to - i,
    {
        assert(lines@[i as int]@ == all[i as int]);
        let number: usize = i + 1;
        let ghost before = out@;
        let marker = if number == line {
            "=>"
        } else {
            "  "
        };
        out.append(marker);
        out.append(" ");
        push_aligned5(&mut out, number);
        out.append(" | ");
        out.append(text::clip_str(lines[i].as_str(), MAX_DIAG_LINE_CHARS).as_str());
        out.append("\n");
        assert(out@ =~= before + source_row(number as nat, line as nat, all[i as int]));
        i = i + 1;
        assert(out@ =~= header + source_rows(all, from as int, i as int, line as nat));
    }
    assert(source_rows(all, from as int, i as int, line as nat) =~= source_rows(
        all,
        from as int,
        to as int,
        line as nat,
    ));
    out
}

/// Why a file is not shown: it is too large.
pub fn oversized_reason(bytes: u64) -> (r: Option<String>)
    ensures
        match r {
            Some(t) => bytes > MAX_DIAG_FILE_BYTES && t@ == "file is "@ + text::dec(bytes as nat)
                + " bytes (above the "@ + text::dec(MAX_DIAG_FILE_BYTES as nat)
                + " byte expand cap)"@,
            None => bytes <= MAX_DIAG_FILE_BYTES,
        },
{
    if bytes <= MAX_DIAG_FILE_BYTES {
        return None;
    }
    let mut out = "file is ".to_owned();
    text::push_dec(&mut out, bytes);
    out.append(" bytes (above the ");
    text::push_dec(&mut out, MAX_DIAG_FILE_BYTES);
    out.append(" byte expand cap)");
    Some(out)
}

// ---------------------------------------------------------------------
// The report
// ---------------------------------------------------------------------

/// A report under construction: places are shown in order until the budget
/// is spent, which ends the report.
pub struct Report {
    pub entries: Vec<String>,
    pub chars: usize,
    pub expanded: usize,
    pub unresolved: usize,
    pub exhausted: bool,
}

/// The entry of a place that could not be resolved.
pub open spec fn unresolved_entry(p: PositionView, reason: Seq<char>) -> Seq<char> {
    "(unresolved) "@ + p.file + ":"@ + text::dec(p.line) + ":"@ + text::dec(p.column) + "  "@
        + reason
}

impl Report {
    /// Every entry is counted once, and the shown blocks stay inside the
    /// budget; only a single block may exceed it.
    pub open spec fn wf(&self) -> bool {
        &&& self.expanded + self.unresolved == self.entries@.len()
        &&& self.entries@.len() <= MAX_DIAG_POSITIONS
        &&& self.chars <= MAX_DIAG_MODEL_CHARS || self.expanded == 1
    }

    /// Nothing shown yet.
    pub fn new() -> (r: Report)
        ensures
            r.wf(),
            r.entries@ == Seq::<String>::empty(),
            r.chars == 0,
            r.expanded == 0,
            r.unresolved == 0,
            !r.exhausted,
    {
        Report { entries: Vec::new(), chars: 0, expanded: 0, unresolved: 0, exhausted: false }
    }

    /// Takes the next place with its block, or the reason there is none. The
    /// first entry is taken whatever its size.
    pub fn take(&mut self, position: &Position, block: Result<String, String>)
        requires
            old(self).wf(),
            old(self).entries@.len() < MAX_DIAG_POSITIONS,
        ensures
            final(self).wf(),
            ({
                let shown = text::views(old(self).entries@);
                if old(self).exhausted {
                    *final(self) == *old(self)
                } else {
                    match block {
                        Err(reason) => {
                            &&& text::views(final(self).entries@) == shown.push(
                                unresolved_entry(position@, reason@),
                            )
                            &&& final(self).unresolved == old(self).unresolved + 1
                            &&& final(self).expanded == old(self).expanded
                            &&& final(self).chars == old(self).chars
                            &&& !final(self).exhausted
                        },
                        Ok(b) => if old(self).chars + b@.len() > MAX_DIAG_MODEL_CHARS
                            && shown.len() > 0 {
                            &&& final(self).exhausted
                            &&& final(self).entries@ == old(self).entries@
                            &&& final(self).unresolved == old(self).unresolved
                            &&& final(self).expanded == old(self).expanded
                            &&& final(self).chars == old(self).chars
                        } else {
                            &&& text::views(final(self).entries@) == shown.push(b@)
                            &&& final(self).expanded == old(self).expanded + 1
                            &&& final(self).unresolved == old(self).unresolved
                            &&& !final(self).exhausted
                            &&& final(self).chars == patch::capped(
                                old(self).chars as nat + b@.len(),
                            )
                        },
                    }
                }
            }),
    {
        if self.exhausted {
            return;
        }
        match block {
            Err(reason) => {
                let mut entry = "(unresolved) ".to_owned();
                entry.append(position.file.as_str());
                entry.append(":");
                text::push_dec(&mut entry, position.line as u64);
                entry.append(":");
                text::push_dec(&mut entry, position.column as u64);
                entry.append("  ");
                entry.append(reason.as_str());
                proof {
                    text::lemma_views_push(self.entries@, entry);
                }
                self.entries.push(entry);
                self.unresolved = self.unresolved + 1;
            },
            Ok(b) => {
                let size: usize = text::chars_of(b.as_str()).len();
                let fits = self.chars <= MAX_DIAG_MODEL_CHARS && size <= MAX_DIAG_MODEL_CHARS
                    - self.chars;
                if !fits && self.entries.len() > 0 {
                    self.exhausted = true;
                    return;
                }
                proof {
                    text::lemma_views_push(self.entries@, b);
                }
                self.chars = self.chars.saturating_add(size);
                self.entries.push(b);
                self.expanded = self.expanded + 1;
            },
        }
    }

    /// Ends the report on `total` places.
    pub fn finish(self, total: usize) -> (r: DiagnosticsPage)
        requires
            self.wf(),
            self.entries@.len() <= total,
        ensures
            page_is(r, self, total),
    {
        let skipped: usize = total - self.expanded - self.unresolved;
        let mut entries = self.entries;
        let exhausted = self.exhausted;
        if exhausted {
            let mut note = "... ".to_owned();
            text::push_dec(&mut note, skipped as u64);
            note.append(" more positions not expanded (bounded output)");
            proof {
                text::lemma_views_push(entries@, note);
            }
            entries.push(note);
        }
        let mut summary = "expanded ".to_owned();
        text::push_dec(&mut summary, self.expanded as u64);
        summary.append(" of ");
        text::push_dec(&mut summary, total as u64);
        summary.append(" positions (");
        text::push_dec(&mut summary, self.unresolved as u64);
        summary.append(" unresolved)");
        let content = if entries.len() == 0 {
            "no file:line:col positions found in the input".to_owned()
        } else {
            text::join_strings(&entries, "\n")
        };
        DiagnosticsPage {
            summary,
            content,
            positions: total,
            expanded: self.expanded,
            unresolved: self.unresolved,
            skipped,
        }
    }
}

/// What a call reports.
#[derive(Debug)]
pub struct DiagnosticsPage {
    pub summary: String,
    pub content: String,
    pub positions: usize,
    pub expanded: usize,
    pub unresolved: usize,
    pub skipped: usize,
}

/// The page of a finished report.
pub open spec fn page_is(p: DiagnosticsPage, report: Report, total: usize) -> bool {
    let skipped = total - report.expanded - report.unresolved;
    let shown = text::views(report.entries@);
    let entries = if report.exhausted {
        shown.push(
            "... "@ + text::dec(skipped as nat)
                + " more positions not expanded (bounded output)"@,
        )
    } else {
        shown
    };
    &&& p.summary@ == "expanded "@ + text::dec(report.expanded as nat) + " of "@ + text::dec(
        total as nat,
    ) + " positions ("@ + text::dec(report.unresolved as nat) + " unresolved)"@
    &&& p.content@ == if entries.len() == 0 {
        "no file:line:col positions found in the input"@
    } else {
        text::join(entries, "\n"@)
    }
    &&& p.positions == total
    &&& p.expanded == report.expanded
    &&& p.unresolved == report.unresolved
    &&& p.skipped == skipped
}

// ---------------------------------------------------------------------
// Laws
// ---------------------------------------------------------------------

/// The row of line `n`, counted from one: two characters of marker, the number
/// in at least five characters and the first characters of the line.
pub open spec fn numbered_row(line: Seq<char>, n: int, target: nat) -> Seq<char> {
    let number = text::dec(n as nat);
    (if n == target {
        seq!['=', '>']
    } else {
        seq![' ', ' ']
    }) + seq![' '] + (Seq::new(
        if number.len() < 5 {
            (5 - number.len()) as nat
        } else {
            0
        },
        |k: int| ' ',
    ) + number) + seq![' ', '|', ' '] + (if line.len() <= 200 {
        line
    } else {
        line.take(200)
    }) + seq!['\n']
}

/// The rows of some lines of a file by their numbers.
pub open spec fn numbered_rows(lines: Seq<Seq<char>>, numbers: Seq<int>, target: nat) -> Seq<char>
    decreases numbers.len(),
{
    if numbers.len() == 0 {
        Seq::empty()
    } else {
        numbered_rows(lines, numbers.drop_last(), target) + numbered_row(
            lines[numbers.last() - 1],
            numbers.last(),
            target,
        )
    }
}

/// The block of a place shows exactly the existing lines that are at most
/// `context` lines away from it, each once and in their order, under a header
/// that names the place.
pub proof fn law_a_block_shows_the_lines_around_its_place(
    p: PositionView,
    context: nat,
    lines: Seq<Seq<char>>,
) -> (numbers: Seq<int>)
    ensures
        block_of(p, context, lines) == "== "@ + p.file + ":"@ + text::dec(p.line) + ":"@
            + text::dec(p.column) + " ==\n"@ + numbered_rows(lines, numbers, p.line),
        forall|n: int|
            #[trigger] numbers.contains(n) <==> 1 <= n <= lines.len() && p.line - context <= n
                <= p.line + context,
        forall|i: int, j: int| 0 <= i < j < numbers.len() ==> numbers[i] < numbers[j],
{
    let from = block_from(p.line, context);
    let to = block_to(p.line, context, lines.len() as int);
    let numbers = Seq::new(
        if from < to {
            (to - from) as nat
        } else {
            0
        },
        |k: int| from + k + 1,
    );
    lemma_rows_by_number(lines, from, to, p.line);
    assert forall|n: int|
        1 <= n <= lines.len() && p.line - context <= n <= p.line + context implies
        #[trigger] numbers.contains(n) by {
        assert(numbers[n - from - 1] == n);
    }
    numbers
}

proof fn lemma_rows_by_number(lines: Seq<Seq<char>>, from: int, to: int, target: nat)
    requires
        0 <= from,
        to <= lines.len(),
    ensures
        source_rows(lines, from, to, target) == numbered_rows(
            lines,
            Seq::new(
                if from < to {
                    (to - from) as nat
                } else {
                    0
                },
                |k: int| from + k + 1,
            ),
            target,
        ),
    decreases to - from,
{
    if from < to {
        lemma_rows_by_number(lines, from, to - 1, target);
        let numbers = Seq::new((to - from) as nat, |k: int| from + k + 1);
        let fewer = Seq::new(
            if from < to - 1 {
                (to - 1 - from) as nat
            } else {
                0
            },
            |k: int| from + k + 1,
        );
        assert(numbers.drop_last() =~= fewer);
        assert(numbers.last() == to);
        lemma_row_by_number(lines[to - 1], to, target);
    }
}

proof fn lemma_row_by_number(line: Seq<char>, n: int, target: nat)
    requires
        0 <= n,
    ensures
        source_row(n as nat, target, line) == numbered_row(line, n, target),
{
    reveal_strlit("=>");
    reveal_strlit("  ");
    reveal_strlit(" ");
    reveal_strlit(" | ");
    reveal_strlit("\n");
    let number = text::dec(n as nat);
    assert("=>"@ =~= seq!['=', '>']);
    assert("  "@ =~= seq![' ', ' ']);
    assert(" "@ =~= seq![' ']);
    assert(" | "@ =~= seq![' ', '|', ' ']);
    assert("\n"@ =~= seq!['\n']);
    assert(text::clip(line, 200) =~= if line.len() <= 200 {
        line
    } else {
        line.take(200)
    });
    assert(echo::spaces(5 - number.len()) =~= Seq::new(
        if number.len() < 5 {
            (5 - number.len()) as nat
        } else {
            0
        },
        |k: int| ' ',
    ));
}

/// A position that a match names: the file as it is written, the line and the
/// column as numbers, and one for each that is missing or too large.
pub proof fn law_a_position_is_read_from_its_match(
    file: Seq<char>,
    line: nat,
    column: nat,
    whole: Seq<char>,
)
    requires
        line <= usize::MAX,
        column <= usize::MAX,
    ensures
        position_of(
            seq![Some(whole), Some(file), Some(text::dec(line)), Some(text::dec(column))],
        ) == (PositionView { file, line, column }),
        position_of(seq![Some(whole), Some(file), Some(text::dec(line)), None]) == (PositionView {
            file,
            line,
            column: 1,
        }),
        number_or_one(text::dec((usize::MAX + 1) as nat)) == 1,
{
    text::law_reading_undoes_writing(line, usize::MAX as nat);
    text::law_reading_undoes_writing(column, usize::MAX as nat);
    text::law_reading_undoes_writing((usize::MAX + 1) as nat, usize::MAX as nat);
    text::law_only_digits_are_read(Seq::empty(), usize::MAX as nat);
}

/// While the limit is not reached, the line of every match is shown, as the
/// place that names it first; what is shown is in the order of the matches.
pub proof fn law_every_named_line_is_shown(matches: Seq<Seq<Option<Seq<char>>>>, limit: nat) -> (
    of: Seq<int>)
    ensures
        ({
            let found = places(matches, 0, limit, Seq::empty());
            &&& found.len() <= limit
            &&& of.len() == found.len()
            &&& forall|k: int|
                0 <= k < of.len() ==> 0 <= #[trigger] of[k] < matches.len() && found[k]
                    == position_of(matches[of[k]])
            &&& forall|i: int, j: int| 0 <= i < j < of.len() ==> of[i] < of[j]
            &&& found.len() < limit ==> forall|m: int|
                0 <= m < matches.len() ==> holds_line(
                    found,
                    position_of(#[trigger] matches[m]),
                )
            &&& forall|k: int, m: int|
                0 <= k < of.len() && 0 <= m < of[k] ==> {
                    let p = position_of(#[trigger] matches[m]);
                    !(p.file == (#[trigger] found[k]).file && p.line == found[k].line)
                }
        }),
{
    lemma_places_come_from_matches(matches, 0, limit, Seq::empty(), Seq::empty())
}

proof fn lemma_places_come_from_matches(
    matches: Seq<Seq<Option<Seq<char>>>>,
    i: int,
    limit: nat,
    so_far: Seq<PositionView>,
    given: Seq<int>,
) -> (of: Seq<int>)
    requires
        0 <= i <= matches.len(),
        so_far.len() <= limit,
        given.len() == so_far.len(),
        forall|k: int|
            0 <= k < given.len() ==> 0 <= #[trigger] given[k] < i && so_far[k] == position_of(
                matches[given[k]],
            ),
        forall|a: int, b: int| 0 <= a < b < given.len() ==> given[a] < given[b],
        forall|m: int| 0 <= m < i ==> holds_line(so_far, position_of(#[trigger] matches[m])),
        forall|k: int, m: int|
            0 <= k < given.len() && 0 <= m < given[k] ==> {
                let p = position_of(#[trigger] matches[m]);
                !(p.file == (#[trigger] so_far[k]).file && p.line == so_far[k].line)
            },
    ensures
        ({
            let found = places(matches, i, limit, so_far);
            &&& found.len() <= limit
            &&& of.len() == found.len()
            &&& forall|k: int|
                0 <= k < of.len() ==> 0 <= #[trigger] of[k] < matches.len() && found[k]
                    == position_of(matches[of[k]])
            &&& forall|a: int, b: int| 0 <= a < b < of.len() ==> of[a] < of[b]
            &&& found.len() < limit ==> forall|m: int|
                0 <= m < matches.len() ==> holds_line(
                    found,
                    position_of(#[trigger] matches[m]),
                )
            &&& forall|k: int, m: int|
                0 <= k < of.len() && 0 <= m < of[k] ==> {
                    let p = position_of(#[trigger] matches[m]);
                    !(p.file == (#[trigger] found[k]).file && p.line == found[k].line)
                }
        }),
    decreases matches.len() - i,
{
    if i < matches.len() && so_far.len() < limit {
        let p = position_of(matches[i]);
        if holds_line(so_far, p) {
            lemma_places_come_from_matches(matches, i + 1, limit, so_far, given)
        } else {
            let next = so_far.push(p);
            let more = given.push(i);
            assert forall|m: int| 0 <= m < i + 1 implies holds_line(
                next,
                position_of(#[trigger] matches[m]),
            ) by {
                let q = position_of(matches[m]);
                if m < i {
                    let w = choose|w: int|
                        0 <= w < so_far.len() && (#[trigger] so_far[w]).file == q.file
                            && so_far[w].line == q.line;
                    assert(next[w] == so_far[w]);
                } else {
                    assert(next[so_far.len() as int] == p);
                }
            }
            assert forall|k: int, m: int| 0 <= k < more.len() && 0 <= m < more[k] implies {
                let q = position_of(#[trigger] matches[m]);
                !(q.file == (#[trigger] next[k]).file && q.line == next[k].line)
            } by {
                let q = position_of(matches[m]);
                if k < so_far.len() {
                    assert(next[k] == so_far[k]);
                    assert(more[k] == given[k]);
                } else {
                    assert(holds_line(so_far, q));
                    let w = choose|w: int|
                        0 <= w < so_far.len() && (#[trigger] so_far[w]).file == q.file
                            && so_far[w].line == q.line;
                    if q.file == p.file && q.line == p.line {
                        assert(so_far[w].file == p.file);
                        assert(holds_line(so_far, p));
                    }
                }
            }
            lemma_places_come_from_matches(matches, i + 1, limit, next, more)
        }
    } else {
        given
    }
}

/// The limits of a call: between one and fifty places, at most a hundred
/// thousand characters of input, two mebibytes of a file and twelve thousand
/// characters of source.
pub proof fn law_the_limits_of_a_call(limit: usize)
    ensures
        1 <= clamped_limit(limit) <= 50,
        1 <= limit <= 50 ==> clamped_limit(limit) == limit,
        limit > 50 ==> clamped_limit(limit) == 50,
        MAX_DIAG_POSITIONS == 50,
        MAX_DIAG_CONTEXT == 10,
        MAX_DIAG_INPUT_CHARS == 100_000,
        MAX_DIAG_FILE_BYTES == 2 * 1024 * 1024,
        MAX_DIAG_MODEL_CHARS == 12_000,
        MAX_DIAG_LINE_CHARS == 200,
{
}

/// A finished report shows every entry in order, counts each place once as
/// shown, unresolved or left out, and ends with a note exactly where the
/// budget ended it.
pub proof fn law_a_report_accounts_for_every_place(p: DiagnosticsPage, report: Report, total: usize)
    requires
        page_is(p, report, total),
        report.wf(),
        report.entries@.len() <= total,
    ensures
        p.expanded + p.unresolved + p.skipped == p.positions,
        p.positions == total,
        p.expanded == report.expanded && p.unresolved == report.unresolved,
        report.entries@.len() > 0 && !report.exhausted ==> p.content@ == text::join(
            text::views(report.entries@),
            seq!['\n'],
        ),
        report.entries@.len() > 0 && report.exhausted ==> p.content@ == text::join(
            text::views(report.entries@),
            seq!['\n'],
        ) + "\n... "@ + text::dec(p.skipped as nat)
            + " more positions not expanded (bounded output)"@,
{
    reveal_strlit("\n");
    assert("\n"@ =~= seq!['\n']);
    let shown = text::views(report.entries@);
    if report.exhausted && shown.len() > 0 {
        reveal_strlit("\n... ");
        reveal_strlit("... ");
        let note = "... "@ + text::dec(p.skipped as nat)
            + " more positions not expanded (bounded output)"@;
        assert(shown.push(note).drop_last() =~= shown);
        assert("\n... "@ =~= seq!['\n'] + "... "@);
        assert(p.content@ =~= text::join(shown, seq!['\n']) + "\n... "@ + text::dec(
            p.skipped as nat,
        ) + " more positions not expanded (bounded output)"@);
    }
}

} // verus!
