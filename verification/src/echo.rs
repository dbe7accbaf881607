//! Bounded, line-numbered views of a text: what a refused edit shows of the
//! places it might have meant, and what a successful one shows of its result.
use crate::text;
use vstd::prelude::*;

verus! {

/// How many regions a refusal shows.
pub const MAX_EDIT_CANDIDATES: usize = 3;

/// Lines of context on either side of a candidate.
pub const CANDIDATE_CONTEXT_LINES: usize = 2;

/// The size of one candidate region, in characters.
pub const CANDIDATE_MAX_CHARS: usize = 400;

/// Lines of context around the changed region of an after-edit echo.
pub const EDIT_ECHO_CONTEXT_LINES: usize = 3;

/// The size of one after-edit echo, in characters. An echo saves the reader
/// a confirming read; it must not become a second dump of the file.
pub const EDIT_ECHO_MAX_CHARS: usize = 1200;

/// How much of one line a view shows.
pub const VIEW_LINE_CHARS: usize = 120;

/// How much of an anchor's first line is searched for.
pub const PROBE_CHARS: usize = 48;

/// The width of a line number.
pub const LINE_NUMBER_WIDTH: usize = 6;

// ---------------------------------------------------------------------
// Numbered rows
// ---------------------------------------------------------------------

/// `n` spaces.
pub open spec fn spaces(n: int) -> Seq<char> {
    Seq::new(
        if n > 0 {
            n as nat
        } else {
            0
        },
        |i: int| ' ',
    )
}

/// A number, right-aligned to the width of a line number.
pub open spec fn aligned(number: nat) -> Seq<char> {
    spaces(LINE_NUMBER_WIDTH - text::dec(number).len()) + text::dec(number)
}

/// One row of a view: the line's number and the line.
pub open spec fn numbered(number: nat, line: Seq<char>) -> Seq<char> {
    aligned(number) + " | "@ + line + "\n"@
}

/// A number, right-aligned to the width of a line number.
pub fn aligned_number(number: usize) -> (out: String)
    ensures
        out@ == aligned(number as nat),
{
    let digits = text::dec_string(number as u64);
    let shown = text::chars_of(digits.as_str());
    let mut out = String::new();
    let mut pad: usize = shown.len();
    let ghost width = shown@.len() as int;
    assert(out@ =~= spaces(0));
    while pad < LINE_NUMBER_WIDTH
        invariant
            width <= pad,
            pad <= LINE_NUMBER_WIDTH || pad == width,
            out@ == spaces(pad - width),
        decreases LINE_NUMBER_WIDTH - pad,
    {
        out.push(' ');
        pad = pad + 1;
        assert(out@ =~= spaces(pad - width));
    }
    assert(spaces(pad - width) =~= spaces(LINE_NUMBER_WIDTH - width));
    out.append(digits.as_str());
    out
}

/// Appends one row.
pub fn push_numbered(out: &mut String, number: usize, line: &str)
    ensures
        final(out)@ == old(out)@ + numbered(number as nat, line@),
{
    let shown = aligned_number(number);
    out.append(shown.as_str());
    out.append(" | ");
    out.append(line);
    out.append("\n");
    assert(out@ =~= old(out)@ + numbered(number as nat, line@));
}

/// One row on its own.
pub fn numbered_row(number: usize, line: &str) -> (out: String)
    ensures
        out@ == numbered(number as nat, line@),
{
    let mut out = String::new();
    push_numbered(&mut out, number, line);
    assert(out@ =~= numbered(number as nat, line@));
    out
}

// ---------------------------------------------------------------------
// Candidate regions
// ---------------------------------------------------------------------

/// Rows `from..to` of a text, each clipped to the view's width.
pub open spec fn rows(lines: Seq<Seq<char>>, from: int, to: int) -> Seq<char>
    decreases to - from,
{
    if from >= to {
        Seq::empty()
    } else {
        rows(lines, from, to - 1) + numbered(
            to as nat,
            text::clip(lines[to - 1], VIEW_LINE_CHARS as int),
        )
    }
}

/// The first line of the window around line `center`.
pub open spec fn window_start(center: int) -> int {
    if center >= CANDIDATE_CONTEXT_LINES {
        center - CANDIDATE_CONTEXT_LINES
    } else {
        0
    }
}

/// Where the window around line `center` of `total` lines ends.
pub open spec fn window_end(center: int, total: int) -> int {
    if center + CANDIDATE_CONTEXT_LINES + 1 <= total {
        center + CANDIDATE_CONTEXT_LINES + 1
    } else {
        total
    }
}

/// The window around one line: the line and its context, numbered, cut at
/// the size of a candidate region.
pub open spec fn window(lines: Seq<Seq<char>>, center: int) -> Seq<char> {
    text::clip(
        rows(lines, window_start(center), window_end(center, lines.len() as int)),
        CANDIDATE_MAX_CHARS as int,
    )
}

/// The window around line `center`.
pub fn window_at(lines: &Vec<String>, center: usize) -> (out: String)
    requires
        center <= lines@.len() + CANDIDATE_CONTEXT_LINES,
    ensures
        out@ == window(text::views(lines@), center as int),
{
    let n: usize = lines.len();
    let start: usize = if center >= CANDIDATE_CONTEXT_LINES {
        center - CANDIDATE_CONTEXT_LINES
    } else {
        0
    };
    let end: usize = if center <= n && n - center > CANDIDATE_CONTEXT_LINES {
        center + CANDIDATE_CONTEXT_LINES + 1
    } else {
        n
    };
    let ghost all = text::views(lines@);
    assert(end == window_end(center as int, n as int));
    let mut block = String::new();
    let mut i: usize = start;
    assert(rows(all, start as int, start as int) =~= Seq::<char>::empty());
    while i < end
        invariant
            start <= i <= end || start > end,
            end <= n,
            n == lines@.len(),
            all == text::views(lines@),
            i >= start,
            block@ == rows(all, start as int, i as int),
        decreases end - i,
    {
        let clipped = text::clip_str(lines[i].as_str(), VIEW_LINE_CHARS);
        push_numbered(&mut block, i + 1, clipped.as_str());
        assert(lines@[i as int]@ == all[i as int]);
        i = i + 1;
    }
    assert(rows(all, start as int, i as int) =~= rows(all, start as int, end as int));
    text::clip_str(block.as_str(), CANDIDATE_MAX_CHARS)
}

/// The line that the window around character `at` is centred on: the last of
/// the lines that the text before it makes. It is the line the character
/// stands on, or, where it stands at the start of a line behind the first, the
/// line before that one.
pub open spec fn center_of(text: Seq<char>, at: int) -> int {
    let before = text::lines(text.take(at)).len();
    if before >= 1 {
        before - 1
    } else {
        0
    }
}

/// The window around character `at`.
pub open spec fn region(text: Seq<char>, at: int) -> Seq<char> {
    window(text::lines(text), center_of(text, at))
}

/// The first line at or behind `i` that is not blank.
pub open spec fn first_written(lines: Seq<Seq<char>>, i: int) -> Option<Seq<char>>
    decreases lines.len() - i,
{
    if i < 0 || i >= lines.len() {
        None
    } else if text::trim(lines[i]).len() > 0 {
        Some(lines[i])
    } else {
        first_written(lines, i + 1)
    }
}

/// What stands for an anchor that was not found: the start of its first
/// line that is not blank.
pub open spec fn probe(needle: Seq<char>) -> Seq<char> {
    text::clip(
        match first_written(text::lines(needle), 0) {
            Some(line) => line,
            None => needle,
        },
        PROBE_CHARS as int,
    )
}

/// The windows around the first `left` lines at or behind `i` that hold
/// `probe`.
pub open spec fn probe_windows(lines: Seq<Seq<char>>, probe: Seq<char>, i: int, left: int) -> Seq<
    Seq<char>,
>
    decreases lines.len() - i,
{
    if i < 0 || i >= lines.len() || left <= 0 {
        Seq::empty()
    } else if text::contains(lines[i], probe) {
        seq![window(lines, i)] + probe_windows(lines, probe, i + 1, left - 1)
    } else {
        probe_windows(lines, probe, i + 1, left)
    }
}

/// The regions a refusal shows: the first exact occurrences of the anchor,
/// or, where there is none, the first lines that hold its probe.
pub open spec fn candidates(text: Seq<char>, needle: Seq<char>) -> Seq<Seq<char>> {
    let starts = text::match_starts(text, needle);
    if starts.len() > 0 {
        Seq::new(
            if starts.len() <= MAX_EDIT_CANDIDATES {
                starts.len()
            } else {
                MAX_EDIT_CANDIDATES as nat
            },
            |k: int| region(text, starts[k]),
        )
    } else if text::trim(probe(needle)).len() == 0 {
        Seq::empty()
    } else {
        probe_windows(text::lines(text), probe(needle), 0, MAX_EDIT_CANDIDATES as int)
    }
}

proof fn lemma_lines_of_prefix(s: Seq<char>, at: int, from: int)
    requires
        0 <= from <= at <= s.len(),
    ensures
        text::lines_from(s.take(at), from).len() <= text::lines_from(s, from).len(),
    decreases at - from,
{
    let t = s.take(at);
    if from < at {
        text::lemma_line_feed_from(s, from);
        text::lemma_line_feed_from(t, from);
        let e = text::line_feed_from(s, from);
        let d = text::line_feed_from(t, from);
        if d < at {
            assert(t[d] == s[d]);
            if e < d {
                assert(t[e] == s[e]);
            }
            lemma_lines_of_prefix(s, at, d + 1);
        }
    }
}

/// The window around character `at`.
pub fn region_at(chars: &[char], lines: &Vec<String>, at: usize) -> (out: String)
    requires
        at <= chars@.len(),
        text::views(lines@) == text::lines(chars@),
    ensures
        out@ == region(chars@, at as int),
{
    let prefix = text::string_of_range(chars, 0, at);
    let prefix_chars = text::chars_of(prefix.as_str());
    let before: usize = text::lines_of(&prefix_chars).len();
    proof {
        assert(chars@.subrange(0, at as int) =~= chars@.take(at as int));
        lemma_lines_of_prefix(chars@, at as int, 0);
    }
    let center: usize = if before >= 1 {
        before - 1
    } else {
        0
    };
    window_at(lines, center)
}

/// The first of `lines` that is not blank, as an index.
fn find_written(lines: &Vec<String>) -> (r: Option<usize>)
    ensures
        match r {
            Some(i) => i < lines@.len() && first_written(text::views(lines@), 0) == Some(
                lines@[i as int]@,
            ),
            None => first_written(text::views(lines@), 0) is None,
        },
{
    let mut i: usize = 0;
    let ghost all = text::views(lines@);
    while i < lines.len()
        invariant
            i <= lines@.len(),
            all == text::views(lines@),
            first_written(all, 0) == first_written(all, i as int),
        decreases lines@.len() - i,
    {
        let trimmed = text::trim_str(lines[i].as_str());
        assert(lines@[i as int]@ == all[i as int]);
        if !trimmed.as_str().is_empty() {
            return Some(i);
        }
        i = i + 1;
    }
    None
}

/// Bounded, line-numbered windows around an anchor or, failing that, around
/// its first line. They help a reader choose an anchor that occurs; nothing
/// is ever changed on the strength of them.
pub fn candidate_regions(text: &str, needle: &str) -> (out: Vec<String>)
    ensures
        text::views(out@) == candidates(text@, needle@),
{
    let chars = text::chars_of(text);
    let wanted = text::chars_of(needle);
    let lines = text::lines_of(&chars);
    let starts = text::find_all(&chars, &wanted);
    let mut out: Vec<String> = Vec::new();
    proof {
        text::lemma_matches_from(text@, needle@, 0);
    }
    if starts.len() > 0 {
        let n: usize = if starts.len() <= MAX_EDIT_CANDIDATES {
            starts.len()
        } else {
            MAX_EDIT_CANDIDATES
        };
        let mut k: usize = 0;
        while k < n
            invariant
                k <= n <= starts@.len(),
                chars@ == text@,
                text::views(lines@) == text::lines(chars@),
                starts@.len() == text::match_starts(text@, needle@).len(),
                forall|j: int|
                    0 <= j < starts@.len() ==> starts@[j] == text::match_starts(text@, needle@)[j]
                        && #[trigger] starts@[j] <= text@.len(),
                text::views(out@) == Seq::new(
                    k as nat,
                    |j: int| region(text@, text::match_starts(text@, needle@)[j]),
                ),
            decreases n - k,
        {
            let shown = region_at(&chars, &lines, starts[k]);
            let ghost before = out@;
            out.push(shown);
            proof {
                text::lemma_views_push(before, shown);
            }
            k = k + 1;
            assert(text::views(out@) =~= Seq::new(
                k as nat,
                |j: int| region(text@, text::match_starts(text@, needle@)[j]),
            ));
        }
        assert(text::views(out@) =~= candidates(text@, needle@));
        return out;
    }
    let needle_lines = text::lines_of(&wanted);
    let sought = match find_written(&needle_lines) {
        Some(i) => text::clip_str(needle_lines[i].as_str(), PROBE_CHARS),
        None => text::clip_str(needle, PROBE_CHARS),
    };
    let trimmed = text::trim_str(sought.as_str());
    if trimmed.as_str().is_empty() {
        assert(text::views(out@) =~= candidates(text@, needle@));
        return out;
    }
    let sought_chars = text::chars_of(sought.as_str());
    let ghost all = text::views(lines@);
    let ghost expected = probe_windows(all, sought@, 0, MAX_EDIT_CANDIDATES as int);
    let mut i: usize = 0;
    assert(text::views(out@) + expected =~= expected);
    while i < lines.len() && out.len() < MAX_EDIT_CANDIDATES
        invariant
            i <= lines@.len(),
            all == text::views(lines@),
            sought_chars@ == sought@,
            out@.len() <= MAX_EDIT_CANDIDATES,
            expected == probe_windows(all, sought@, 0, MAX_EDIT_CANDIDATES as int),
            text::views(out@) + probe_windows(
                all,
                sought@,
                i as int,
                MAX_EDIT_CANDIDATES - out@.len(),
            ) == expected,
        decreases lines@.len() - i,
    {
        let line = text::chars_of(lines[i].as_str());
        assert(line@ == all[i as int]);
        if text::has(&line, &sought_chars) {
            let shown = window_at(&lines, i);
            let ghost before = out@;
            proof {
                text::lemma_views_push(before, shown);
            }
            out.push(shown);
            assert(text::views(out@) + probe_windows(
                all,
                sought@,
                i + 1,
                MAX_EDIT_CANDIDATES - out@.len(),
            ) =~= text::views(before) + probe_windows(
                all,
                sought@,
                i as int,
                MAX_EDIT_CANDIDATES - before.len(),
            ));
        }
        i = i + 1;
    }
    assert(text::views(out@) =~= expected);
    out
}

// ---------------------------------------------------------------------
// Hard character budgets
// ---------------------------------------------------------------------

/// A text inside a hard character budget: its head and a marker where it
/// does not fit, the marker counted in the budget.
pub open spec fn bounded(text: Seq<char>, max: int, marker: Seq<char>) -> Seq<char> {
    if text.len() <= max {
        text
    } else if marker.len() >= max {
        marker.take(max)
    } else {
        text.take(max - marker.len()) + marker
    }
}

/// Keeps a fragment inside a hard character budget, marker included.
pub fn bound_chars_with_marker(text: &str, max_chars: usize, marker: &str) -> (out: String)
    ensures
        out@ == bounded(text@, max_chars as int, marker@),
        out@.len() <= max_chars,
{
    let chars = text::chars_of(text);
    if chars.len() <= max_chars {
        return text.to_owned();
    }
    let mark = text::chars_of(marker);
    if mark.len() >= max_chars {
        let out = text::string_of_range(&mark, 0, max_chars);
        assert(out@ =~= marker@.take(max_chars as int));
        return out;
    }
    let mut out = text::string_of_range(&chars, 0, max_chars - mark.len());
    out.append(marker);
    assert(out@ =~= bounded(text@, max_chars as int, marker@));
    out
}

/// A text inside a hard character budget with both ends kept: where it does
/// not fit, the marker takes the place of its middle.
pub open spec fn bounded_middle(text: Seq<char>, max: int, marker: Seq<char>) -> Seq<char> {
    if text.len() <= max {
        text
    } else if marker.len() >= max {
        marker.take(max)
    } else {
        let room = max - marker.len();
        text.take(room - room / 2) + marker + text.skip(text.len() - room / 2)
    }
}

/// Keeps both ends of a text inside a hard character budget.
pub fn bound_middle_with_marker(text: &str, max_chars: usize, marker: &str) -> (out: String)
    ensures
        out@ == bounded_middle(text@, max_chars as int, marker@),
        out@.len() <= max_chars,
{
    let chars = text::chars_of(text);
    let n: usize = chars.len();
    if n <= max_chars {
        return text.to_owned();
    }
    let mark = text::chars_of(marker);
    if mark.len() >= max_chars {
        let out = text::string_of_range(&mark, 0, max_chars);
        assert(out@ =~= marker@.take(max_chars as int));
        return out;
    }
    let room: usize = max_chars - mark.len();
    let tail: usize = room / 2;
    let mut out = text::string_of_range(&chars, 0, room - tail);
    out.append(marker);
    text::push_range(&mut out, &chars, n - tail, n);
    assert(out@ =~= bounded_middle(text@, max_chars as int, marker@));
    out
}

// ---------------------------------------------------------------------
// The changed region
// ---------------------------------------------------------------------

/// How many bytes two texts share from byte `i` on, counted from the start.
pub open spec fn shared_prefix(a: Seq<u8>, b: Seq<u8>, i: int) -> int
    decreases a.len() - i,
{
    if 0 <= i < a.len() && i < b.len() && a[i] == b[i] {
        shared_prefix(a, b, i + 1)
    } else {
        i
    }
}

/// How many bytes two texts share at their ends, beyond `k` and up to `max`.
pub open spec fn shared_suffix(a: Seq<u8>, b: Seq<u8>, k: int, max: int) -> int
    decreases max - k,
{
    if 0 <= k < max && a[a.len() - 1 - k] == b[b.len() - 1 - k] {
        shared_suffix(a, b, k + 1, max)
    } else {
        k
    }
}

/// The last character boundary at or before byte `i`.
pub open spec fn snap_down(bytes: Seq<u8>, i: int) -> int
    decreases i,
{
    if i <= 0 || vstd::utf8::is_char_boundary(bytes, i) {
        i
    } else {
        snap_down(bytes, i - 1)
    }
}

/// The longest suffix of at most `k` bytes that starts at a character
/// boundary.
pub open spec fn snap_suffix(bytes: Seq<u8>, k: int) -> int
    decreases k,
{
    if k <= 0 || vstd::utf8::is_char_boundary(bytes, bytes.len() - k) {
        k
    } else {
        snap_suffix(bytes, k - 1)
    }
}

pub open spec fn least(a: int, b: int) -> int {
    if a <= b {
        a
    } else {
        b
    }
}

/// The bytes of `b` that differ from `a`: what is left between the common
/// prefix and the common suffix, widened to whole characters.
pub open spec fn differing(a: Seq<u8>, b: Seq<u8>) -> (int, int) {
    let prefix = shared_prefix(a, b, 0);
    let suffix = shared_suffix(a, b, 0, least(a.len() as int, b.len() as int) - prefix);
    (snap_down(b, prefix), b.len() - snap_suffix(b, suffix))
}

proof fn lemma_shared_prefix(a: Seq<u8>, b: Seq<u8>, i: int)
    requires
        0 <= i <= a.len(),
        i <= b.len(),
    ensures
        i <= shared_prefix(a, b, i) <= a.len(),
        shared_prefix(a, b, i) <= b.len(),
        forall|j: int| i <= j < shared_prefix(a, b, i) ==> a[j] == b[j],
    decreases a.len() - i,
{
    if i < a.len() && i < b.len() && a[i] == b[i] {
        lemma_shared_prefix(a, b, i + 1);
    }
}

proof fn lemma_shared_suffix(a: Seq<u8>, b: Seq<u8>, k: int, max: int)
    requires
        0 <= k <= max,
    ensures
        k <= shared_suffix(a, b, k, max) <= max,
        forall|j: int|
            #![trigger a[a.len() - 1 - j]]
            #![trigger b[b.len() - 1 - j]]
            k <= j < shared_suffix(a, b, k, max) ==> a[a.len() - 1 - j] == b[b.len() - 1 - j],
    decreases max - k,
{
    if k < max && a[a.len() - 1 - k] == b[b.len() - 1 - k] {
        lemma_shared_suffix(a, b, k + 1, max);
    }
}

proof fn lemma_snap_down(bytes: Seq<u8>, i: int)
    requires
        0 <= i,
    ensures
        0 <= snap_down(bytes, i) <= i,
        snap_down(bytes, i) == 0 || vstd::utf8::is_char_boundary(bytes, snap_down(bytes, i)),
        forall|s: int|
            0 <= s <= i && (s == 0 || #[trigger] vstd::utf8::is_char_boundary(bytes, s)) ==> s
                <= snap_down(bytes, i),
    decreases i,
{
    if i > 0 && !vstd::utf8::is_char_boundary(bytes, i) {
        lemma_snap_down(bytes, i - 1);
    }
}

proof fn lemma_snap_suffix(bytes: Seq<u8>, k: int)
    requires
        0 <= k,
    ensures
        0 <= snap_suffix(bytes, k) <= k,
    decreases k,
{
    if k > 0 && !vstd::utf8::is_char_boundary(bytes, bytes.len() - k) {
        lemma_snap_suffix(bytes, k - 1);
    }
}

/// The changed region is a range of the updated text.
pub proof fn lemma_differing_is_a_range(a: Seq<u8>, b: Seq<u8>)
    ensures
        0 <= differing(a, b).0 <= differing(a, b).1 <= b.len(),
{
    lemma_shared_prefix(a, b, 0);
    let prefix = shared_prefix(a, b, 0);
    let max = least(a.len() as int, b.len() as int) - prefix;
    lemma_shared_suffix(a, b, 0, max);
    lemma_snap_down(b, prefix);
    lemma_snap_suffix(b, shared_suffix(a, b, 0, max));
}

/// The byte span of the region that differs between the original and the
/// updated text, in the updated text.
pub fn changed_span(original: &str, updated: &str) -> (r: (usize, usize))
    ensures
        (r.0 as int, r.1 as int) == differing(vstd::utf8::encode_utf8(original@), vstd::utf8::encode_utf8(updated@)),
        r.0 <= r.1 <= vstd::utf8::encode_utf8(updated@).len(),
{
    let a = original.as_bytes();
    let b = updated.as_bytes();
    let na: usize = a.len();
    let nb: usize = b.len();
    let mut prefix: usize = 0;
    while prefix < na && prefix < nb && a[prefix] == b[prefix]
        invariant
            na == a@.len(),
            nb == b@.len(),
            prefix <= na,
            prefix <= nb,
            shared_prefix(a@, b@, 0) == shared_prefix(a@, b@, prefix as int),
        decreases na - prefix,
    {
        prefix = prefix + 1;
    }
    let max_suffix: usize = if na <= nb {
        na - prefix
    } else {
        nb - prefix
    };
    let mut suffix: usize = 0;
    while suffix < max_suffix && a[na - 1 - suffix] == b[nb - 1 - suffix]
        invariant
            na == a@.len(),
            nb == b@.len(),
            suffix <= max_suffix,
            max_suffix <= na,
            max_suffix <= nb,
            shared_suffix(a@, b@, 0, max_suffix as int) == shared_suffix(
                a@,
                b@,
                suffix as int,
                max_suffix as int,
            ),
        decreases max_suffix - suffix,
    {
        suffix = suffix + 1;
    }
    let ghost shared_p = prefix as int;
    let ghost shared_s = suffix as int;
    while prefix > 0 && !updated.is_char_boundary(prefix)
        invariant
            b@ == vstd::utf8::encode_utf8(updated@),
            snap_down(b@, shared_p) == snap_down(b@, prefix as int),
            prefix <= shared_p,
        decreases prefix,
    {
        prefix = prefix - 1;
    }
    while suffix > 0 && !updated.is_char_boundary(nb - suffix)
        invariant
            b@ == vstd::utf8::encode_utf8(updated@),
            nb == b@.len(),
            suffix <= nb,
            snap_suffix(b@, shared_s) == snap_suffix(b@, suffix as int),
        decreases suffix,
    {
        suffix = suffix - 1;
    }
    proof {
        lemma_differing_is_a_range(a@, b@);
    }
    (prefix, nb - suffix)
}

/// How many line feeds the first `to` bytes hold.
pub open spec fn line_feed_bytes(bytes: Seq<u8>, to: int) -> nat
    decreases to,
{
    if to <= 0 {
        0
    } else {
        line_feed_bytes(bytes, to - 1) + if bytes[to - 1] == 10u8 {
            1nat
        } else {
            0nat
        }
    }
}

proof fn lemma_line_feed_bytes(bytes: Seq<u8>, a: int, b: int)
    requires
        a <= b,
    ensures
        line_feed_bytes(bytes, a) <= line_feed_bytes(bytes, b),
    decreases b - a,
{
    if a < b {
        lemma_line_feed_bytes(bytes, a, b - 1);
    }
}

/// How many line feeds the first `to` bytes hold.
fn count_line_feed_bytes(bytes: &[u8], to: usize) -> (n: usize)
    requires
        to <= bytes@.len(),
    ensures
        n == line_feed_bytes(bytes@, to as int),
        n <= to,
{
    let mut n: usize = 0;
    let mut i: usize = 0;
    while i < to
        invariant
            i <= to <= bytes@.len(),
            n <= i,
            n == line_feed_bytes(bytes@, i as int),
        decreases to - i,
    {
        if bytes[i] == 10u8 {
            n = n + 1;
        }
        i = i + 1;
    }
    n
}

/// The line, counted from zero, on which the changed region starts.
pub open spec fn first_changed_line(a: Seq<u8>, b: Seq<u8>) -> int {
    line_feed_bytes(b, differing(a, b).0) as int
}

/// The line that holds the last character of the changed region.
pub open spec fn last_changed_line(a: Seq<u8>, b: Seq<u8>) -> int {
    let (start, end) = differing(a, b);
    if end > start {
        line_feed_bytes(b, snap_down(b, end - 1)) as int
    } else {
        first_changed_line(a, b)
    }
}

/// The first line an echo shows.
pub open spec fn echo_start(a: Seq<u8>, b: Seq<u8>) -> int {
    if first_changed_line(a, b) >= EDIT_ECHO_CONTEXT_LINES {
        first_changed_line(a, b) - EDIT_ECHO_CONTEXT_LINES
    } else {
        0
    }
}

/// Where an echo of a text of `total` lines ends.
pub open spec fn echo_end(a: Seq<u8>, b: Seq<u8>, total: int) -> int {
    least(last_changed_line(a, b) + 1 + EDIT_ECHO_CONTEXT_LINES, total)
}

/// What an echo that does not fit ends in.
pub open spec fn echo_marker() -> Seq<char> {
    "… (echo truncated at cap; fs.read the path for the full body)\n"@
}

/// The rows `i..end` behind what is already shown, up to the budget.
pub open spec fn echo_rows(
    lines: Seq<Seq<char>>,
    i: int,
    end: int,
    max: int,
    shown: Seq<char>,
) -> Seq<char>
    decreases end - i,
{
    if i >= end {
        shown
    } else {
        let row = numbered((i + 1) as nat, text::clip(lines[i], VIEW_LINE_CHARS as int));
        if shown.len() + row.len() > max {
            bounded(shown + row, max, echo_marker())
        } else {
            echo_rows(lines, i + 1, end, max, shown + row)
        }
    }
}

/// The after-edit echo: the changed lines of the updated text with their
/// context, numbered, inside a hard character budget.
pub open spec fn echo_of(original: Seq<char>, updated: Seq<char>, max: int) -> Seq<char> {
    if updated.len() == 0 {
        "(file is now empty)"@
    } else {
        let a = vstd::utf8::encode_utf8(original);
        let b = vstd::utf8::encode_utf8(updated);
        let lines = text::lines(updated);
        echo_rows(lines, echo_start(a, b), echo_end(a, b, lines.len() as int), max, Seq::empty())
    }
}

/// Shows what an edit made of a text, so that the next edit can be anchored
/// on it without reading the file again.
pub fn edit_echo(original: &str, updated: &str, max_chars: usize) -> (out: String)
    ensures
        out@ == echo_of(original@, updated@, max_chars as int),
{
    let (span_start, span_end) = changed_span(original, updated);
    if updated.is_empty() {
        return "(file is now empty)".to_owned();
    }
    let bytes = updated.as_bytes();
    let ghost a = vstd::utf8::encode_utf8(original@);
    let ghost b = vstd::utf8::encode_utf8(updated@);
    let first_line: usize = count_line_feed_bytes(bytes, span_start);
    let mut last_line: usize = first_line;
    if span_end > span_start {
        let mut probe: usize = span_end - 1;
        while probe > 0 && !updated.is_char_boundary(probe)
            invariant
                b == vstd::utf8::encode_utf8(updated@),
                probe <= span_end - 1,
                snap_down(b, span_end - 1) == snap_down(b, probe as int),
            decreases probe,
        {
            probe = probe - 1;
        }
        last_line = count_line_feed_bytes(bytes, probe);
        proof {
            lemma_shared_prefix(a, b, 0);
            lemma_snap_down(b, shared_prefix(a, b, 0));
            lemma_snap_down(b, span_end - 1);
            assert(span_start == 0 || vstd::utf8::is_char_boundary(b, span_start as int));
            lemma_line_feed_bytes(b, span_start as int, probe as int);
        }
    }
    let chars = text::chars_of(updated);
    let lines = text::lines_of(&chars);
    let n: usize = lines.len();
    let start: usize = if first_line >= EDIT_ECHO_CONTEXT_LINES {
        first_line - EDIT_ECHO_CONTEXT_LINES
    } else {
        0
    };
    let end: usize = if last_line < n && n - last_line > EDIT_ECHO_CONTEXT_LINES {
        last_line + 1 + EDIT_ECHO_CONTEXT_LINES
    } else {
        n
    };
    let ghost all = text::views(lines@);
    assert(start == echo_start(a, b));
    assert(end == echo_end(a, b, n as int));
    let mut out = String::new();
    let mut i: usize = start;
    while i < end
        invariant
            end <= n,
            n == lines@.len(),
            all == text::views(lines@),
            echo_rows(all, i as int, end as int, max_chars as int, out@) == echo_of(
                original@,
                updated@,
                max_chars as int,
            ),
        decreases end - i,
    {
        let clipped = text::clip_str(lines[i].as_str(), VIEW_LINE_CHARS);
        let rendered = numbered_row(i + 1, clipped.as_str());
        assert(lines@[i as int]@ == all[i as int]);
        let shown: usize = text::chars_of(out.as_str()).len();
        let more: usize = text::chars_of(rendered.as_str()).len();
        let fits = shown <= max_chars && more <= max_chars - shown;
        out.append(rendered.as_str());
        if !fits {
            return bound_chars_with_marker(
                out.as_str(),
                max_chars,
                "… (echo truncated at cap; fs.read the path for the full body)\n",
            );
        }
        i = i + 1;
    }
    out
}

proof fn lemma_echo_rows_capped(
    lines: Seq<Seq<char>>,
    i: int,
    end: int,
    max: int,
    shown: Seq<char>,
)
    requires
        shown.len() <= max,
    ensures
        echo_rows(lines, i, end, max, shown).len() <= max,
    decreases end - i,
{
    if i < end {
        let row = numbered((i + 1) as nat, text::clip(lines[i], VIEW_LINE_CHARS as int));
        if shown.len() + row.len() <= max {
            lemma_echo_rows_capped(lines, i + 1, end, max, shown + row);
        }
    }
}

/// An echo never exceeds its character budget, unless it only says that the
/// file is empty.
pub proof fn law_echo_is_capped(original: Seq<char>, updated: Seq<char>, max: int)
    requires
        0 <= max,
        updated.len() > 0,
    ensures
        echo_of(original, updated, max).len() <= max,
{
    let a = vstd::utf8::encode_utf8(original);
    let b = vstd::utf8::encode_utf8(updated);
    let lines = text::lines(updated);
    lemma_echo_rows_capped(
        lines,
        echo_start(a, b),
        echo_end(a, b, lines.len() as int),
        max,
        Seq::empty(),
    );
}

/// The changed region holds all that an edit changed: before it and behind
/// it the two texts agree.
pub proof fn law_nothing_changed_outside_the_region(original: Seq<char>, updated: Seq<char>)
    ensures
        ({
            let a = vstd::utf8::encode_utf8(original);
            let b = vstd::utf8::encode_utf8(updated);
            let (start, end) = differing(a, b);
            let tail = b.len() - end;
            &&& 0 <= start <= end <= b.len()
            &&& start <= a.len() - tail
            &&& a.take(start) == b.take(start)
            &&& a.skip(a.len() - tail) == b.skip(end)
        }),
{
    let a = vstd::utf8::encode_utf8(original);
    let b = vstd::utf8::encode_utf8(updated);
    let (start, end) = differing(a, b);
    let tail = b.len() - end;
    lemma_differing_is_a_range(a, b);
    lemma_shared_prefix(a, b, 0);
    let prefix = shared_prefix(a, b, 0);
    let max = least(a.len() as int, b.len() as int) - prefix;
    lemma_shared_suffix(a, b, 0, max);
    lemma_snap_down(b, prefix);
    lemma_snap_suffix(b, shared_suffix(a, b, 0, max));
    assert(a.take(start) =~= b.take(start));
    assert forall|j: int| 0 <= j < tail implies a.skip(a.len() - tail)[j] == b.skip(end)[j] by {
        let k = tail - 1 - j;
        assert(a[a.len() - 1 - k] == b[b.len() - 1 - k]);
    }
    assert(a.skip(a.len() - tail) =~= b.skip(end));
}

/// An echo covers everything the edit changed: every character of the
/// changed region stands on a line between the first and the last line that
/// the echo's window holds.
pub proof fn law_the_echo_covers_the_change(original: Seq<char>, updated: Seq<char>, i: int)
    requires
        ({
            let a = vstd::utf8::encode_utf8(original);
            let b = vstd::utf8::encode_utf8(updated);
            &&& differing(a, b).0 <= i < differing(a, b).1
            &&& i == 0 || vstd::utf8::is_char_boundary(b, i)
        }),
    ensures
        ({
            let a = vstd::utf8::encode_utf8(original);
            let b = vstd::utf8::encode_utf8(updated);
            let line = line_feed_bytes(b, i);
            &&& echo_start(a, b) <= first_changed_line(a, b) <= line
            &&& line <= last_changed_line(a, b)
            &&& line < text::lines(updated).len() ==> line < echo_end(
                a,
                b,
                text::lines(updated).len() as int,
            )
        }),
{
    let a = vstd::utf8::encode_utf8(original);
    let b = vstd::utf8::encode_utf8(updated);
    let (start, end) = differing(a, b);
    lemma_differing_is_a_range(a, b);
    lemma_snap_down(b, end - 1);
    lemma_line_feed_bytes(b, start, i);
    lemma_line_feed_bytes(b, i, snap_down(b, end - 1));
}

// ---------------------------------------------------------------------
// Laws over the lines
// ---------------------------------------------------------------------

/// The row of line `n`, counted from one: the number in at least six
/// characters, a bar, the first characters of the line and a line feed.
pub open spec fn row_of_line(line: Seq<char>, n: int) -> Seq<char> {
    let number = text::dec(n as nat);
    Seq::new(
        if number.len() < 6 {
            (6 - number.len()) as nat
        } else {
            0
        },
        |k: int| ' ',
    ) + number + seq![' ', '|', ' '] + (if line.len() <= 120 {
        line
    } else {
        line.take(120)
    }) + seq!['\n']
}

/// The rows of some lines by their numbers.
pub open spec fn rows_of_lines(lines: Seq<Seq<char>>, numbers: Seq<int>) -> Seq<char>
    decreases numbers.len(),
{
    if numbers.len() == 0 {
        Seq::empty()
    } else {
        rows_of_lines(lines, numbers.drop_last()) + row_of_line(
            lines[numbers.last() - 1],
            numbers.last(),
        )
    }
}

/// The numbers `from + 1` up to `to`.
pub open spec fn numbers_between(from: int, to: int) -> Seq<int> {
    Seq::new(
        if from < to {
            (to - from) as nat
        } else {
            0
        },
        |k: int| from + k + 1,
    )
}

/// A number is written behind as many spaces as make six characters, and a
/// longer one without any.
pub proof fn law_numbers_are_aligned_to_six(number: nat)
    ensures
        aligned(number).len() == if text::dec(number).len() < 6 {
            6
        } else {
            text::dec(number).len()
        },
        aligned(number).skip(aligned(number).len() - text::dec(number).len()) == text::dec(number),
        forall|k: int|
            0 <= k < aligned(number).len() - text::dec(number).len() ==> #[trigger] aligned(
                number,
            )[k] == ' ',
{
    assert(aligned(number).skip(aligned(number).len() - text::dec(number).len()) =~= text::dec(
        number,
    ));
}

proof fn lemma_row_of_line(line: Seq<char>, n: int)
    requires
        0 <= n,
    ensures
        numbered(n as nat, text::clip(line, VIEW_LINE_CHARS as int)) == row_of_line(line, n),
{
    reveal_strlit(" | ");
    reveal_strlit("\n");
    let number = text::dec(n as nat);
    assert(" | "@ =~= seq![' ', '|', ' ']);
    assert("\n"@ =~= seq!['\n']);
    assert(text::clip(line, 120) =~= if line.len() <= 120 {
        line
    } else {
        line.take(120)
    });
    assert(spaces(6 - number.len()) =~= Seq::new(
        if number.len() < 6 {
            (6 - number.len()) as nat
        } else {
            0
        },
        |k: int| ' ',
    ));
}

proof fn lemma_rows_of_lines(lines: Seq<Seq<char>>, from: int, to: int)
    requires
        0 <= from,
        to <= lines.len(),
    ensures
        rows(lines, from, to) == rows_of_lines(lines, numbers_between(from, to)),
    decreases to - from,
{
    if from < to {
        lemma_rows_of_lines(lines, from, to - 1);
        assert(numbers_between(from, to).drop_last() =~= numbers_between(from, to - 1));
        lemma_row_of_line(lines[to - 1], to);
    }
}

/// The window around a line, counted from zero, shows exactly the existing
/// lines at most two away from it, in order and under their numbers, as far as
/// they fit four hundred characters.
pub proof fn law_a_window_shows_the_lines_around_its_center(
    lines: Seq<Seq<char>>,
    center: int,
) -> (numbers: Seq<int>)
    requires
        0 <= center,
    ensures
        ({
            let all = rows_of_lines(lines, numbers);
            &&& all.len() <= 400 ==> window(lines, center) == all
            &&& all.len() > 400 ==> window(lines, center) == all.take(400)
        }),
        forall|n: int|
            #[trigger] numbers.contains(n) <==> 1 <= n <= lines.len() && center - 1 <= n <= center
                + 3,
        forall|i: int, j: int| 0 <= i < j < numbers.len() ==> numbers[i] < numbers[j],
{
    let from = window_start(center);
    let to = window_end(center, lines.len() as int);
    lemma_rows_of_lines(lines, from, to);
    let numbers = numbers_between(from, to);
    assert forall|n: int|
        1 <= n <= lines.len() && center - 1 <= n <= center + 3 implies #[trigger] numbers.contains(
        n,
    ) by {
        assert(numbers[n - from - 1] == n);
    }
    numbers
}

/// The line that a match is shown at: the one that holds the last character
/// before it, or the first where nothing stands before it.
pub proof fn law_a_match_is_shown_at_the_line_before_it(text: Seq<char>, at: int)
    requires
        0 <= at <= text.len(),
    ensures
        at == 0 ==> center_of(text, at) == 0,
        at > 0 ==> center_of(text, at) == text::feeds(text.take(at - 1)),
{
    let before = text.take(at);
    if at == 0 {
        text::law_an_empty_text_has_no_lines(before);
        assert(before =~= Seq::empty());
    } else {
        let end = text::line_feed_from(before, 0);
        text::lemma_line_feed_from(before, 0);
        text::law_lines_are_the_stretches_between_feeds(before, 0, end);
        assert(before.drop_last() =~= text.take(at - 1));
    }
}

/// The probe of an anchor is the beginning, at most forty-eight characters, of
/// its first line that is not blank; `i` is that line.
pub proof fn law_a_probe_is_the_first_written_line(needle: Seq<char>, i: int)
    requires
        0 <= i < text::lines(needle).len(),
        text::trim(text::lines(needle)[i]).len() > 0,
        forall|k: int|
            0 <= k < i ==> text::trim(#[trigger] text::lines(needle)[k]).len() == 0,
    ensures
        ({
            let line = text::lines(needle)[i];
            &&& line.len() <= 48 ==> probe(needle) == line
            &&& line.len() > 48 ==> probe(needle) == line.take(48)
        }),
{
    lemma_first_written(text::lines(needle), 0, i);
}

proof fn lemma_first_written(lines: Seq<Seq<char>>, from: int, i: int)
    requires
        0 <= from <= i < lines.len(),
        text::trim(lines[i]).len() > 0,
        forall|k: int| from <= k < i ==> text::trim(#[trigger] lines[k]).len() == 0,
    ensures
        first_written(lines, from) == Some(lines[i]),
    decreases i - from,
{
    if from < i {
        assert(text::trim(lines[from]).len() == 0);
        lemma_first_written(lines, from + 1, i);
    }
}

/// A refusal shows the first three occurrences of an anchor that occurs; of
/// one that does not, windows around the first three lines that hold its
/// probe. What the witness lists is where: occurrences, or lines.
pub proof fn law_the_candidates_are_the_first_three(text: Seq<char>, needle: Seq<char>) -> (
    at: Seq<int>)
    ensures
        candidates(text, needle).len() == at.len(),
        at.len() <= 3,
        ({
            let starts = text::match_starts(text, needle);
            let lines = text::lines(text);
            &&& starts.len() > 0 ==> {
                &&& at.is_prefix_of(starts)
                &&& at.len() == 3 || at == starts
                &&& forall|k: int|
                    0 <= k < at.len() ==> #[trigger] candidates(text, needle)[k] == window(
                        lines,
                        center_of(text, at[k]),
                    )
            }
            &&& starts.len() == 0 && text::trim(probe(needle)).len() == 0 ==> at.len() == 0
            &&& starts.len() == 0 && text::trim(probe(needle)).len() > 0 ==> {
                &&& forall|k: int|
                    0 <= k < at.len() ==> 0 <= #[trigger] at[k] < lines.len() && text::contains(
                        lines[at[k]],
                        probe(needle),
                    ) && candidates(text, needle)[k] == window(lines, at[k])
                &&& forall|i: int, j: int| 0 <= i < j < at.len() ==> at[i] < at[j]
                &&& forall|l: int|
                    0 <= l < lines.len() && text::contains(#[trigger] lines[l], probe(needle))
                        && !at.contains(l) ==> at.len() == 3 && at.last() < l
            }
        }),
{
    let starts = text::match_starts(text, needle);
    if starts.len() > 0 {
        let at = starts.take(
            if starts.len() <= 3 {
                starts.len() as int
            } else {
                3
            },
        );
        if starts.len() <= 3 {
            assert(at =~= starts);
        }
        at
    } else if text::trim(probe(needle)).len() == 0 {
        Seq::empty()
    } else {
        lemma_probe_windows(text::lines(text), probe(needle), 0, 3)
    }
}

proof fn lemma_probe_windows(lines: Seq<Seq<char>>, probe: Seq<char>, i: int, left: int) -> (at: Seq<
    int,
>)
    requires
        0 <= i <= lines.len(),
        0 <= left,
    ensures
        probe_windows(lines, probe, i, left).len() == at.len(),
        at.len() <= left,
        forall|k: int|
            0 <= k < at.len() ==> i <= #[trigger] at[k] < lines.len() && text::contains(
                lines[at[k]],
                probe,
            ) && probe_windows(lines, probe, i, left)[k] == window(lines, at[k]),
        forall|a: int, b: int| 0 <= a < b < at.len() ==> at[a] < at[b],
        forall|l: int|
            i <= l < lines.len() && text::contains(#[trigger] lines[l], probe) && !at.contains(l)
                ==> at.len() == left && (left > 0 ==> at.last() < l),
    decreases lines.len() - i,
{
    if i >= lines.len() || left <= 0 {
        Seq::empty()
    } else if text::contains(lines[i], probe) {
        let rest = lemma_probe_windows(lines, probe, i + 1, left - 1);
        let at = seq![i] + rest;
        let all = probe_windows(lines, probe, i, left);
        let later = probe_windows(lines, probe, i + 1, left - 1);
        assert forall|k: int| 0 <= k < at.len() implies i <= #[trigger] at[k] < lines.len()
            && text::contains(lines[at[k]], probe) && all[k] == window(lines, at[k]) by {
            if k > 0 {
                assert(at[k] == rest[k - 1]);
                assert(all[k] == later[k - 1]);
            }
        }
        assert forall|l: int|
            i <= l < lines.len() && text::contains(#[trigger] lines[l], probe) && !at.contains(
                l,
            ) implies at.len() == left && at.last() < l by {
            assert(at[0] == i);
            if rest.contains(l) {
                let w = choose|w: int| 0 <= w < rest.len() && rest[w] == l;
                assert(at[w + 1] == l);
            }
            if rest.len() > 0 {
                assert(at.last() == rest.last());
            }
        }
        at
    } else {
        lemma_probe_windows(lines, probe, i + 1, left)
    }
}

/// A bounded text is the text where it fits; where it does not, it is a
/// beginning of the text with the whole marker behind it, exactly as long as
/// the budget, and only a marker that fills the budget by itself is cut.
pub proof fn law_a_bounded_text_fills_its_budget(text: Seq<char>, max: int, marker: Seq<char>)
    requires
        0 <= max,
    ensures
        text.len() <= max ==> bounded(text, max, marker) == text,
        text.len() <= max ==> bounded_middle(text, max, marker) == text,
        text.len() > max ==> bounded(text, max, marker).len() == max,
        text.len() > max ==> bounded_middle(text, max, marker).len() == max,
        text.len() > max && marker.len() < max ==> {
            let out = bounded(text, max, marker);
            &&& out.take(max - marker.len()).is_prefix_of(text)
            &&& out.skip(max - marker.len()) == marker
        },
        text.len() > max && marker.len() < max ==> {
            let out = bounded_middle(text, max, marker);
            let tail = (max - marker.len()) / 2;
            let head = max - marker.len() - tail;
            &&& head == tail || head == tail + 1
            &&& out.take(head).is_prefix_of(text)
            &&& out.subrange(head, head + marker.len()) == marker
            &&& out.skip(head + marker.len()) == text.skip(text.len() - tail)
        },
        text.len() > max && marker.len() >= max ==> bounded(text, max, marker).is_prefix_of(marker)
            && bounded_middle(text, max, marker).is_prefix_of(marker),
{
    if text.len() > max && marker.len() < max {
        let out = bounded(text, max, marker);
        assert(out.take(max - marker.len()) =~= text.take(max - marker.len()));
        assert(out.skip(max - marker.len()) =~= marker);
        let both = bounded_middle(text, max, marker);
        let tail = (max - marker.len()) / 2;
        let head = max - marker.len() - tail;
        assert(both.take(head) =~= text.take(head));
        assert(both.subrange(head, head + marker.len()) =~= marker);
        assert(both.skip(head + marker.len()) =~= text.skip(text.len() - tail));
    }
}

/// The changed region is as small as it can be: no character boundary behind
/// its start still has only equal bytes before it, and none before its end
/// has only equal bytes behind it, beside those that the start already takes.
pub proof fn law_the_changed_region_is_the_smallest(a: Seq<u8>, b: Seq<u8>, at: int)
    requires
        0 <= at <= b.len(),
        vstd::utf8::is_char_boundary(b, at),
    ensures
        at > differing(a, b).0 ==> !(at <= a.len() && a.take(at) == b.take(at)),
        ({
            let tail = b.len() - at;
            at < differing(a, b).1 && tail <= a.len() - shared_prefix(a, b, 0) && at
                >= shared_prefix(a, b, 0) ==> a.skip(a.len() - tail) != b.skip(at)
        }),
{
    lemma_shared_prefix(a, b, 0);
    let prefix = shared_prefix(a, b, 0);
    lemma_shared_prefix_is_longest(a, b, 0);
    lemma_snap_down(b, prefix);
    if at > differing(a, b).0 {
        assert(at > prefix);
        if at <= a.len() && a.take(at) == b.take(at) {
            assert(a.take(at)[prefix] == b.take(at)[prefix]);
        }
    }
    let max = least(a.len() as int, b.len() as int) - prefix;
    lemma_shared_suffix(a, b, 0, max);
    let suffix = shared_suffix(a, b, 0, max);
    lemma_shared_suffix_is_longest(a, b, 0, max);
    lemma_snap_suffix_is_longest(b, suffix);
    let tail = b.len() - at;
    if at < differing(a, b).1 && tail <= a.len() - prefix && at >= prefix {
        assert(tail > suffix) by {
            if tail <= suffix {
                assert(b.len() - tail == at);
                assert(vstd::utf8::is_char_boundary(b, b.len() - tail));
                assert(tail <= snap_suffix(b, suffix));
            }
        }
        assert(tail <= max);
        if a.skip(a.len() - tail) == b.skip(at) {
            assert(a.skip(a.len() - tail)[tail - 1 - suffix] == a[a.len() - 1 - suffix]);
            assert(b.skip(at)[tail - 1 - suffix] == b[b.len() - 1 - suffix]);
        }
    }
}

proof fn lemma_shared_prefix_is_longest(a: Seq<u8>, b: Seq<u8>, i: int)
    requires
        0 <= i <= a.len(),
        i <= b.len(),
    ensures
        ({
            let p = shared_prefix(a, b, i);
            p < a.len() && p < b.len() ==> a[p] != b[p]
        }),
    decreases a.len() - i,
{
    if i < a.len() && i < b.len() && a[i] == b[i] {
        lemma_shared_prefix_is_longest(a, b, i + 1);
    }
}

proof fn lemma_shared_suffix_is_longest(a: Seq<u8>, b: Seq<u8>, k: int, max: int)
    requires
        0 <= k <= max,
    ensures
        ({
            let s = shared_suffix(a, b, k, max);
            s < max ==> a[a.len() - 1 - s] != b[b.len() - 1 - s]
        }),
    decreases max - k,
{
    if k < max && a[a.len() - 1 - k] == b[b.len() - 1 - k] {
        lemma_shared_suffix_is_longest(a, b, k + 1, max);
    }
}

proof fn lemma_snap_suffix_is_longest(bytes: Seq<u8>, k: int)
    requires
        0 <= k,
    ensures
        forall|t: int|
            0 <= t <= k && #[trigger] vstd::utf8::is_char_boundary(bytes, bytes.len() - t) ==> t
                <= snap_suffix(bytes, k),
    decreases k,
{
    if k > 0 && !vstd::utf8::is_char_boundary(bytes, bytes.len() - k) {
        lemma_snap_suffix_is_longest(bytes, k - 1);
    }
}

/// A line of a byte text is numbered by the line feeds before it.
pub proof fn law_line_feeds_are_counted(bytes: Seq<u8>, to: int)
    requires
        0 <= to <= bytes.len(),
    ensures
        line_feed_bytes(bytes, to) == bytes.take(to).filter(|b: u8| b == 10u8).len(),
    decreases to,
{
    reveal(Seq::filter);
    if to > 0 {
        law_line_feeds_are_counted(bytes, to - 1);
        assert(bytes.take(to).drop_last() =~= bytes.take(to - 1));
    } else {
        assert(bytes.take(0) =~= Seq::empty());
    }
}

/// An echo that fits its budget shows every existing line from three before
/// the first changed line to three behind the last, in order, under its
/// number and nothing else; one that does not fit is a beginning of that,
/// cut inside the first row that overruns, with the marker behind it.
pub proof fn law_an_echo_shows_the_change_and_three_lines_around(
    original: Seq<char>,
    updated: Seq<char>,
    max: int,
) -> (numbers: Seq<int>)
    requires
        0 <= max,
        updated.len() > 0,
    ensures
        ({
            let a = vstd::utf8::encode_utf8(original);
            let b = vstd::utf8::encode_utf8(updated);
            let all = rows_of_lines(text::lines(updated), numbers);
            let shown = echo_of(original, updated, max);
            &&& all.len() <= max ==> shown == all
            &&& all.len() > max && echo_marker().len() < max ==> shown.len() == max && shown.take(
                max - echo_marker().len(),
            ).is_prefix_of(all) && shown.skip(max - echo_marker().len()) == echo_marker()
            &&& forall|n: int|
                #[trigger] numbers.contains(n) <==> 1 <= n <= text::lines(updated).len()
                    && first_changed_line(a, b) - 2 <= n <= last_changed_line(a, b) + 4
            &&& forall|i: int, j: int| 0 <= i < j < numbers.len() ==> numbers[i] < numbers[j]
        }),
{
    let a = vstd::utf8::encode_utf8(original);
    let b = vstd::utf8::encode_utf8(updated);
    let lines = text::lines(updated);
    let from = echo_start(a, b);
    let to = echo_end(a, b, lines.len() as int);
    let numbers = numbers_between(from, to);
    lemma_echo_rows(lines, from, from, to, max);
    assert(rows_of_lines(lines, numbers_between(from, from)) =~= Seq::<char>::empty());
    assert forall|n: int|
        1 <= n <= lines.len() && first_changed_line(a, b) - 2 <= n <= last_changed_line(a, b)
            + 4 implies #[trigger] numbers.contains(n) by {
        assert(numbers[n - from - 1] == n);
    }
    numbers
}

proof fn lemma_echo_rows(lines: Seq<Seq<char>>, from: int, i: int, end: int, max: int)
    requires
        0 <= from <= i,
        end <= lines.len(),
        0 <= max,
        rows_of_lines(lines, numbers_between(from, i)).len() <= max,
    ensures
        ({
            let all = rows_of_lines(
                lines,
                numbers_between(
                    from,
                    if i < end {
                        end
                    } else {
                        i
                    },
                ),
            );
            let before = rows_of_lines(lines, numbers_between(from, i));
            let shown = echo_rows(lines, i, end, max, before);
            &&& before.is_prefix_of(all)
            &&& all.len() <= max ==> shown == all
            &&& all.len() > max && echo_marker().len() < max ==> shown.len() == max && shown.take(
                max - echo_marker().len(),
            ).is_prefix_of(all) && shown.skip(max - echo_marker().len()) == echo_marker()
        }),
    decreases end - i,
{
    if i < end {
        let before = rows_of_lines(lines, numbers_between(from, i));
        let row = row_of_line(lines[i], i + 1);
        lemma_row_of_line(lines[i], i + 1);
        assert(numbers_between(from, i + 1).drop_last() =~= numbers_between(from, i));
        let next = rows_of_lines(lines, numbers_between(from, i + 1));
        assert(next == before + row);
        let all = rows_of_lines(lines, numbers_between(from, end));
        if before.len() + row.len() > max {
            lemma_rows_grow(lines, from, i + 1, end);
            law_a_bounded_text_fills_its_budget(next, max, echo_marker());
            assert(next.is_prefix_of(all));
            assert(before.is_prefix_of(all)) by {
                assert(before =~= all.subrange(0, before.len() as int));
            }
            if echo_marker().len() < max {
                let shown = bounded(next, max, echo_marker());
                let cut = max - echo_marker().len();
                assert(shown.take(cut) =~= all.subrange(0, cut)) by {
                    assert(shown.take(cut).is_prefix_of(next));
                    assert forall|k: int| 0 <= k < cut implies shown.take(cut)[k] == all[k] by {
                        assert(shown.take(cut)[k] == next.subrange(0, cut)[k]);
                        assert(next[k] == all.subrange(0, next.len() as int)[k]);
                    }
                }
            }
        } else {
            lemma_echo_rows(lines, from, i + 1, end, max);
            assert(before =~= all.subrange(0, before.len() as int)) by {
                assert(next =~= all.subrange(0, next.len() as int));
                assert forall|k: int| 0 <= k < before.len() implies before[k] == all[k] by {
                    assert(next[k] == all.subrange(0, next.len() as int)[k]);
                }
            }
        }
    } else {
        let before = rows_of_lines(lines, numbers_between(from, i));
        assert(before =~= before.subrange(0, before.len() as int));
    }
}

proof fn lemma_rows_grow(lines: Seq<Seq<char>>, from: int, i: int, end: int)
    requires
        0 <= from <= i <= end,
    ensures
        rows_of_lines(lines, numbers_between(from, i)).is_prefix_of(
            rows_of_lines(lines, numbers_between(from, end)),
        ),
    decreases end - i,
{
    if i < end {
        lemma_rows_grow(lines, from, i, end - 1);
        assert(numbers_between(from, end).drop_last() =~= numbers_between(from, end - 1));
        let a = rows_of_lines(lines, numbers_between(from, i));
        let m = rows_of_lines(lines, numbers_between(from, end - 1));
        let b = rows_of_lines(lines, numbers_between(from, end));
        assert(a =~= b.subrange(0, a.len() as int)) by {
            assert forall|k: int| 0 <= k < a.len() implies a[k] == b[k] by {
                assert(m.subrange(0, a.len() as int)[k] == m[k]);
            }
        }
    } else {
        let a = rows_of_lines(lines, numbers_between(from, i));
        assert(a =~= a.subrange(0, a.len() as int));
    }
}

/// The limits of a view.
pub proof fn law_the_limits_of_a_view()
    ensures
        MAX_EDIT_CANDIDATES == 3,
        CANDIDATE_CONTEXT_LINES == 2,
        CANDIDATE_MAX_CHARS == 400,
        EDIT_ECHO_CONTEXT_LINES == 3,
        EDIT_ECHO_MAX_CHARS == 1_200,
        VIEW_LINE_CHARS == 120,
        PROBE_CHARS == 48,
        LINE_NUMBER_WIDTH == 6,
{
}

} // verus!
