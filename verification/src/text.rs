//! Text as a sequence of characters: the vocabulary every contract of the
//! crate is stated in, and the executable counterparts of it.
use vstd::prelude::*;

verus! {

/// `String::push`: appends one character to the end of the string.
pub assume_specification[ String::push ](s: &mut String, c: char)
    ensures
        final(s)@ == old(s)@.push(c),
;

// ---------------------------------------------------------------------
// Moving between strings and character vectors
// ---------------------------------------------------------------------

/// The characters of a string, in order. A vector always has an index to
/// spare, so their number stays below the largest `usize`.
pub fn chars_of(s: &str) -> (out: Vec<char>)
    ensures
        out@ == s@,
        s@.len() < usize::MAX,
{
    let mut out: Vec<char> = Vec::new();
    for c in it: s.chars()
        invariant
            it.seq() == s@,
            out@ == s@.take(it.index() as int),
    {
        out.push(c);
        assert(s@.take(it.index() as int).push(c) =~= s@.take(it.index() as int + 1));
    }
    assert(s@.take(s@.len() as int) =~= s@);
    out.push('\0');
    let with_spare: usize = out.len();
    out.pop();
    assert(out@ =~= s@);
    out
}

/// Appends characters `from..to` of `chars` to `out`.
pub fn push_range(out: &mut String, chars: &[char], from: usize, to: usize)
    requires
        from <= to <= chars@.len(),
    ensures
        final(out)@ == old(out)@ + chars@.subrange(from as int, to as int),
{
    let mut i: usize = from;
    assert(out@ =~= old(out)@ + chars@.subrange(from as int, from as int));
    while i < to
        invariant
            from <= i <= to <= chars@.len(),
            out@ == old(out)@ + chars@.subrange(from as int, i as int),
        decreases to - i,
    {
        out.push(chars[i]);
        i = i + 1;
        assert(out@ =~= old(out)@ + chars@.subrange(from as int, i as int));
    }
}

/// The string made of characters `from..to` of `chars`.
pub fn string_of_range(chars: &[char], from: usize, to: usize) -> (out: String)
    requires
        from <= to <= chars@.len(),
    ensures
        out@ == chars@.subrange(from as int, to as int),
{
    let mut out = String::new();
    push_range(&mut out, chars, from, to);
    assert(out@ =~= chars@.subrange(from as int, to as int));
    out
}

/// The string made of all of `chars`.
pub fn string_of(chars: &[char]) -> (out: String)
    ensures
        out@ == chars@,
{
    let out = string_of_range(chars, 0, chars.len());
    assert(chars@.subrange(0, chars@.len() as int) =~= chars@);
    out
}

/// The contents of each string of a list.
pub open spec fn views(list: Seq<String>) -> Seq<Seq<char>> {
    Seq::new(list.len(), |i: int| list[i]@)
}

pub proof fn lemma_views_push(list: Seq<String>, s: String)
    ensures
        views(list.push(s)) == views(list).push(s@),
{
    assert(views(list.push(s)) =~= views(list).push(s@));
}

/// Whether two strings hold the same characters.
pub fn same(a: &str, b: &str) -> (r: bool)
    ensures
        r == (a@ == b@),
{
    let x = chars_of(a);
    let y = chars_of(b);
    same_chars(&x, &y)
}

/// Whether two character slices hold the same characters.
pub fn same_chars(a: &[char], b: &[char]) -> (r: bool)
    ensures
        r == (a@ == b@),
{
    if a.len() != b.len() {
        return false;
    }
    let mut i: usize = 0;
    while i < a.len()
        invariant
            i <= a@.len(),
            a@.len() == b@.len(),
            forall|j: int| 0 <= j < i ==> a@[j] == b@[j],
        decreases a@.len() - i,
    {
        if a[i] != b[i] {
            assert(a@[i as int] != b@[i as int]);
            return false;
        }
        i = i + 1;
    }
    assert(a@ =~= b@);
    true
}

// ---------------------------------------------------------------------
// Length in UTF-8 bytes
// ---------------------------------------------------------------------

/// How many bytes UTF-8 spends on one character.
pub open spec fn char_width(c: char) -> nat {
    if c as u32 <= 0x7f {
        1
    } else if c as u32 <= 0x7ff {
        2
    } else if c as u32 <= 0xffff {
        3
    } else {
        4
    }
}

/// How many bytes UTF-8 spends on a text: the length Rust reports for it.
pub open spec fn byte_len(s: Seq<char>) -> nat
    decreases s.len(),
{
    if s.len() == 0 {
        0
    } else {
        byte_len(s.drop_last()) + char_width(s.last())
    }
}

pub proof fn lemma_byte_len_concat(a: Seq<char>, b: Seq<char>)
    ensures
        byte_len(a + b) == byte_len(a) + byte_len(b),
    decreases b.len(),
{
    if b.len() == 0 {
        assert(a + b =~= a);
    } else {
        assert((a + b).drop_last() =~= a + b.drop_last());
        lemma_byte_len_concat(a, b.drop_last());
    }
}

pub proof fn lemma_byte_len_push(s: Seq<char>, c: char)
    ensures
        byte_len(s.push(c)) == byte_len(s) + char_width(c),
{
    assert(s.push(c).drop_last() =~= s);
}

/// A prefix is no longer than the text it was cut from, and shorter when
/// something was cut off.
pub proof fn lemma_byte_len_take(s: Seq<char>, n: int)
    requires
        0 <= n <= s.len(),
    ensures
        byte_len(s.take(n)) <= byte_len(s),
        n < s.len() ==> byte_len(s.take(n)) < byte_len(s),
        byte_len(s) == byte_len(s.take(n)) + byte_len(s.skip(n)),
        n <= byte_len(s.take(n)),
{
    assert(s =~= s.take(n) + s.skip(n));
    lemma_byte_len_concat(s.take(n), s.skip(n));
    lemma_byte_len_at_least_len(s.skip(n));
    lemma_byte_len_at_least_len(s.take(n));
}

pub proof fn lemma_byte_len_at_least_len(s: Seq<char>)
    ensures
        s.len() <= byte_len(s) <= 4 * s.len(),
    decreases s.len(),
{
    if s.len() > 0 {
        lemma_byte_len_at_least_len(s.drop_last());
    }
}

/// `byte_len` is the length of the UTF-8 encoding.
pub proof fn lemma_byte_len_is_utf8(s: Seq<char>)
    ensures
        byte_len(s) == vstd::utf8::encode_utf8(s).len(),
    decreases s.len(),
{
    if s.len() > 0 {
        let rest = s.drop_first();
        lemma_byte_len_is_utf8(rest);
        assert(s =~= seq![s[0]] + rest);
        lemma_byte_len_concat(seq![s[0]], rest);
        lemma_byte_len_push(Seq::empty(), s[0]);
        assert(seq![s[0]] =~= Seq::<char>::empty().push(s[0]));
        vstd::utf8::char_is_scalar(s[0]);
        assert(vstd::utf8::encode_scalar(s[0] as u32).len() == char_width(s[0]));
    }
}

/// The width of one character in UTF-8.
pub fn width_of(c: char) -> (w: usize)
    ensures
        w == char_width(c),
{
    let v: u32 = c as u32;
    if v <= 0x7f {
        1
    } else if v <= 0x7ff {
        2
    } else if v <= 0xffff {
        3
    } else {
        4
    }
}

/// The length of a string in bytes.
pub fn bytes_in(s: &str) -> (n: usize)
    ensures
        n == byte_len(s@),
{
    proof {
        lemma_byte_len_is_utf8(s@);
    }
    s.as_bytes().len()
}

// ---------------------------------------------------------------------
// Decimal numbers
// ---------------------------------------------------------------------

/// The decimal digit `d`.
pub open spec fn digit(d: nat) -> char {
    (48 + d) as char
}

/// A number in decimal, without leading zeros.
pub open spec fn dec(n: nat) -> Seq<char>
    decreases n,
{
    if n < 10 {
        seq![digit(n)]
    } else {
        dec(n / 10).push(digit(n % 10))
    }
}

/// Appends `n` in decimal.
pub fn push_dec(out: &mut String, n: u64)
    ensures
        final(out)@ == old(out)@ + dec(n as nat),
    decreases n,
{
    if n >= 10 {
        push_dec(out, n / 10);
    }
    let d: u8 = (n % 10) as u8;
    out.push((48u8 + d) as char);
    assert(out@ =~= old(out)@ + dec(n as nat));
}

/// `n` in decimal.
pub fn dec_string(n: u64) -> (out: String)
    ensures
        out@ == dec(n as nat),
{
    let mut out = String::new();
    push_dec(&mut out, n);
    assert(out@ =~= dec(n as nat));
    out
}

/// The value of a run of decimal digits, `None` where some character is no
/// digit.
pub open spec fn digits_value(s: Seq<char>) -> Option<nat>
    decreases s.len(),
{
    if s.len() == 0 {
        Some(0nat)
    } else {
        match digits_value(s.drop_last()) {
            Some(v) => if '0' <= s.last() <= '9' {
                Some((v * 10 + (s.last() as u32 - 48)) as nat)
            } else {
                None
            },
            None => None,
        }
    }
}

/// The digits of a written number: what follows one optional leading `+`.
pub open spec fn unsigned_digits(s: Seq<char>) -> Seq<char> {
    if s.len() > 0 && s[0] == '+' {
        s.drop_first()
    } else {
        s
    }
}

/// The number that `s` spells as an unsigned decimal no larger than `max`:
/// at least one digit, nothing but digits behind one optional `+`.
pub open spec fn parse_unsigned(s: Seq<char>, max: nat) -> Option<nat> {
    let digits = unsigned_digits(s);
    if digits.len() == 0 {
        None
    } else {
        match digits_value(digits) {
            Some(v) => if v <= max {
                Some(v)
            } else {
                None
            },
            None => None,
        }
    }
}

proof fn lemma_digits_value_prefix(s: Seq<char>, n: int)
    requires
        0 <= n <= s.len(),
    ensures
        digits_value(s.take(n)) is None ==> digits_value(s) is None,
        digits_value(s) matches Some(v) ==> digits_value(s.take(n)) matches Some(w) && w <= v,
    decreases s.len() - n,
{
    if n < s.len() {
        lemma_digits_value_prefix(s, n + 1);
        assert(s.take(n + 1).drop_last() =~= s.take(n));
    } else {
        assert(s.take(n) =~= s);
    }
}

/// Reads characters `from..` as an unsigned decimal of at most `max`.
pub fn parse_bounded(chars: &[char], max: u64) -> (r: Option<u64>)
    ensures
        match r {
            Some(v) => parse_unsigned(chars@, max as nat) == Some(v as nat),
            None => parse_unsigned(chars@, max as nat) is None,
        },
{
    let from: usize = if chars.len() > 0 && chars[0] == '+' {
        1
    } else {
        0
    };
    let ghost digits = unsigned_digits(chars@);
    assert(digits =~= chars@.skip(from as int));
    if from == chars.len() {
        return None;
    }
    let mut value: u64 = 0;
    let mut i: usize = from;
    assert(digits.take(0) =~= Seq::<char>::empty());
    while i < chars.len()
        invariant
            from <= i <= chars@.len(),
            digits == chars@.skip(from as int),
            digits == unsigned_digits(chars@),
            digits.len() > 0,
            value <= max,
            digits_value(digits.take(i - from)) == Some(value as nat),
        decreases chars@.len() - i,
    {
        let c: char = chars[i];
        proof {
            assert(digits.take(i - from + 1).drop_last() =~= digits.take(i - from));
            assert(digits.take(i - from + 1).last() == c);
            lemma_digits_value_prefix(digits, i - from + 1);
        }
        if c < '0' || c > '9' {
            return None;
        }
        let d: u64 = (c as u32 - 48) as u64;
        if value > max / 10 {
            assert(value * 10 + d > max);
            return None;
        }
        if d > max - value * 10 {
            return None;
        }
        value = value * 10 + d;
        i = i + 1;
    }
    assert(digits.take(digits.len() as int) =~= digits);
    Some(value)
}

/// Reading back a written number gives the number.
pub proof fn lemma_parse_of_dec(n: nat)
    ensures
        dec(n).len() > 0,
        dec(n)[0] != '+',
        digits_value(dec(n)) == Some(n),
        forall|i: int| 0 <= i < dec(n).len() ==> '0' <= #[trigger] dec(n)[i] <= '9',
    decreases n,
{
    if n < 10 {
        assert(dec(n).drop_last() =~= Seq::<char>::empty());
        assert(digits_value(Seq::<char>::empty()) == Some(0nat));
    } else {
        lemma_parse_of_dec(n / 10);
        assert(dec(n).drop_last() =~= dec(n / 10));
    }
}

// ---------------------------------------------------------------------
// Finding one text in another
// ---------------------------------------------------------------------

/// `needle` stands in `text` at character `i`.
pub open spec fn occurs_at(text: Seq<char>, needle: Seq<char>, i: int) -> bool {
    &&& 0 <= i
    &&& i + needle.len() <= text.len()
    &&& text.subrange(i, i + needle.len()) == needle
}

/// `needle` stands somewhere in `text`.
pub open spec fn contains(text: Seq<char>, needle: Seq<char>) -> bool {
    exists|i: int| occurs_at(text, needle, i)
}

/// The distance from one occurrence to where the search for the next one
/// starts: an occurrence is never overlapped, and an empty one advances.
pub open spec fn stride(needle: Seq<char>) -> int {
    if needle.len() == 0 {
        1
    } else {
        needle.len() as int
    }
}

/// Where the occurrences of `needle` start, leftmost first and without
/// overlap, from character `from` on.
pub open spec fn matches_from(text: Seq<char>, needle: Seq<char>, from: int) -> Seq<int>
    decreases text.len() + 1 - from,
{
    if from < 0 || from + needle.len() > text.len() {
        Seq::empty()
    } else if occurs_at(text, needle, from) {
        seq![from] + matches_from(text, needle, from + stride(needle))
    } else {
        matches_from(text, needle, from + 1)
    }
}

/// Where the occurrences of `needle` start in the whole of `text`.
pub open spec fn match_starts(text: Seq<char>, needle: Seq<char>) -> Seq<int> {
    matches_from(text, needle, 0)
}

/// Each listed start is an occurrence, and two of them are a whole needle
/// apart.
pub proof fn lemma_matches_from(text: Seq<char>, needle: Seq<char>, from: int)
    requires
        0 <= from,
    ensures
        forall|k: int|
            0 <= k < matches_from(text, needle, from).len() ==> occurs_at(
                text,
                needle,
                #[trigger] matches_from(text, needle, from)[k],
            ) && from <= matches_from(text, needle, from)[k],
        forall|j: int, k: int|
            0 <= j < k < matches_from(text, needle, from).len() ==> #[trigger] matches_from(
                text,
                needle,
                from,
            )[j] + stride(needle) <= #[trigger] matches_from(text, needle, from)[k],
        matches_from(text, needle, from).len() <= if from <= text.len() {
            text.len() - from + 1
        } else {
            0
        },
    decreases text.len() + 1 - from,
{
    if from + needle.len() > text.len() {
    } else if occurs_at(text, needle, from) {
        lemma_matches_from(text, needle, from + stride(needle));
    } else {
        lemma_matches_from(text, needle, from + 1);
    }
}

/// An occurrence at or behind `from` means that the list is not empty.
pub proof fn lemma_occurrence_is_listed(text: Seq<char>, needle: Seq<char>, from: int, i: int)
    requires
        0 <= from <= i,
        occurs_at(text, needle, i),
    ensures
        matches_from(text, needle, from).len() > 0,
    decreases i - from,
{
    if !occurs_at(text, needle, from) {
        lemma_occurrence_is_listed(text, needle, from + 1, i);
    }
}

/// Whether `needle` stands in `text` at character `i`.
pub fn is_at(text: &[char], needle: &[char], i: usize) -> (r: bool)
    ensures
        r == occurs_at(text@, needle@, i as int),
{
    let n: usize = text.len();
    if i > n || needle.len() > n - i {
        return false;
    }
    let mut j: usize = 0;
    while j < needle.len()
        invariant
            n == text@.len(),
            i + needle@.len() <= n,
            j <= needle@.len(),
            forall|k: int| 0 <= k < j ==> text@[i + k] == needle@[k],
        decreases needle@.len() - j,
    {
        if text[i + j] != needle[j] {
            assert(text@.subrange(i as int, i + needle@.len())[j as int] != needle@[j as int]);
            return false;
        }
        j = j + 1;
    }
    assert(text@.subrange(i as int, i + needle@.len()) =~= needle@);
    true
}

/// Whether `needle` stands somewhere in `text`.
pub fn has(text: &[char], needle: &[char]) -> (r: bool)
    ensures
        r == contains(text@, needle@),
{
    if needle.len() > text.len() {
        return false;
    }
    let last: usize = text.len() - needle.len();
    let mut i: usize = 0;
    while i <= last
        invariant
            last == text@.len() - needle@.len(),
            i <= last + 1,
            forall|k: int| 0 <= k < i ==> !occurs_at(text@, needle@, k),
        decreases last + 1 - i,
    {
        if is_at(text, needle, i) {
            return true;
        }
        if i == last {
            assert(forall|k: int| !occurs_at(text@, needle@, k));
            return false;
        }
        i = i + 1;
    }
    false
}

/// Whether one string holds another.
pub fn str_has(text: &str, needle: &str) -> (r: bool)
    ensures
        r == contains(text@, needle@),
{
    let t = chars_of(text);
    let n = chars_of(needle);
    has(&t, &n)
}

/// Whether a text holds a given character.
pub fn has_char(text: &[char], c: char) -> (r: bool)
    ensures
        r == text@.contains(c),
{
    let mut i: usize = 0;
    while i < text.len()
        invariant
            i <= text@.len(),
            forall|k: int| 0 <= k < i ==> text@[k] != c,
        decreases text@.len() - i,
    {
        if text[i] == c {
            assert(text@[i as int] == c);
            return true;
        }
        i = i + 1;
    }
    false
}

/// Where the occurrences of `needle` start.
pub fn find_all(text: &[char], needle: &[char]) -> (out: Vec<usize>)
    ensures
        out@.len() == match_starts(text@, needle@).len(),
        forall|k: int| 0 <= k < out@.len() ==> out@[k] == match_starts(text@, needle@)[k],
{
    let mut out: Vec<usize> = Vec::new();
    let step: usize = if needle.len() == 0 {
        1
    } else {
        needle.len()
    };
    let n: usize = text.len();
    let mut i: usize = 0;
    let ghost all = match_starts(text@, needle@);
    assert(all =~= all.take(0) + matches_from(text@, needle@, 0));
    while i <= n && needle.len() <= n - i
        invariant_except_break
            out@.len() <= all.len(),
            all == all.take(out@.len() as int) + matches_from(text@, needle@, i as int),
            i <= n,
        invariant
            n == text@.len(),
            step == stride(needle@),
            all == match_starts(text@, needle@),
            forall|k: int| 0 <= k < out@.len() ==> out@[k] == all[k],
        ensures
            out@.len() == all.len(),
        decreases n - i,
    {
        let ghost rest = matches_from(text@, needle@, i as int);
        let ghost done = out@.len() as int;
        if is_at(text, needle, i) {
            proof {
                let tail = matches_from(text@, needle@, i + stride(needle@));
                assert(rest == seq![i as int] + tail);
                assert(all[done] == i);
                assert(all.take(done + 1) =~= all.take(done).push(i as int));
                assert(all =~= all.take(done + 1) + tail);
            }
            out.push(i);
            if i == n {
                assert(matches_from(text@, needle@, n + 1) =~= Seq::<int>::empty());
                break;
            }
            i = i + step;
        } else {
            if i == n {
                assert(matches_from(text@, needle@, n + 1) =~= Seq::<int>::empty());
                assert(rest.len() == 0);
                break;
            }
            i = i + 1;
        }
    }
    out
}

// ---------------------------------------------------------------------
// Lines
// ---------------------------------------------------------------------

/// The first line feed at or behind character `i`, or the length of the text
/// where there is none.
pub open spec fn line_feed_from(s: Seq<char>, i: int) -> int
    decreases s.len() - i,
{
    if i < 0 || i >= s.len() {
        s.len() as int
    } else if s[i] == '\n' {
        i
    } else {
        line_feed_from(s, i + 1)
    }
}

pub proof fn lemma_line_feed_from(s: Seq<char>, i: int)
    requires
        0 <= i <= s.len(),
    ensures
        i <= line_feed_from(s, i) <= s.len(),
        line_feed_from(s, i) < s.len() ==> s[line_feed_from(s, i)] == '\n',
        forall|k: int| i <= k < line_feed_from(s, i) ==> s[k] != '\n',
    decreases s.len() - i,
{
    if i < s.len() && s[i] != '\n' {
        lemma_line_feed_from(s, i + 1);
    }
}

/// A line without the carriage return that belongs to its line break.
pub open spec fn without_cr(line: Seq<char>) -> Seq<char> {
    if line.len() > 0 && line.last() == '\r' {
        line.drop_last()
    } else {
        line
    }
}

/// The lines of the text from character `from` on. A line break is a line
/// feed with the carriage return before it, if there is one; a break at the
/// very end opens no further line.
pub open spec fn lines_from(s: Seq<char>, from: int) -> Seq<Seq<char>>
    decreases s.len() - from,
{
    if from < 0 || from >= s.len() {
        Seq::empty()
    } else {
        let end = line_feed_from(s, from);
        if from <= end < s.len() {
            seq![without_cr(s.subrange(from, end))] + lines_from(s, end + 1)
        } else {
            seq![s.subrange(from, s.len() as int)]
        }
    }
}

/// The lines of a text.
pub open spec fn lines(s: Seq<char>) -> Seq<Seq<char>> {
    lines_from(s, 0)
}

pub proof fn lemma_lines_from_bound(s: Seq<char>, from: int)
    requires
        0 <= from <= s.len(),
    ensures
        lines_from(s, from).len() <= s.len() - from,
    decreases s.len() - from,
{
    if from < s.len() {
        lemma_line_feed_from(s, from);
        let end = line_feed_from(s, from);
        if end < s.len() {
            lemma_lines_from_bound(s, end + 1);
        }
    }
}

/// The first line feed at or behind character `i`, or the length.
pub fn find_line_feed(text: &[char], i: usize) -> (r: usize)
    requires
        i <= text@.len(),
    ensures
        r == line_feed_from(text@, i as int),
        i <= r <= text@.len(),
{
    let mut j: usize = i;
    while j < text.len() && text[j] != '\n'
        invariant
            i <= j <= text@.len(),
            line_feed_from(text@, i as int) == line_feed_from(text@, j as int),
        decreases text@.len() - j,
    {
        j = j + 1;
    }
    j
}

/// The lines of a text, each as a string of its own.
pub fn lines_of(text: &[char]) -> (out: Vec<String>)
    ensures
        views(out@) == lines(text@),
{
    let mut out: Vec<String> = Vec::new();
    let mut i: usize = 0;
    let n: usize = text.len();
    assert(views(out@) + lines_from(text@, 0) =~= lines(text@));
    while i < n
        invariant
            n == text@.len(),
            i <= n,
            views(out@) + lines_from(text@, i as int) == lines(text@),
        decreases n - i,
    {
        let end: usize = find_line_feed(text, i);
        let ghost before = out@;
        let ghost rest = lines_from(text@, i as int);
        if end < n {
            let stop: usize = if end > i && text[end - 1] == '\r' {
                end - 1
            } else {
                end
            };
            let line = string_of_range(text, i, stop);
            proof {
                assert(line@ =~= without_cr(text@.subrange(i as int, end as int)));
                lemma_views_push(out@, line);
                assert(rest == seq![line@] + lines_from(text@, end + 1));
                assert(views(out@.push(line)) + lines_from(text@, end + 1) =~= views(out@) + rest);
            }
            out.push(line);
            i = end + 1;
        } else {
            let line = string_of_range(text, i, n);
            proof {
                lemma_views_push(out@, line);
                assert(rest == seq![line@]);
                assert(views(out@.push(line)) + lines_from(text@, n as int) =~= views(out@) + rest);
            }
            out.push(line);
            i = n;
        }
    }
    assert(views(out@) =~= lines(text@));
    out
}

// ---------------------------------------------------------------------
// Cutting, joining, replacing
// ---------------------------------------------------------------------

/// The first `n` characters, or all of them where there are fewer.
pub open spec fn clip(s: Seq<char>, n: int) -> Seq<char> {
    if s.len() <= n {
        s
    } else {
        s.take(n)
    }
}

/// The first `n` characters of a string.
pub fn clip_str(s: &str, n: usize) -> (out: String)
    ensures
        out@ == clip(s@, n as int),
{
    let chars = chars_of(s);
    if chars.len() <= n {
        string_of(&chars)
    } else {
        let out = string_of_range(&chars, 0, n);
        assert(out@ =~= s@.take(n as int));
        out
    }
}

/// The longest prefix of at most `limit` bytes that ends between two
/// characters.
pub open spec fn clip_bytes(s: Seq<char>, limit: int) -> Seq<char>
    decreases s.len(),
{
    if s.len() == 0 || byte_len(s) <= limit {
        s
    } else {
        clip_bytes(s.drop_last(), limit)
    }
}

pub proof fn lemma_clip_bytes(s: Seq<char>, limit: int)
    requires
        0 <= limit,
    ensures
        byte_len(clip_bytes(s, limit)) <= limit,
        clip_bytes(s, limit).len() <= s.len(),
        clip_bytes(s, limit) == s.take(clip_bytes(s, limit).len() as int),
    decreases s.len(),
{
    if s.len() == 0 || byte_len(s) <= limit {
        assert(s.take(s.len() as int) =~= s);
    } else {
        lemma_clip_bytes(s.drop_last(), limit);
        let k = clip_bytes(s, limit).len() as int;
        assert(s.drop_last().take(k) =~= s.take(k));
    }
}

/// The longest prefix of at most `limit` bytes.
pub fn clip_bytes_str(s: &str, limit: usize) -> (out: String)
    ensures
        out@ == clip_bytes(s@, limit as int),
        byte_len(out@) <= limit,
{
    let chars = chars_of(s);
    let mut size: usize = bytes_in(s);
    let mut end: usize = chars.len();
    assert(chars@.take(end as int) =~= s@);
    while end > 0 && size > limit
        invariant
            chars@ == s@,
            end <= chars@.len(),
            size == byte_len(chars@.take(end as int)),
            clip_bytes(s@, limit as int) == clip_bytes(chars@.take(end as int), limit as int),
        decreases end,
    {
        assert(chars@.take(end as int).drop_last() =~= chars@.take(end - 1));
        assert(chars@.take(end as int).last() == chars@[end - 1]);
        size = size - width_of(chars[end - 1]);
        end = end - 1;
    }
    proof {
        lemma_clip_bytes(s@, limit as int);
        assert(chars@.subrange(0, end as int) =~= chars@.take(end as int));
    }
    string_of_range(&chars, 0, end)
}

/// The parts of a list with `sep` between each two.
pub open spec fn join(parts: Seq<Seq<char>>, sep: Seq<char>) -> Seq<char>
    decreases parts.len(),
{
    if parts.len() == 0 {
        Seq::empty()
    } else if parts.len() == 1 {
        parts[0]
    } else {
        join(parts.drop_last(), sep) + sep + parts.last()
    }
}

/// The strings of a list with `sep` between each two.
pub fn join_strings(parts: &Vec<String>, sep: &str) -> (out: String)
    ensures
        out@ == join(views(parts@), sep@),
{
    let mut out = String::new();
    let mut i: usize = 0;
    let ghost all = views(parts@);
    assert(all.take(0) =~= Seq::<Seq<char>>::empty());
    while i < parts.len()
        invariant
            i <= parts@.len(),
            all == views(parts@),
            out@ == join(all.take(i as int), sep@),
        decreases parts@.len() - i,
    {
        assert(all.take(i + 1).drop_last() =~= all.take(i as int));
        let ghost before = out@;
        if i > 0 {
            out.append(sep);
        }
        out.append(parts[i].as_str());
        assert(out@ =~= join(all.take(i + 1), sep@));
        i = i + 1;
    }
    assert(all.take(all.len() as int) =~= all);
    out
}

/// What is left of the text from character `i` on when every occurrence of
/// `from` gives way to `to`.
pub open spec fn replaced_from(s: Seq<char>, from: Seq<char>, to: Seq<char>, i: int) -> Seq<char>
    decreases s.len() - i,
{
    if i < 0 || i >= s.len() {
        Seq::empty()
    } else if from.len() > 0 && occurs_at(s, from, i) {
        to + replaced_from(s, from, to, i + from.len())
    } else {
        seq![s[i]] + replaced_from(s, from, to, i + 1)
    }
}

/// The text with every (leftmost, non-overlapping) occurrence of `from`
/// replaced by `to`.
pub open spec fn replaced(s: Seq<char>, from: Seq<char>, to: Seq<char>) -> Seq<char> {
    replaced_from(s, from, to, 0)
}

/// Replaces every occurrence of a non-empty `from`.
pub fn replace_all(s: &[char], from: &[char], to: &[char]) -> (out: String)
    requires
        from@.len() > 0,
    ensures
        out@ == replaced(s@, from@, to@),
{
    let mut out = String::new();
    let mut i: usize = 0;
    let n: usize = s.len();
    assert(out@ + replaced_from(s@, from@, to@, 0) =~= replaced(s@, from@, to@));
    while i < n
        invariant
            n == s@.len(),
            i <= n,
            from@.len() > 0,
            out@ + replaced_from(s@, from@, to@, i as int) == replaced(s@, from@, to@),
        decreases n - i,
    {
        let ghost before = out@;
        if is_at(s, from, i) {
            push_range(&mut out, to, 0, to.len());
            proof {
                assert(to@.subrange(0, to@.len() as int) =~= to@);
                assert(out@ + replaced_from(s@, from@, to@, i + from@.len()) =~= before
                    + replaced_from(s@, from@, to@, i as int));
            }
            i = i + from.len();
        } else {
            out.push(s[i]);
            assert(out@ + replaced_from(s@, from@, to@, i + 1) =~= before + replaced_from(
                s@,
                from@,
                to@,
                i as int,
            ));
            i = i + 1;
        }
    }
    assert(out@ =~= replaced(s@, from@, to@));
    out
}

proof fn lemma_replaced_from_bytes(s: Seq<char>, from: Seq<char>, to: Seq<char>, i: int)
    requires
        0 <= i <= s.len(),
        from.len() > 0,
    ensures
        byte_len(replaced_from(s, from, to, i)) == byte_len(s.skip(i)) + (byte_len(to) - byte_len(
            from,
        )) * matches_from(s, from, i).len(),
    decreases s.len() - i,
{
    let d = byte_len(to) - byte_len(from);
    let rest = s.skip(i);
    if i == s.len() {
        assert(rest =~= Seq::<char>::empty());
        assert(d * 0 == 0);
    } else if occurs_at(s, from, i) {
        let next = i + from.len();
        lemma_replaced_from_bytes(s, from, to, next);
        lemma_byte_len_concat(to, replaced_from(s, from, to, next));
        assert(rest =~= from + s.skip(next));
        lemma_byte_len_concat(from, s.skip(next));
        let k = matches_from(s, from, next).len() as int;
        assert(matches_from(s, from, i).len() == k + 1);
        assert(d * (k + 1) == d * k + d) by (nonlinear_arith);
    } else {
        lemma_replaced_from_bytes(s, from, to, i + 1);
        lemma_byte_len_concat(seq![s[i]], replaced_from(s, from, to, i + 1));
        assert(rest =~= seq![s[i]] + s.skip(i + 1));
        lemma_byte_len_concat(seq![s[i]], s.skip(i + 1));
        if i + from.len() > s.len() {
            assert(matches_from(s, from, i + 1).len() == 0);
        }
    }
}

/// Replacing every occurrence changes the length by the difference of the
/// two texts, once per occurrence.
pub proof fn lemma_replaced_bytes(s: Seq<char>, from: Seq<char>, to: Seq<char>)
    requires
        from.len() > 0,
    ensures
        byte_len(replaced(s, from, to)) == byte_len(s) + (byte_len(to) - byte_len(from))
            * match_starts(s, from).len(),
{
    lemma_replaced_from_bytes(s, from, to, 0);
    assert(s.skip(0) =~= s);
}

/// A text ends with another.
pub open spec fn ends_with(s: Seq<char>, end: Seq<char>) -> bool {
    s.len() >= end.len() && s.skip(s.len() - end.len()) == end
}

/// A text starts with another.
pub open spec fn starts_with(s: Seq<char>, start: Seq<char>) -> bool {
    s.len() >= start.len() && s.take(start.len() as int) == start
}

/// Whether one string ends with another.
pub fn str_ends_with(s: &str, end: &str) -> (r: bool)
    ensures
        r == ends_with(s@, end@),
{
    let a = chars_of(s);
    let b = chars_of(end);
    if a.len() < b.len() {
        return false;
    }
    let at: usize = a.len() - b.len();
    assert(a@.subrange(at as int, a@.len() as int) =~= a@.skip(at as int));
    is_at(&a, &b, at)
}

/// Whether one string starts with another.
pub fn str_starts_with(s: &str, start: &str) -> (r: bool)
    ensures
        r == starts_with(s@, start@),
{
    let a = chars_of(s);
    let b = chars_of(start);
    if a.len() < b.len() {
        return false;
    }
    assert(a@.subrange(0, b@.len() as int) =~= a@.take(b@.len() as int));
    is_at(&a, &b, 0)
}

/// Where character `c` first stands at or behind `i`, or the length of the
/// text where it does not.
pub open spec fn char_from(s: Seq<char>, c: char, i: int) -> int
    decreases s.len() - i,
{
    if i < 0 || i >= s.len() {
        s.len() as int
    } else if s[i] == c {
        i
    } else {
        char_from(s, c, i + 1)
    }
}

pub proof fn lemma_char_from(s: Seq<char>, c: char, i: int)
    requires
        0 <= i <= s.len(),
    ensures
        i <= char_from(s, c, i) <= s.len(),
        char_from(s, c, i) < s.len() ==> s[char_from(s, c, i)] == c,
        forall|k: int| i <= k < char_from(s, c, i) ==> #[trigger] s[k] != c,
    decreases s.len() - i,
{
    if i < s.len() && s[i] != c {
        lemma_char_from(s, c, i + 1);
    }
}

/// Where a character first stands at or behind `i`, or the length.
pub fn find_char(s: &[char], c: char, i: usize) -> (r: usize)
    requires
        i <= s@.len(),
    ensures
        r == char_from(s@, c, i as int),
        i <= r <= s@.len(),
        r < s@.len() ==> s@[r as int] == c,
        forall|k: int| i <= k < r ==> s@[k] != c,
{
    let mut j: usize = i;
    while j < s.len() && s[j] != c
        invariant
            i <= j <= s@.len(),
            char_from(s@, c, i as int) == char_from(s@, c, j as int),
            forall|k: int| i <= k < j ==> s@[k] != c,
        decreases s@.len() - j,
    {
        j = j + 1;
    }
    j
}

/// A signed number in decimal.
pub open spec fn signed_dec(n: int) -> Seq<char> {
    if n < 0 {
        "-"@ + dec((-n) as nat)
    } else {
        dec(n as nat)
    }
}

/// Appends a signed number in decimal.
pub fn push_signed(out: &mut String, n: i32)
    ensures
        final(out)@ == old(out)@ + signed_dec(n as int),
{
    if n < 0 {
        out.append("-");
        let size: u64 = (-(n as i64)) as u64;
        push_dec(out, size);
        assert(out@ =~= old(out)@ + ("-"@ + dec((-n) as nat)));
    } else {
        push_dec(out, n as u64);
    }
}

// ---------------------------------------------------------------------
// White space and letter case
// ---------------------------------------------------------------------

/// The characters with Unicode's `White_Space` property.
pub open spec fn is_space(c: char) -> bool {
    ||| '\u{9}' <= c <= '\u{d}'
    ||| c == '\u{20}'
    ||| c == '\u{85}'
    ||| c == '\u{a0}'
    ||| c == '\u{1680}'
    ||| '\u{2000}' <= c <= '\u{200a}'
    ||| c == '\u{2028}'
    ||| c == '\u{2029}'
    ||| c == '\u{202f}'
    ||| c == '\u{205f}'
    ||| c == '\u{3000}'
}

/// Whether a character is white space.
pub fn space(c: char) -> (r: bool)
    ensures
        r == is_space(c),
{
    ('\u{9}' <= c && c <= '\u{d}') || c == '\u{20}' || c == '\u{85}' || c == '\u{a0}' || c
        == '\u{1680}' || ('\u{2000}' <= c && c <= '\u{200a}') || c == '\u{2028}' || c == '\u{2029}'
        || c == '\u{202f}' || c == '\u{205f}' || c == '\u{3000}'
}

/// A text without its leading white space.
pub open spec fn trim_start(s: Seq<char>) -> Seq<char>
    decreases s.len(),
{
    if s.len() > 0 && is_space(s[0]) {
        trim_start(s.drop_first())
    } else {
        s
    }
}

/// A text without its trailing white space.
pub open spec fn trim_end(s: Seq<char>) -> Seq<char>
    decreases s.len(),
{
    if s.len() > 0 && is_space(s.last()) {
        trim_end(s.drop_last())
    } else {
        s
    }
}

/// A text without white space at its two ends.
pub open spec fn trim(s: Seq<char>) -> Seq<char> {
    trim_end(trim_start(s))
}

/// Where the white space at the start of `chars[..to]` ends.
pub fn skip_space(chars: &[char], to: usize) -> (i: usize)
    requires
        to <= chars@.len(),
    ensures
        i <= to,
        chars@.subrange(i as int, to as int) == trim_start(chars@.take(to as int)),
{
    let mut i: usize = 0;
    assert(chars@.subrange(0, to as int) =~= chars@.take(to as int));
    while i < to && space(chars[i])
        invariant
            i <= to <= chars@.len(),
            trim_start(chars@.subrange(i as int, to as int)) == trim_start(chars@.take(to as int)),
        decreases to - i,
    {
        assert(chars@.subrange(i as int, to as int).drop_first() =~= chars@.subrange(
            i + 1,
            to as int,
        ));
        i = i + 1;
    }
    i
}

/// Where the white space at the end of `chars[from..]` starts.
pub fn before_space(chars: &[char], from: usize) -> (end: usize)
    requires
        from <= chars@.len(),
    ensures
        from <= end <= chars@.len(),
        chars@.subrange(from as int, end as int) == trim_end(chars@.skip(from as int)),
{
    let mut end: usize = chars.len();
    assert(chars@.subrange(from as int, end as int) =~= chars@.skip(from as int));
    while end > from && space(chars[end - 1])
        invariant
            from <= end <= chars@.len(),
            trim_end(chars@.subrange(from as int, end as int)) == trim_end(chars@.skip(from as int)),
        decreases end,
    {
        assert(chars@.subrange(from as int, end as int).drop_last() =~= chars@.subrange(
            from as int,
            end - 1,
        ));
        end = end - 1;
    }
    end
}

/// The string without trailing white space.
pub fn trim_end_str(s: &str) -> (out: String)
    ensures
        out@ == trim_end(s@),
{
    let chars = chars_of(s);
    let end: usize = before_space(&chars, 0);
    assert(chars@.skip(0) =~= s@);
    string_of_range(&chars, 0, end)
}

/// The string without white space at its two ends.
pub fn trim_str(s: &str) -> (out: String)
    ensures
        out@ == trim(s@),
{
    let chars = chars_of(s);
    let from: usize = skip_space(&chars, chars.len());
    assert(chars@.take(chars@.len() as int) =~= s@);
    assert(chars@.subrange(from as int, chars@.len() as int) =~= chars@.skip(from as int));
    let end: usize = before_space(&chars, from);
    string_of_range(&chars, from, end)
}

/// The characters `char::is_alphanumeric` accepts.
pub uninterp spec fn alphanumeric(c: char) -> bool;

/// `char::is_alphanumeric`: letters and digits in the sense of Unicode. It is
/// a function of the character alone; among the ASCII characters these are
/// the letters and the decimal digits. Beyond them it is left to the name
/// `alphanumeric`.
pub assume_specification[ char::is_alphanumeric ](c: char) -> (r: bool)
    ensures
        r == alphanumeric(c),
        (c as u32) < 128 ==> r == (('0' <= c <= '9') || ('a' <= c <= 'z') || ('A' <= c <= 'Z')),
;

/// A character that can stand in a word of source code.
pub open spec fn word_char(c: char) -> bool {
    alphanumeric(c) || c == '_'
}

/// Whether a character can stand in a word of source code.
pub fn is_word_char(c: char) -> (r: bool)
    ensures
        r == word_char(c),
{
    c.is_alphanumeric() || c == '_'
}

/// An ASCII small letter as its capital; every other character as it is.
pub open spec fn ascii_upper_char(c: char) -> char {
    if 'a' <= c <= 'z' {
        (c as u32 - 32) as char
    } else {
        c
    }
}

/// One character in ASCII upper case.
pub fn upper_char(c: char) -> (r: char)
    ensures
        r == ascii_upper_char(c),
{
    if 'a' <= c && c <= 'z' {
        let v: u8 = c as u8;
        (v - 32) as char
    } else {
        c
    }
}

/// An ASCII capital as its small letter; every other character as it is.
pub open spec fn ascii_lower_char(c: char) -> char {
    if 'A' <= c <= 'Z' {
        (c as u32 + 32) as char
    } else {
        c
    }
}

/// A text with its ASCII capitals turned into small letters.
pub open spec fn ascii_lower(s: Seq<char>) -> Seq<char> {
    Seq::new(s.len(), |i: int| ascii_lower_char(s[i]))
}

/// One character in ASCII lower case.
pub fn lower_char(c: char) -> (r: char)
    ensures
        r == ascii_lower_char(c),
{
    if 'A' <= c && c <= 'Z' {
        let v: u8 = c as u8;
        (v + 32) as char
    } else {
        c
    }
}

/// The string in ASCII lower case.
pub fn ascii_lower_str(s: &str) -> (out: String)
    ensures
        out@ == ascii_lower(s@),
{
    let chars = chars_of(s);
    let mut out = String::new();
    let mut i: usize = 0;
    while i < chars.len()
        invariant
            chars@ == s@,
            i <= chars@.len(),
            out@ == ascii_lower(s@).take(i as int),
        decreases chars@.len() - i,
    {
        out.push(lower_char(chars[i]));
        i = i + 1;
        assert(out@ =~= ascii_lower(s@).take(i as int));
    }
    assert(out@ =~= ascii_lower(s@));
    out
}

// ---------------------------------------------------------------------
// Laws
// ---------------------------------------------------------------------

/// An occurrence is equality character by character.
pub proof fn law_an_occurrence_is_equal_characters(text: Seq<char>, needle: Seq<char>, i: int)
    ensures
        occurs_at(text, needle, i) <==> (0 <= i && i + needle.len() <= text.len() && forall|k: int|
            0 <= k < needle.len() ==> text[i + k] == #[trigger] needle[k]),
{
    if 0 <= i && i + needle.len() <= text.len() {
        let part = text.subrange(i, i + needle.len());
        if forall|k: int| 0 <= k < needle.len() ==> text[i + k] == #[trigger] needle[k] {
            assert(part =~= needle);
        }
        if part == needle {
            assert forall|k: int| 0 <= k < needle.len() implies text[i + k] == #[trigger] needle[k] by {
                assert(part[k] == text[i + k]);
            }
        }
    }
}

/// A text holds another exactly where all its characters stand side by side
/// somewhere: the place is given where it does, and no place does where it
/// does not.
pub proof fn law_containing_is_a_place(text: Seq<char>, needle: Seq<char>, i: int) -> (at: int)
    ensures
        contains(text, needle) ==> 0 <= at && at + needle.len() <= text.len() && text.subrange(
            at,
            at + needle.len(),
        ) == needle,
        0 <= i && i + needle.len() <= text.len() && text.subrange(i, i + needle.len()) == needle
            ==> contains(text, needle),
{
    assert(0 <= i && i + needle.len() <= text.len() && text.subrange(i, i + needle.len()) == needle
        ==> occurs_at(text, needle, i));
    if contains(text, needle) {
        choose|at: int| occurs_at(text, needle, at)
    } else {
        0
    }
}

/// The occurrences of a text are found without overlap: each listed start is
/// one, and each two are a whole occurrence apart.
pub proof fn law_occurrences_are_apart(text: Seq<char>, needle: Seq<char>)
    requires
        needle.len() > 0,
    ensures
        ({
            let starts = match_starts(text, needle);
            &&& forall|k: int|
                0 <= k < starts.len() ==> 0 <= #[trigger] starts[k] && starts[k] + needle.len()
                    <= text.len() && text.subrange(starts[k], starts[k] + needle.len()) == needle
            &&& forall|j: int, k: int|
                0 <= j < k < starts.len() ==> #[trigger] starts[j] + needle.len()
                    <= #[trigger] starts[k]
        }),
{
    lemma_matches_from(text, needle, 0);
}

/// The occurrences of a text are found from left to right, and none is left
/// out: every place where the text stands is a listed start or lies inside an
/// occurrence that is listed before it.
pub proof fn law_every_occurrence_is_listed_or_overlapped(
    text: Seq<char>,
    needle: Seq<char>,
    p: int,
) -> (k: int)
    requires
        needle.len() > 0,
        0 <= p && p + needle.len() <= text.len(),
        text.subrange(p, p + needle.len()) == needle,
    ensures
        0 <= k < match_starts(text, needle).len(),
        match_starts(text, needle)[k] <= p < match_starts(text, needle)[k] + needle.len(),
{
    let starts = match_starts(text, needle);
    lemma_occurrence_is_covered(text, needle, 0, p);
    choose|k: int| 0 <= k < starts.len() && #[trigger] starts[k] <= p < starts[k] + needle.len()
}

proof fn lemma_occurrence_is_covered(text: Seq<char>, needle: Seq<char>, from: int, p: int)
    requires
        0 <= from <= p,
        needle.len() > 0,
        occurs_at(text, needle, p),
    ensures
        exists|k: int|
            0 <= k < matches_from(text, needle, from).len() && #[trigger] matches_from(
                text,
                needle,
                from,
            )[k] <= p < matches_from(text, needle, from)[k] + needle.len(),
    decreases p - from,
{
    let here = matches_from(text, needle, from);
    if occurs_at(text, needle, from) {
        let next = from + needle.len();
        let rest = matches_from(text, needle, next);
        assert(here == seq![from] + rest);
        assert(here[0] == from);
        if p >= next {
            lemma_occurrence_is_covered(text, needle, next, p);
            let k = choose|k: int|
                0 <= k < rest.len() && #[trigger] rest[k] <= p < rest[k] + needle.len();
            assert(here[k + 1] == rest[k]);
        }
    } else {
        lemma_occurrence_is_covered(text, needle, from + 1, p);
    }
}

/// How many line feeds a text holds.
pub open spec fn feeds(s: Seq<char>) -> nat
    decreases s.len(),
{
    if s.len() == 0 {
        0
    } else {
        feeds(s.drop_last()) + if s.last() == '\n' {
            1nat
        } else {
            0nat
        }
    }
}

pub proof fn lemma_feeds_concat(a: Seq<char>, b: Seq<char>)
    ensures
        feeds(a + b) == feeds(a) + feeds(b),
    decreases b.len(),
{
    if b.len() == 0 {
        assert(a + b =~= a);
    } else {
        assert((a + b).drop_last() =~= a + b.drop_last());
        lemma_feeds_concat(a, b.drop_last());
    }
}

pub proof fn lemma_no_feeds(s: Seq<char>)
    requires
        forall|k: int| 0 <= k < s.len() ==> s[k] != '\n',
    ensures
        feeds(s) == 0,
    decreases s.len(),
{
    if s.len() > 0 {
        lemma_no_feeds(s.drop_last());
    }
}

proof fn lemma_line_of_stretch(s: Seq<char>, from: int, a: int, b: int)
    requires
        0 <= from <= a <= b <= s.len(),
        a == from || s[a - 1] == '\n',
        forall|k: int| a <= k < b ==> s[k] != '\n',
        b < s.len() ==> s[b] == '\n',
        a < s.len(),
    ensures
        feeds(s.subrange(from, a)) < lines_from(s, from).len(),
        lines_from(s, from)[feeds(s.subrange(from, a)) as int] == (if b < s.len() {
            without_cr(s.subrange(a, b))
        } else {
            s.subrange(a, b)
        }),
    decreases s.len() - from,
{
    lemma_line_feed_from(s, from);
    let end = line_feed_from(s, from);
    if a == from {
        assert(s.subrange(from, a) =~= Seq::<char>::empty());
        assert(end == b) by {
            if end < b {
                assert(s[end] != '\n');
            }
            if b < end {
                assert(s[b] != '\n');
            }
        }
    } else {
        assert(s[a - 1] == '\n');
        assert(end <= a - 1);
        lemma_line_of_stretch(s, end + 1, a, b);
        assert(s.subrange(from, a) =~= s.subrange(from, end) + (seq!['\n'] + s.subrange(end + 1, a)));
        lemma_feeds_concat(s.subrange(from, end), seq!['\n'] + s.subrange(end + 1, a));
        lemma_feeds_concat(seq!['\n'], s.subrange(end + 1, a));
        lemma_no_feeds(s.subrange(from, end));
        assert(seq!['\n'].drop_last() =~= Seq::<char>::empty());
        assert(feeds(seq!['\n']) == 1) by {
            reveal_with_fuel(feeds, 2);
        }
    }
}

proof fn lemma_line_count(s: Seq<char>, from: int)
    requires
        0 <= from <= s.len(),
    ensures
        lines_from(s, from).len() == feeds(s.skip(from)) + if from < s.len() && s.last() != '\n' {
            1nat
        } else {
            0nat
        },
    decreases s.len() - from,
{
    if from < s.len() {
        lemma_line_feed_from(s, from);
        let end = line_feed_from(s, from);
        if end < s.len() {
            lemma_line_count(s, end + 1);
            assert(s.skip(from) =~= s.subrange(from, end) + (seq!['\n'] + s.skip(end + 1)));
            lemma_feeds_concat(s.subrange(from, end), seq!['\n'] + s.skip(end + 1));
            lemma_feeds_concat(seq!['\n'], s.skip(end + 1));
            lemma_no_feeds(s.subrange(from, end));
            assert(seq!['\n'].drop_last() =~= Seq::<char>::empty());
            assert(feeds(seq!['\n']) == 1) by {
                reveal_with_fuel(feeds, 2);
            }
        } else {
            lemma_no_feeds(s.skip(from));
        }
    } else {
        assert(s.skip(from) =~= Seq::<char>::empty());
    }
}

/// The lines of a text are its stretches between line feeds. A stretch that
/// starts at the text's start or behind a line feed and runs to the next one
/// is the line whose number is the count of line feeds before it, without the
/// carriage return that the line feed follows; a last stretch without a line
/// feed is a line as it is, and an empty one is none.
pub proof fn law_lines_are_the_stretches_between_feeds(s: Seq<char>, a: int, b: int)
    requires
        0 <= a <= b <= s.len(),
        a == 0 || s[a - 1] == '\n',
        forall|k: int| a <= k < b ==> s[k] != '\n',
        b < s.len() ==> s[b] == '\n',
        a < s.len(),
    ensures
        lines(s).len() == feeds(s) + if s.last() != '\n' {
            1nat
        } else {
            0nat
        },
        feeds(s.take(a)) < lines(s).len(),
        b < s.len() && b > a && s[b - 1] == '\r' ==> lines(s)[feeds(s.take(a)) as int]
            == s.subrange(a, b - 1),
        b < s.len() && !(b > a && s[b - 1] == '\r') ==> lines(s)[feeds(s.take(a)) as int]
            == s.subrange(a, b),
        b == s.len() ==> lines(s)[feeds(s.take(a)) as int] == s.subrange(a, b),
{
    lemma_line_of_stretch(s, 0, a, b);
    assert(s.subrange(0, a) =~= s.take(a));
    lemma_line_count(s, 0);
    assert(s.skip(0) =~= s);
    let stretch = s.subrange(a, b);
    if b > a {
        assert(stretch.last() == s[b - 1]);
        assert(stretch.drop_last() =~= s.subrange(a, b - 1));
    }
}

/// A text without characters has no lines.
pub proof fn law_an_empty_text_has_no_lines(s: Seq<char>)
    ensures
        lines(s).len() == 0 <==> s.len() == 0,
{
    if s.len() > 0 {
        lemma_line_feed_from(s, 0);
    }
}

/// Joining puts the separator between each two parts and nowhere else: it is
/// the first part, the separator, and the rest joined.
pub proof fn law_joining_goes_part_by_part(parts: Seq<Seq<char>>, sep: Seq<char>)
    ensures
        parts.len() == 0 ==> join(parts, sep) == Seq::<char>::empty(),
        parts.len() == 1 ==> join(parts, sep) == parts[0],
        parts.len() > 1 ==> join(parts, sep) == parts[0] + sep + join(parts.drop_first(), sep),
    decreases parts.len(),
{
    if parts.len() == 2 {
        reveal_with_fuel(join, 3);
        assert(parts.drop_last()[0] == parts[0]);
        assert(parts.drop_first()[0] == parts[1]);
    } else if parts.len() > 2 {
        let front = parts.drop_last();
        law_joining_goes_part_by_part(front, sep);
        assert(front.drop_first() =~= parts.drop_first().drop_last());
        assert(parts.drop_first().last() == parts.last());
        assert(join(parts, sep) =~= parts[0] + sep + join(parts.drop_first(), sep));
    }
}

/// Replacing changes the leftmost occurrence first and goes on behind it; a
/// text that holds no occurrence stays as it is.
pub proof fn law_replacing_goes_from_left_to_right(
    s: Seq<char>,
    from: Seq<char>,
    to: Seq<char>,
    at: int,
)
    requires
        from.len() > 0,
    ensures
        !contains(s, from) ==> replaced(s, from, to) == s,
        0 <= at && at + from.len() <= s.len() && s.subrange(at, at + from.len()) == from && (forall|
            k: int,
        |
            0 <= k < at ==> #[trigger] s.subrange(k, k + from.len()) != from) ==> replaced(
            s,
            from,
            to,
        ) == s.take(at) + to + replaced(s.skip(at + from.len()), from, to),
{
    if !contains(s, from) {
        assert forall|k: int| 0 <= k < s.len() implies !occurs_at(s, from, k) by {}
        lemma_replaced_without(s, from, to, 0, s.len() as int);
        assert(s.subrange(0, s.len() as int) =~= s);
        assert(replaced(s, from, to) =~= s);
    }
    if 0 <= at && at + from.len() <= s.len() && s.subrange(at, at + from.len()) == from && (forall|
        k: int,
    |
        0 <= k < at ==> #[trigger] s.subrange(k, k + from.len()) != from) {
        assert forall|k: int| 0 <= k < at implies !occurs_at(s, from, k) by {
            assert(s.subrange(k, k + from.len()) != from);
        }
        lemma_replaced_without(s, from, to, 0, at);
        assert(s.subrange(0, at) =~= s.take(at));
        let next = at + from.len();
        let rest = s.skip(next);
        lemma_replaced_behind(s.take(next), rest, from, to, 0);
        assert(s.take(next) + rest =~= s);
        assert(occurs_at(s, from, at));
        assert(replaced_from(s, from, to, at) == to + replaced_from(s, from, to, next));
        assert(replaced(s, from, to) =~= s.take(at) + to + replaced(rest, from, to));
    }
}

proof fn lemma_replaced_without(s: Seq<char>, from: Seq<char>, to: Seq<char>, i: int, end: int)
    requires
        0 <= i <= end <= s.len(),
        from.len() > 0,
        forall|k: int| i <= k < end ==> !occurs_at(s, from, k),
    ensures
        replaced_from(s, from, to, i) == s.subrange(i, end) + replaced_from(s, from, to, end),
    decreases end - i,
{
    if i < end {
        lemma_replaced_without(s, from, to, i + 1, end);
        assert(s.subrange(i, end) =~= seq![s[i]] + s.subrange(i + 1, end));
        assert(replaced_from(s, from, to, i) =~= s.subrange(i, end) + replaced_from(
            s,
            from,
            to,
            end,
        ));
    } else {
        assert(s.subrange(i, end) =~= Seq::<char>::empty());
        assert(s.subrange(i, end) + replaced_from(s, from, to, end) =~= replaced_from(
            s,
            from,
            to,
            end,
        ));
    }
}

proof fn lemma_replaced_behind(a: Seq<char>, x: Seq<char>, from: Seq<char>, to: Seq<char>, i: int)
    requires
        0 <= i <= x.len(),
        from.len() > 0,
    ensures
        replaced_from(a + x, from, to, a.len() + i) == replaced_from(x, from, to, i),
    decreases x.len() - i,
{
    if i < x.len() {
        let whole = a + x;
        let at = a.len() + i;
        law_an_occurrence_is_equal_characters(whole, from, at);
        law_an_occurrence_is_equal_characters(x, from, i);
        if occurs_at(x, from, i) {
            assert forall|k: int| 0 <= k < from.len() implies whole[at + k] == #[trigger] from[k] by {
                assert(x[i + k] == from[k]);
            }
            lemma_replaced_behind(a, x, from, to, i + from.len());
        } else {
            if occurs_at(whole, from, at) {
                assert forall|k: int| 0 <= k < from.len() implies x[i + k] == #[trigger] from[k] by {
                    assert(whole[at + k] == from[k]);
                }
            }
            lemma_replaced_behind(a, x, from, to, i + 1);
        }
    }
}

proof fn lemma_trim_start_shape(s: Seq<char>) -> (a: int)
    ensures
        0 <= a <= s.len(),
        trim_start(s) == s.skip(a),
        forall|k: int| 0 <= k < a ==> is_space(#[trigger] s[k]),
        a < s.len() ==> !is_space(s[a]),
    decreases s.len(),
{
    if s.len() > 0 && is_space(s[0]) {
        let rest = s.drop_first();
        let a = lemma_trim_start_shape(rest);
        assert(rest.skip(a) =~= s.skip(a + 1));
        assert forall|k: int| 0 <= k < a + 1 implies is_space(#[trigger] s[k]) by {
            if k > 0 {
                assert(rest[k - 1] == s[k]);
            }
        }
        a + 1
    } else {
        assert(s.skip(0) =~= s);
        0
    }
}

proof fn lemma_trim_end_shape(s: Seq<char>) -> (b: int)
    ensures
        0 <= b <= s.len(),
        trim_end(s) == s.take(b),
        forall|k: int| b <= k < s.len() ==> is_space(#[trigger] s[k]),
        b > 0 ==> !is_space(s[b - 1]),
    decreases s.len(),
{
    if s.len() > 0 && is_space(s.last()) {
        let rest = s.drop_last();
        let b = lemma_trim_end_shape(rest);
        assert(rest.take(b) =~= s.take(b));
        assert forall|k: int| b <= k < s.len() implies is_space(#[trigger] s[k]) by {
            if k < rest.len() {
                assert(rest[k] == s[k]);
            }
        }
        b
    } else {
        assert(s.take(s.len() as int) =~= s);
        s.len() as int
    }
}

/// Trimming takes white space off the two ends and nothing else: what is
/// left stands in the text with white space before and behind it, and begins
/// and ends with something else.
pub proof fn law_trimming_takes_white_space_off_the_ends(s: Seq<char>) -> (span: (int, int))
    ensures
        0 <= span.0 <= span.1 <= s.len(),
        trim(s) == s.subrange(span.0, span.1),
        forall|k: int|
            0 <= k < s.len() && !(span.0 <= k < span.1) ==> is_space(#[trigger] s[k]),
        span.0 < span.1 ==> !is_space(s[span.0]) && !is_space(s[span.1 - 1]),
{
    let a = lemma_trim_start_shape(s);
    let rest = s.skip(a);
    let b = lemma_trim_end_shape(rest);
    assert(rest.take(b) =~= s.subrange(a, a + b));
    assert forall|k: int| 0 <= k < s.len() && !(a <= k < a + b) implies is_space(#[trigger] s[k]) by {
        if k >= a + b {
            assert(rest[k - a] == s[k]);
        }
    }
    if b > 0 {
        assert(rest[0] == s[a]);
        assert(rest[b - 1] == s[a + b - 1]);
    }
    (a, a + b)
}

/// The same of the end alone.
pub proof fn law_trimming_the_end_keeps_the_start(s: Seq<char>) -> (end: int)
    ensures
        0 <= end <= s.len(),
        trim_end(s) == s.take(end),
        forall|k: int| end <= k < s.len() ==> is_space(#[trigger] s[k]),
        end > 0 ==> !is_space(s[end - 1]),
{
    lemma_trim_end_shape(s)
}

/// White space is what Unicode calls so: tab to carriage return, space, next
/// line, and the spaces and separators beyond ASCII.
pub proof fn law_white_space_is_that_of_unicode(c: char)
    ensures
        is_space(c) <==> {
            let v = c as u32;
            ||| 9 <= v <= 13
            ||| v == 32 || v == 133 || v == 160 || v == 5760
            ||| 8192 <= v <= 8202
            ||| v == 8232 || v == 8233 || v == 8239 || v == 8287 || v == 12288
        },
{
}

/// A number is written in base ten without leading zeros: its last digit is
/// the remainder by ten, what stands before it is the number without that
/// digit.
pub proof fn law_numbers_are_written_in_base_ten(n: nat, d: nat)
    requires
        d < 10,
    ensures
        dec(d).len() == 1,
        dec(d)[0] as u32 == 48 + d,
        n > 0 ==> dec(10 * n + d) == dec(n) + dec(d),
{
    if n > 0 {
        assert((10 * n + d) / 10 == n);
        assert((10 * n + d) % 10 == d);
        assert(dec(10 * n + d) =~= dec(n) + dec(d));
    }
}

/// Clipping keeps the longest beginning of at most so many characters.
pub proof fn law_clipping_keeps_the_beginning(s: Seq<char>, n: int)
    requires
        0 <= n,
    ensures
        clip(s, n).len() <= n,
        clip(s, n).is_prefix_of(s),
        clip(s, n).len() == n || clip(s, n) == s,
{
}

/// Clipping by bytes keeps the longest beginning whose encoding has at most
/// so many bytes.
pub proof fn law_clipping_by_bytes_keeps_the_longest_beginning(s: Seq<char>, limit: int, k: int)
    requires
        0 <= limit,
        0 <= k <= s.len(),
    ensures
        clip_bytes(s, limit).is_prefix_of(s),
        vstd::utf8::encode_utf8(clip_bytes(s, limit)).len() <= limit,
        vstd::utf8::encode_utf8(s.take(k)).len() <= limit ==> k <= clip_bytes(s, limit).len(),
    decreases s.len(),
{
    lemma_clip_bytes(s, limit);
    lemma_byte_len_is_utf8(clip_bytes(s, limit));
    lemma_byte_len_is_utf8(s.take(k));
    if !(s.len() == 0 || byte_len(s) <= limit) {
        if k < s.len() {
            law_clipping_by_bytes_keeps_the_longest_beginning(s.drop_last(), limit, k);
            assert(s.drop_last().take(k) =~= s.take(k));
        } else {
            assert(s.take(k) =~= s);
        }
    }
}

/// Beginning and ending with a text is holding it at the start and at the
/// end.
pub proof fn law_beginning_and_ending(s: Seq<char>, part: Seq<char>)
    ensures
        starts_with(s, part) <==> part.len() <= s.len() && forall|k: int|
            0 <= k < part.len() ==> s[k] == #[trigger] part[k],
        ends_with(s, part) <==> part.len() <= s.len() && forall|k: int|
            0 <= k < part.len() ==> s[s.len() - part.len() + k] == #[trigger] part[k],
{
    if part.len() <= s.len() {
        let head = s.take(part.len() as int);
        let tail = s.skip(s.len() - part.len());
        if forall|k: int| 0 <= k < part.len() ==> s[k] == #[trigger] part[k] {
            assert(head =~= part);
        }
        if forall|k: int|
            0 <= k < part.len() ==> s[s.len() - part.len() + k] == #[trigger] part[k] {
            assert(tail =~= part);
        }
        if head == part {
            assert forall|k: int| 0 <= k < part.len() implies s[k] == #[trigger] part[k] by {
                assert(head[k] == s[k]);
            }
        }
        if tail == part {
            assert forall|k: int| 0 <= k < part.len() implies s[s.len() - part.len() + k]
                == #[trigger] part[k] by {
                assert(tail[k] == s[s.len() - part.len() + k]);
            }
        }
    }
}

/// Letter case changes only the ASCII letters, by the distance between the
/// two alphabets.
pub proof fn law_case_changes_ascii_letters_only(c: char)
    ensures
        65 <= c as u32 <= 90 ==> ascii_lower_char(c) as u32 == c as u32 + 32,
        !(65 <= c as u32 <= 90) ==> ascii_lower_char(c) == c,
        97 <= c as u32 <= 122 ==> ascii_upper_char(c) as u32 == c as u32 - 32,
        !(97 <= c as u32 <= 122) ==> ascii_upper_char(c) == c,
{
}

/// A text of digits, with a plus sign before it or not, is read as the number
/// it writes; anything else, and a number beyond the bound, is refused.
pub proof fn law_reading_undoes_writing(n: nat, max: nat)
    ensures
        n <= max ==> parse_unsigned(dec(n), max) == Some(n),
        n > max ==> parse_unsigned(dec(n), max) is None,
        n <= max ==> parse_unsigned(seq!['+'] + dec(n), max) == Some(n),
{
    lemma_parse_of_dec(n);
    let signed = seq!['+'] + dec(n);
    assert(signed.skip(1) =~= dec(n));
}

/// What is read as a number is digits, at least one, behind at most one plus
/// sign; nothing else is a number.
pub proof fn law_only_digits_are_read(s: Seq<char>, max: nat)
    ensures
        parse_unsigned(s, max) is Some ==> {
            let from = if s.len() > 0 && s[0] == '+' {
                1int
            } else {
                0int
            };
            &&& from < s.len()
            &&& forall|k: int| from <= k < s.len() ==> '0' <= #[trigger] s[k] <= '9'
        },
        parse_unsigned(Seq::empty(), max) is None,
        parse_unsigned(s, max) matches Some(n) ==> n <= max,
{
    let digits = unsigned_digits(s);
    if parse_unsigned(s, max) is Some {
        lemma_digits_only(digits);
        let from = if s.len() > 0 && s[0] == '+' {
            1int
        } else {
            0int
        };
        assert(digits =~= s.skip(from));
        assert forall|k: int| from <= k < s.len() implies '0' <= #[trigger] s[k] <= '9' by {
            assert(digits[k - from] == s[k]);
        }
    }
}

proof fn lemma_digits_only(s: Seq<char>)
    ensures
        digits_value(s) is Some ==> forall|k: int| 0 <= k < s.len() ==> '0' <= #[trigger] s[k] <= '9',
    decreases s.len(),
{
    if s.len() > 0 && digits_value(s) is Some {
        lemma_digits_only(s.drop_last());
        assert forall|k: int| 0 <= k < s.len() implies '0' <= #[trigger] s[k] <= '9' by {
            if k < s.len() - 1 {
                assert(s.drop_last()[k] == s[k]);
            }
        }
    }
}

/// The same of the start alone.
pub proof fn law_trimming_the_start_keeps_the_end(s: Seq<char>) -> (from: int)
    ensures
        0 <= from <= s.len(),
        trim_start(s) == s.skip(from),
        forall|k: int| 0 <= k < from ==> is_space(#[trigger] s[k]),
        from < s.len() ==> !is_space(s[from]),
{
    lemma_trim_start_shape(s)
}

/// A word is made of letters and digits, and of underscores.
pub proof fn law_words_have_letters_digits_and_underscores(c: char)
    ensures
        word_char(c) <==> alphanumeric(c) || c == '_',
{
}

/// A negative number is written as a minus and the number without its sign.
pub proof fn law_a_negative_number_has_a_minus(n: nat)
    ensures
        signed_dec(n as int) == dec(n),
        n > 0 ==> signed_dec(-(n as int)) == seq!['-'] + dec(n),
{
    reveal_strlit("-");
    assert("-"@ =~= seq!['-']);
}

/// Of a line that ends with a carriage return, that one character is dropped,
/// and nothing of any other line.
pub proof fn law_one_carriage_return_is_dropped(line: Seq<char>)
    ensures
        line.len() > 0 && line.last() == '\r' ==> without_cr(line) == line.drop_last(),
        line.len() == 0 || line.last() != '\r' ==> without_cr(line) == line,
{
}

/// A character is found at its first place at or behind `i`, or at the end
/// where it does not stand there.
pub proof fn law_a_character_is_found_at_its_first_place(s: Seq<char>, c: char, i: int)
    requires
        0 <= i <= s.len(),
    ensures
        i <= char_from(s, c, i) <= s.len(),
        forall|k: int| i <= k < char_from(s, c, i) ==> #[trigger] s[k] != c,
        char_from(s, c, i) < s.len() ==> s[char_from(s, c, i)] == c,
{
    lemma_char_from(s, c, i);
}

} // verus!
