//! Exact matching for edits: line endings, occurrences of an anchor, and the
//! size of a result before it is built.
use crate::text;
use std::borrow::Cow;
use vstd::prelude::*;

verus! {

// ---------------------------------------------------------------------
// Line endings
// ---------------------------------------------------------------------

/// The line-ending shape of a text. Exact edits preserve a uniform style and
/// leave mixed files alone instead of guessing how to rewrite them.
#[derive(Clone, Copy, Debug, PartialEq, Eq, Structural)]
pub enum LineEnding {
    NoBreaks,
    Lf,
    CrLf,
    Mixed,
}

/// A carriage return with its line feed starts at character `i`.
pub open spec fn crlf_at(s: Seq<char>, i: int) -> bool {
    0 <= i && i + 1 < s.len() && s[i] == '\r' && s[i + 1] == '\n'
}

/// A line feed without a carriage return before it stands at `i`.
pub open spec fn lone_lf_at(s: Seq<char>, i: int) -> bool {
    0 <= i < s.len() && s[i] == '\n' && !crlf_at(s, i - 1)
}

/// A carriage return without a line feed behind it stands at `i`.
pub open spec fn lone_cr_at(s: Seq<char>, i: int) -> bool {
    0 <= i < s.len() && s[i] == '\r' && !crlf_at(s, i)
}

pub open spec fn has_crlf(s: Seq<char>) -> bool {
    exists|i: int| crlf_at(s, i)
}

pub open spec fn has_lone_lf(s: Seq<char>) -> bool {
    exists|i: int| lone_lf_at(s, i)
}

pub open spec fn has_lone_cr(s: Seq<char>) -> bool {
    exists|i: int| lone_cr_at(s, i)
}

/// The shape of a text: uniform when it has breaks of one kind and no lone
/// carriage return, `NoBreaks` without any of them, `Mixed` otherwise.
pub open spec fn line_ending(s: Seq<char>) -> LineEnding {
    if has_lone_cr(s) || (has_lone_lf(s) && has_crlf(s)) {
        LineEnding::Mixed
    } else if has_crlf(s) {
        LineEnding::CrLf
    } else if has_lone_lf(s) {
        LineEnding::Lf
    } else {
        LineEnding::NoBreaks
    }
}

/// The name of a line-ending shape in tool output.
pub open spec fn line_ending_name(e: LineEnding) -> Seq<char> {
    match e {
        LineEnding::NoBreaks => "none"@,
        LineEnding::Lf => "lf"@,
        LineEnding::CrLf => "crlf"@,
        LineEnding::Mixed => "mixed"@,
    }
}

/// The line-ending shape of a character slice.
pub fn detect_chars(s: &[char]) -> (r: LineEnding)
    ensures
        r == line_ending(s@),
{
    let n: usize = s.len();
    let mut lf = false;
    let mut crlf = false;
    let mut lone_cr = false;
    let mut i: usize = 0;
    while i < n
        invariant
            n == s@.len(),
            i <= n,
            i < n ==> !crlf_at(s@, i - 1),
            lf == (exists|k: int| k < i && lone_lf_at(s@, k)),
            crlf == (exists|k: int| k < i && crlf_at(s@, k)),
            lone_cr == (exists|k: int| k < i && lone_cr_at(s@, k)),
        decreases n - i,
    {
        if s[i] == '\r' {
            if i + 1 < n && s[i + 1] == '\n' {
                assert(crlf_at(s@, i as int));
                assert(!lone_lf_at(s@, i + 1));
                crlf = true;
                i = i + 2;
            } else {
                assert(lone_cr_at(s@, i as int));
                lone_cr = true;
                i = i + 1;
            }
        } else if s[i] == '\n' {
            assert(lone_lf_at(s@, i as int));
            lf = true;
            i = i + 1;
        } else {
            i = i + 1;
        }
    }
    if lone_cr || (lf && crlf) {
        LineEnding::Mixed
    } else if crlf {
        LineEnding::CrLf
    } else if lf {
        LineEnding::Lf
    } else {
        LineEnding::NoBreaks
    }
}

impl LineEnding {
    /// The line-ending shape of a text.
    pub fn detect(text: &str) -> (r: LineEnding)
        ensures
            r == line_ending(text@),
    {
        let chars = text::chars_of(text);
        detect_chars(&chars)
    }

    /// The name of the shape in tool output.
    pub fn as_str(self) -> (r: &'static str)
        ensures
            r@ == line_ending_name(self),
    {
        match self {
            LineEnding::NoBreaks => "none",
            LineEnding::Lf => "lf",
            LineEnding::CrLf => "crlf",
            LineEnding::Mixed => "mixed",
        }
    }
}

/// A text with every CRLF written as LF.
pub open spec fn as_lf(s: Seq<char>) -> Seq<char> {
    text::replaced(s, seq!['\r', '\n'], seq!['\n'])
}

/// A text with every line break written as CRLF.
pub open spec fn as_crlf(s: Seq<char>) -> Seq<char> {
    text::replaced(as_lf(s), seq!['\n'], seq!['\r', '\n'])
}

/// What an edit argument becomes for a target of the given shape: its line
/// breaks take the style of a uniform target, and nothing else changes.
pub open spec fn normalized(s: Seq<char>, target: LineEnding) -> Seq<char> {
    match target {
        LineEnding::CrLf => if s.contains('\n') && line_ending(s) != LineEnding::CrLf {
            as_crlf(s)
        } else {
            s
        },
        LineEnding::Lf => if has_crlf(s) {
            as_lf(s)
        } else {
            s
        },
        LineEnding::NoBreaks | LineEnding::Mixed => s,
    }
}

/// Adapts the line breaks of an edit argument to a uniform target.
///
/// This is not fuzzy matching: everything but the encoding of a line break
/// stays as it is. A text that needs no change is borrowed.
pub fn normalize_edit_line_endings<'a>(text: &'a str, target: LineEnding) -> (r: Cow<'a, str>)
    ensures
        r@ == normalized(text@, target),
        (r matches Cow::Borrowed(b) && b@ == text@) || r is Owned,
        (target == LineEnding::NoBreaks || target == LineEnding::Mixed) ==> r is Borrowed,
{
    let chars = text::chars_of(text);
    match target {
        LineEnding::CrLf => {
            let shape = detect_chars(&chars);
            if text::has_char(&chars, '\n') && shape != LineEnding::CrLf {
                let crlf: [char; 2] = ['\r', '\n'];
                let lf: [char; 1] = ['\n'];
                assert(crlf@ =~= seq!['\r', '\n']);
                assert(lf@ =~= seq!['\n']);
                let unix = text::replace_all(&chars, &crlf, &lf);
                let unix_chars = text::chars_of(unix.as_str());
                Cow::Owned(text::replace_all(&unix_chars, &lf, &crlf))
            } else {
                Cow::Borrowed(text)
            }
        },
        LineEnding::Lf => {
            let crlf: [char; 2] = ['\r', '\n'];
            let lf: [char; 1] = ['\n'];
            assert(crlf@ =~= seq!['\r', '\n']);
            assert(lf@ =~= seq!['\n']);
            let found = text::has(&chars, &crlf);
            proof {
                lemma_crlf_is_contained(text@);
            }
            if found {
                Cow::Owned(text::replace_all(&chars, &crlf, &lf))
            } else {
                Cow::Borrowed(text)
            }
        },
        LineEnding::NoBreaks => Cow::Borrowed(text),
        LineEnding::Mixed => Cow::Borrowed(text),
    }
}

/// Normalizing keeps a text from becoming empty.
pub proof fn lemma_normalized_is_written(s: Seq<char>, target: LineEnding)
    requires
        s.len() > 0,
    ensures
        normalized(s, target).len() > 0,
{
    lemma_lf_step(s, 0);
    assert(as_lf(s).len() > 0);
    lemma_crlf_step(as_lf(s), 0);
}

proof fn lemma_crlf_is_contained(s: Seq<char>)
    ensures
        has_crlf(s) == text::contains(s, seq!['\r', '\n']),
{
    let crlf = seq!['\r', '\n'];
    if has_crlf(s) {
        let i = choose|i: int| crlf_at(s, i);
        assert(s.subrange(i, i + 2) =~= crlf);
        assert(text::occurs_at(s, crlf, i));
    }
    if text::contains(s, crlf) {
        let i = choose|i: int| text::occurs_at(s, crlf, i);
        assert(s[i] == s.subrange(i, i + 2)[0]);
        assert(s[i + 1] == s.subrange(i, i + 2)[1]);
        assert(crlf_at(s, i));
    }
}

/// Replacing in a text that follows a prefix does not depend on the prefix.
proof fn lemma_replaced_shift(a: Seq<char>, x: Seq<char>, from: Seq<char>, to: Seq<char>, i: int)
    requires
        0 <= i <= x.len(),
    ensures
        text::replaced_from(a + x, from, to, a.len() + i) == text::replaced_from(x, from, to, i),
    decreases x.len() - i,
{
    if i < x.len() {
        let whole = a + x;
        let at = a.len() + i;
        if from.len() > 0 && text::occurs_at(x, from, i) {
            assert(whole.subrange(at, at + from.len()) =~= x.subrange(i, i + from.len()));
            assert(text::occurs_at(whole, from, at));
            lemma_replaced_shift(a, x, from, to, i + from.len());
        } else {
            if from.len() > 0 && text::occurs_at(whole, from, at) {
                assert(whole.subrange(at, at + from.len()) =~= x.subrange(i, i + from.len()));
                assert(text::occurs_at(x, from, i));
            }
            lemma_replaced_shift(a, x, from, to, i + 1);
        }
    }
}

proof fn lemma_crlf_occurs(s: Seq<char>, i: int)
    ensures
        crlf_at(s, i) == text::occurs_at(s, seq!['\r', '\n'], i),
{
    let crlf = seq!['\r', '\n'];
    if crlf_at(s, i) {
        assert(s.subrange(i, i + 2) =~= crlf);
    }
    if text::occurs_at(s, crlf, i) {
        assert(s[i] == s.subrange(i, i + 2)[0]);
        assert(s[i + 1] == s.subrange(i, i + 2)[1]);
    }
}

/// One token of a text: a line break in either encoding, or one character.
pub open spec fn token_len(s: Seq<char>, i: int) -> int {
    if crlf_at(s, i) {
        2
    } else {
        1
    }
}

/// What one token becomes when CRLF is written as LF.
pub open spec fn token_char(s: Seq<char>, i: int) -> char {
    if crlf_at(s, i) {
        '\n'
    } else {
        s[i]
    }
}

/// The rest of a text with CRLF written as LF, from a token's start.
spec fn lf_from(s: Seq<char>, i: int) -> Seq<char> {
    text::replaced_from(s, seq!['\r', '\n'], seq!['\n'], i)
}

proof fn lemma_lf_step(s: Seq<char>, i: int)
    requires
        0 <= i < s.len(),
    ensures
        lf_from(s, i) == seq![token_char(s, i)] + lf_from(s, i + token_len(s, i)),
        i + token_len(s, i) <= s.len(),
{
    lemma_crlf_occurs(s, i);
}

proof fn lemma_lf_from_concat(x: Seq<char>, y: Seq<char>, i: int)
    requires
        0 <= i <= x.len(),
        !(x.len() > 0 && y.len() > 0 && x.last() == '\r' && y[0] == '\n'),
    ensures
        lf_from(x + y, i) == lf_from(x, i) + as_lf(y),
    decreases x.len() - i,
{
    if i == x.len() {
        lemma_replaced_shift(x, y, seq!['\r', '\n'], seq!['\n'], 0);
        assert(lf_from(x, i) =~= Seq::<char>::empty());
        assert(lf_from(x + y, i) =~= lf_from(x, i) + as_lf(y));
    } else {
        assert(crlf_at(x + y, i) == crlf_at(x, i));
        lemma_lf_step(x, i);
        lemma_lf_step(x + y, i);
        lemma_lf_from_concat(x, y, i + token_len(x, i));
        assert(lf_from(x + y, i) =~= lf_from(x, i) + as_lf(y));
    }
}

/// Rewriting CRLF as LF works piecewise, unless the cut goes through one.
pub proof fn lemma_as_lf_concat(x: Seq<char>, y: Seq<char>)
    requires
        !(x.len() > 0 && y.len() > 0 && x.last() == '\r' && y[0] == '\n'),
    ensures
        as_lf(x + y) == as_lf(x) + as_lf(y),
{
    lemma_lf_from_concat(x, y, 0);
}

proof fn lemma_as_lf_token(s: Seq<char>, i: int)
    requires
        0 <= i < s.len(),
    ensures
        as_lf(s.subrange(i, i + token_len(s, i))) == seq![token_char(s, i)],
        i + token_len(s, i) <= s.len(),
{
    let t = s.subrange(i, i + token_len(s, i));
    assert(crlf_at(t, 0) == crlf_at(s, i));
    lemma_lf_step(t, 0);
    assert(lf_from(t, t.len() as int) =~= Seq::<char>::empty());
    assert(as_lf(t) =~= seq![token_char(s, i)]);
}

/// Where the first `k` tokens of a text end.
pub open spec fn physical(s: Seq<char>, k: int) -> int
    decreases k,
{
    if k <= 0 {
        0
    } else {
        let p = physical(s, k - 1);
        p + token_len(s, p)
    }
}

/// The first `k` tokens are the first `k` characters of the LF form, and
/// they end between two tokens.
pub proof fn lemma_physical(s: Seq<char>, k: int)
    requires
        0 <= k <= as_lf(s).len(),
    ensures
        k <= physical(s, k) <= s.len(),
        !crlf_at(s, physical(s, k) - 1),
        as_lf(s.take(physical(s, k))) == as_lf(s).take(k),
        as_lf(s.skip(physical(s, k))) == as_lf(s).skip(k),
        k < as_lf(s).len() ==> physical(s, k) < s.len() && token_char(s, physical(s, k)) == as_lf(
            s,
        )[k],
    decreases k,
{
    let p = physical(s, k);
    if k == 0 {
        assert(s.take(0) =~= Seq::<char>::empty());
        assert(s.skip(0) =~= s);
        assert(as_lf(s).take(0) =~= Seq::<char>::empty());
        assert(as_lf(s).skip(0) =~= as_lf(s));
        assert(as_lf(Seq::<char>::empty()) =~= Seq::<char>::empty());
    } else {
        lemma_physical(s, k - 1);
        let q = physical(s, k - 1);
        lemma_as_lf_token(s, q);
        let t = s.subrange(q, p);
        assert(s.take(p) =~= s.take(q) + t);
        assert(!crlf_at(s, p - 1));
        lemma_as_lf_concat(s.take(q), t);
        assert(as_lf(s).take(k - 1) + seq![token_char(s, q)] =~= as_lf(s).take(k));
        assert(s =~= s.take(p) + s.skip(p));
        lemma_as_lf_concat(s.take(p), s.skip(p));
        assert(as_lf(s).skip(k) =~= as_lf(s.skip(p)));
    }
    if k < as_lf(s).len() {
        if p == s.len() {
            assert(s.skip(p) =~= Seq::<char>::empty());
            assert(as_lf(Seq::<char>::empty()).len() == 0);
        }
        lemma_lf_step(s.skip(p), 0);
        assert(as_lf(s.skip(p))[0] == token_char(s.skip(p), 0));
        assert(crlf_at(s.skip(p), 0) == crlf_at(s, p));
        assert(as_lf(s).skip(k)[0] == as_lf(s)[k]);
    }
}

/// The characters that tokens `a..b` cover spell those tokens: between two
/// token boundaries, matching the LF form is matching the text up to the
/// encoding of its line breaks.
pub proof fn lemma_region(s: Seq<char>, a: int, b: int)
    requires
        0 <= a <= b <= as_lf(s).len(),
    ensures
        physical(s, a) <= physical(s, b),
        as_lf(s.subrange(physical(s, a), physical(s, b))) == as_lf(s).subrange(a, b),
    decreases b - a,
{
    lemma_physical(s, a);
    lemma_physical(s, b);
    lemma_physical_monotone(s, a, b);
    let pa = physical(s, a);
    let pb = physical(s, b);
    assert(s.take(pb) =~= s.take(pa) + s.subrange(pa, pb));
    lemma_as_lf_concat(s.take(pa), s.subrange(pa, pb));
    let region = as_lf(s.subrange(pa, pb));
    assert(as_lf(s).take(b) == as_lf(s).take(a) + region);
    assert(region.len() == b - a);
    assert forall|i: int| 0 <= i < region.len() implies region[i] == as_lf(s).subrange(a, b)[i] by {
        assert((as_lf(s).take(a) + region)[a + i] == region[i]);
        assert(as_lf(s).take(b)[a + i] == as_lf(s)[a + i]);
    }
    assert(region =~= as_lf(s).subrange(a, b));
}

proof fn lemma_physical_monotone(s: Seq<char>, a: int, b: int)
    requires
        a <= b,
    ensures
        physical(s, a) <= physical(s, b),
    decreases b - a,
{
    if a < b {
        lemma_physical_monotone(s, a, b - 1);
    }
}

/// The text with CRLF written as LF, and where each of its characters
/// starts in the text (with the text's end behind the last).
fn tokens(s: &[char]) -> (r: (Vec<char>, Vec<usize>))
    ensures
        r.0@ == as_lf(s@),
        r.1@.len() == r.0@.len() + 1,
        forall|k: int| 0 <= k < r.1@.len() ==> r.1@[k] == physical(s@, k),
{
    let n: usize = s.len();
    let mut lf: Vec<char> = Vec::new();
    let mut starts: Vec<usize> = Vec::new();
    let mut i: usize = 0;
    assert(lf@ + lf_from(s@, 0) =~= as_lf(s@));
    while i < n
        invariant
            n == s@.len(),
            i <= n,
            lf@ + lf_from(s@, i as int) == as_lf(s@),
            starts@.len() == lf@.len(),
            i == physical(s@, lf@.len() as int),
            forall|k: int| 0 <= k < starts@.len() ==> starts@[k] == physical(s@, k),
        decreases n - i,
    {
        let crlf = s[i] == '\r' && i + 1 < n && s[i + 1] == '\n';
        let ghost before = lf@;
        proof {
            lemma_lf_step(s@, i as int);
        }
        starts.push(i);
        if crlf {
            lf.push('\n');
            assert(lf@ + lf_from(s@, i + 2) =~= before + lf_from(s@, i as int));
            i = i + 2;
        } else {
            lf.push(s[i]);
            assert(lf@ + lf_from(s@, i + 1) =~= before + lf_from(s@, i as int));
            i = i + 1;
        }
    }
    assert(lf@ =~= as_lf(s@));
    starts.push(i);
    (lf, starts)
}

// ---------------------------------------------------------------------
// Laws of normalization
// ---------------------------------------------------------------------

proof fn lemma_lf_from_has_no_cr(s: Seq<char>, i: int)
    requires
        0 <= i,
        !has_lone_cr(s),
    ensures
        !lf_from(s, i).contains('\r'),
    decreases s.len() - i,
{
    if i < s.len() {
        lemma_lf_step(s, i);
        lemma_lf_from_has_no_cr(s, i + token_len(s, i));
        if s[i] == '\r' && !crlf_at(s, i) {
            assert(lone_cr_at(s, i));
        }
        let rest = lf_from(s, i + token_len(s, i));
        assert forall|k: int| 0 <= k < lf_from(s, i).len() implies lf_from(s, i)[k] != '\r' by {
            if k > 0 {
                assert(lf_from(s, i)[k] == rest[k - 1]);
                assert(rest.contains(rest[k - 1]));
            }
        }
    }
}

/// The rest of a text with LF written as CRLF.
spec fn crlf_from(s: Seq<char>, i: int) -> Seq<char> {
    text::replaced_from(s, seq!['\n'], seq!['\r', '\n'], i)
}

proof fn lemma_crlf_step(s: Seq<char>, i: int)
    requires
        0 <= i < s.len(),
    ensures
        s[i] == '\n' ==> crlf_from(s, i) == seq!['\r', '\n'] + crlf_from(s, i + 1),
        s[i] != '\n' ==> crlf_from(s, i) == seq![s[i]] + crlf_from(s, i + 1),
{
    let lf = seq!['\n'];
    if s[i] == '\n' {
        assert(s.subrange(i, i + 1) =~= lf);
        assert(text::occurs_at(s, lf, i));
    } else if text::occurs_at(s, lf, i) {
        assert(s[i] == s.subrange(i, i + 1)[0]);
    }
}

proof fn lemma_crlf_from_is_uniform(s: Seq<char>, i: int)
    requires
        0 <= i <= s.len(),
        !s.contains('\r'),
    ensures
        !has_lone_cr(crlf_from(s, i)),
        !has_lone_lf(crlf_from(s, i)),
        crlf_from(s, i).len() > 0 ==> crlf_from(s, i)[0] != '\n',
        as_lf(crlf_from(s, i)) == s.skip(i),
    decreases s.len() - i,
{
    let r = crlf_from(s, i);
    if i < s.len() {
        lemma_crlf_step(s, i);
        lemma_crlf_from_is_uniform(s, i + 1);
        assert(s.contains(s[i]));
        let rest = crlf_from(s, i + 1);
        let head = if s[i] == '\n' {
            seq!['\r', '\n']
        } else {
            seq![s[i]]
        };
        let h = head.len() as int;
        assert(r == head + rest);
        assert forall|k: int| !lone_cr_at(r, k) && !lone_lf_at(r, k) by {
            if k >= h && k < r.len() {
                assert(r[k] == rest[k - h]);
                assert(!lone_cr_at(rest, k - h));
                assert(!lone_lf_at(rest, k - h));
                assert(crlf_at(rest, k - h) == crlf_at(r, k));
                if k > h {
                    assert(crlf_at(rest, k - h - 1) == crlf_at(r, k - 1));
                }
            } else if s[i] == '\n' && 0 <= k < 2 {
                assert(crlf_at(r, 0));
            }
        }
        assert(as_lf(head) == seq![s[i]]) by {
            lemma_as_lf_token(head, 0);
            assert(head.subrange(0, h) =~= head);
        }
        lemma_as_lf_concat(head, rest);
        assert(s.skip(i) =~= seq![s[i]] + s.skip(i + 1));
    } else {
        assert(r =~= Seq::<char>::empty());
        assert(as_lf(r) =~= s.skip(i));
    }
}

/// Normalizing an argument without lone carriage returns gives it the style
/// of a uniform target: it has breaks of that kind only, or none.
pub proof fn law_uniform_target_keeps_its_style(s: Seq<char>, target: LineEnding)
    requires
        !has_lone_cr(s),
        target == LineEnding::Lf || target == LineEnding::CrLf,
    ensures
        line_ending(normalized(s, target)) == target || line_ending(normalized(s, target))
            == LineEnding::NoBreaks,
{
    lemma_lf_from_has_no_cr(s, 0);
    let t = as_lf(s);
    lemma_crlf_from_is_uniform(t, 0);
    let r = normalized(s, target);
    if target == LineEnding::Lf {
        if has_crlf(s) {
            assert forall|k: int| !crlf_at(r, k) && !lone_cr_at(r, k) by {
                if 0 <= k < r.len() {
                    assert(r.contains(r[k]));
                }
            }
        }
    } else if !(s.contains('\n') && line_ending(s) != LineEnding::CrLf) {
        if !s.contains('\n') {
            assert forall|k: int| !crlf_at(s, k) && !lone_lf_at(s, k) by {
                if 0 <= k < s.len() {
                    assert(s.contains(s[k]));
                }
                if 0 <= k + 1 < s.len() {
                    assert(s.contains(s[k + 1]));
                }
            }
        }
    }
}

/// Normalizing changes the encoding of line breaks and nothing else: an
/// argument without lone carriage returns reads the same once CRLF is
/// written as LF.
pub proof fn law_normalizing_keeps_the_logical_text(s: Seq<char>, target: LineEnding)
    requires
        !has_lone_cr(s),
    ensures
        as_lf(normalized(s, target)) == as_lf(s),
{
    lemma_lf_from_has_no_cr(s, 0);
    let t = as_lf(s);
    lemma_crlf_from_is_uniform(t, 0);
    assert(t.skip(0) =~= t);
    lemma_no_cr_is_lf(t, 0);
}

/// Normalizing twice is normalizing once.
pub proof fn law_normalizing_is_idempotent(s: Seq<char>, target: LineEnding)
    requires
        !has_lone_cr(s),
    ensures
        normalized(normalized(s, target), target) == normalized(s, target),
{
    if target == LineEnding::Lf || target == LineEnding::CrLf {
        law_uniform_target_keeps_its_style(s, target);
        let r = normalized(s, target);
        if r.contains('\n') {
            let k = choose|k: int| 0 <= k < r.len() && r[k] == '\n';
            if crlf_at(r, k - 1) {
                assert(has_crlf(r));
            } else {
                assert(lone_lf_at(r, k));
            }
        }
    }
}

proof fn lemma_no_cr_is_lf(s: Seq<char>, i: int)
    requires
        0 <= i <= s.len(),
        !s.contains('\r'),
    ensures
        lf_from(s, i) == s.skip(i),
    decreases s.len() - i,
{
    if i < s.len() {
        assert(s.contains(s[i]));
        lemma_lf_step(s, i);
        lemma_no_cr_is_lf(s, i + 1);
        assert(s.skip(i) =~= seq![s[i]] + s.skip(i + 1));
    } else {
        assert(lf_from(s, i) =~= s.skip(i));
    }
    if i == 0 {
        assert(s.skip(0) =~= s);
    }
}

// ---------------------------------------------------------------------
// Exact occurrences
// ---------------------------------------------------------------------

/// One selected occurrence, as byte offsets, and how many there are.
#[derive(Clone, Copy, Debug, PartialEq, Eq, Structural)]
pub struct ExactMatch {
    pub start: usize,
    pub end: usize,
    pub count: usize,
}

/// Why no occurrence was selected.
#[derive(Clone, Copy, Debug, PartialEq, Eq, Structural)]
pub enum ExactMatchError {
    NoMatch { count: usize },
    Ambiguous { count: usize },
}

/// One selected occurrence by its number of characters (of the text that was
/// searched) from the start, and how many occurrences there are.
#[derive(Clone, Copy, Debug, PartialEq, Eq, Structural)]
pub struct Located {
    pub at: usize,
    pub count: usize,
}

/// Which of `starts` a request selects: the occurrence it names, counted
/// from one, or the only one.
pub open spec fn selection(starts: Seq<int>, occurrence: Option<usize>) -> Result<
    int,
    ExactMatchError,
> {
    let count = starts.len() as usize;
    match occurrence {
        Some(n) => if 1 <= n <= starts.len() {
            Ok(starts[n - 1])
        } else {
            Err(ExactMatchError::NoMatch { count })
        },
        None => if starts.len() == 0 {
            Err(ExactMatchError::NoMatch { count })
        } else if starts.len() == 1 {
            Ok(starts[0])
        } else {
            Err(ExactMatchError::Ambiguous { count })
        },
    }
}

/// Selects an occurrence of `needle` in one scan, keeping only a count and
/// the selected position.
pub fn locate(text: &[char], needle: &[char], occurrence: Option<usize>) -> (r: Result<
    Located,
    ExactMatchError,
>)
    requires
        text@.len() < usize::MAX,
    ensures
        text::match_starts(text@, needle@).len() <= usize::MAX,
        match r {
            Ok(found) => {
                &&& selection(text::match_starts(text@, needle@), occurrence) == Ok::<
                    int,
                    ExactMatchError,
                >(found.at as int)
                &&& found.count == text::match_starts(text@, needle@).len()
                &&& text::occurs_at(text@, needle@, found.at as int)
            },
            Err(e) => selection(text::match_starts(text@, needle@), occurrence) == Err::<
                int,
                ExactMatchError,
            >(e),
        },
{
    let wanted: usize = match occurrence {
        Some(k) => k,
        None => 1,
    };
    let n: usize = text.len();
    let step: usize = if needle.len() == 0 {
        1
    } else {
        needle.len()
    };
    let mut count: usize = 0;
    let mut selected: usize = 0;
    let mut i: usize = 0;
    let ghost all = text::match_starts(text@, needle@);
    proof {
        text::lemma_matches_from(text@, needle@, 0);
        assert(all =~= all.take(0) + text::matches_from(text@, needle@, 0));
    }
    while i <= n && needle.len() <= n - i
        invariant
            n == text@.len(),
            n < usize::MAX,
            i <= n + 1,
            count <= i,
            step == text::stride(needle@),
            all == text::match_starts(text@, needle@),
            count <= all.len(),
            all == all.take(count as int) + text::matches_from(text@, needle@, i as int),
            1 <= wanted <= count ==> selected == all[wanted - 1],
        decreases n + 1 - i,
    {
        let ghost rest = text::matches_from(text@, needle@, i as int);
        if text::is_at(text, needle, i) {
            proof {
                let tail = text::matches_from(text@, needle@, i + text::stride(needle@));
                assert(rest == seq![i as int] + tail);
                assert(all[count as int] == i);
                assert(all.take(count + 1) =~= all.take(count as int).push(i as int));
                assert(all =~= all.take(count + 1) + tail);
            }
            count = count + 1;
            if count == wanted {
                selected = i;
            }
            i = i + step;
        } else {
            i = i + 1;
        }
    }
    assert(all.take(count as int) =~= all);
    match occurrence {
        Some(k) => if 1 <= k && k <= count {
            Ok(Located { at: selected, count })
        } else {
            Err(ExactMatchError::NoMatch { count })
        },
        None => if count == 0 {
            Err(ExactMatchError::NoMatch { count })
        } else if count == 1 {
            Ok(Located { at: selected, count })
        } else {
            Err(ExactMatchError::Ambiguous { count })
        },
    }
}

/// How many bytes the first `to` characters take.
fn prefix_bytes(chars: &[char], to: usize) -> (n: usize)
    requires
        to <= chars@.len(),
        text::byte_len(chars@) <= usize::MAX,
    ensures
        n == text::byte_len(chars@.take(to as int)),
{
    let mut n: usize = 0;
    let mut i: usize = 0;
    assert(chars@.take(0) =~= Seq::<char>::empty());
    while i < to
        invariant
            i <= to <= chars@.len(),
            text::byte_len(chars@) <= usize::MAX,
            n == text::byte_len(chars@.take(i as int)),
        decreases to - i,
    {
        proof {
            assert(chars@.take(i + 1) =~= chars@.take(i as int).push(chars@[i as int]));
            text::lemma_byte_len_push(chars@.take(i as int), chars@[i as int]);
            text::lemma_byte_len_take(chars@, i + 1);
        }
        n = n + text::width_of(chars[i]);
        i = i + 1;
    }
    n
}

/// Locates an exact, non-overlapping occurrence of `needle`.
///
/// With `occurrence` it is that one, counted from one; without, there must
/// be exactly one.
pub fn exact_match(text: &str, needle: &str, occurrence: Option<usize>) -> (r: Result<
    ExactMatch,
    ExactMatchError,
>)
    ensures
        match r {
            Ok(found) => {
                &&& selection(text::match_starts(text@, needle@), occurrence) matches Ok(at)
                &&& found.start == text::byte_len(text@.take(at))
                &&& found.end == text::byte_len(text@.take(at)) + text::byte_len(needle@)
                &&& found.count == text::match_starts(text@, needle@).len()
            },
            Err(e) => selection(text::match_starts(text@, needle@), occurrence) == Err::<
                int,
                ExactMatchError,
            >(e),
        },
{
    let chars = text::chars_of(text);
    let wanted = text::chars_of(needle);
    let total: usize = text::bytes_in(text);
    match locate(&chars, &wanted, occurrence) {
        Ok(found) => {
            let start: usize = prefix_bytes(&chars, found.at);
            let width: usize = text::bytes_in(needle);
            proof {
                let at = found.at as int;
                let end = at + needle@.len();
                text::lemma_byte_len_take(text@, end);
                assert(text@.take(end) =~= text@.take(at) + needle@);
                text::lemma_byte_len_concat(text@.take(at), needle@);
            }
            Ok(ExactMatch { start, end: start + width, count: found.count })
        },
        Err(e) => Err(e),
    }
}

/// The byte length of a text of `current` bytes after `replacements`
/// replacements of `old` bytes by `new` ones; `None` where that is no `usize`.
pub fn projected_replacement_len(
    current: usize,
    old: usize,
    new: usize,
    replacements: usize,
) -> (r: Option<usize>)
    ensures
        match r {
            Some(len) => len == current + (new - old) * replacements,
            None => !(0 <= current + (new - old) * replacements <= usize::MAX),
        },
{
    if new >= old {
        let growth: usize = new - old;
        match growth.checked_mul(replacements) {
            Some(total) => current.checked_add(total),
            None => None,
        }
    } else {
        let shrink: usize = old - new;
        assert((new - old) * replacements == -(shrink * replacements)) by (nonlinear_arith)
            requires
                new - old == -shrink,
        ;
        match shrink.checked_mul(replacements) {
            Some(total) => current.checked_sub(total),
            None => None,
        }
    }
}

// ---------------------------------------------------------------------
// Anchors of patch hunks
// ---------------------------------------------------------------------

/// The characters of a borrowed or owned string.
pub fn cow_chars(s: &Cow<'_, str>) -> (out: Vec<char>)
    ensures
        out@ == s@,
        out@.len() < usize::MAX,
{
    match s {
        Cow::Borrowed(b) => text::chars_of(b),
        Cow::Owned(o) => text::chars_of(o.as_str()),
    }
}

/// The characters an anchor covers in the text, and how many times it
/// occurs.
#[derive(Clone, Copy, Debug, PartialEq, Eq, Structural)]
pub struct Anchor {
    pub start: usize,
    pub end: usize,
    pub count: usize,
}

/// Where the anchor `old` starts, counted in tokens: LF and CRLF are one
/// token, so an anchor is found whatever the encoding of its line breaks,
/// and never starts or ends inside a CRLF.
pub open spec fn anchor_starts(text: Seq<char>, old: Seq<char>) -> Seq<int> {
    text::match_starts(as_lf(text), as_lf(old))
}

/// Where an anchor at token `at` starts in the text.
pub open spec fn anchor_start(text: Seq<char>, at: int) -> int {
    physical(text, at)
}

/// Where an anchor at token `at` ends in the text.
pub open spec fn anchor_end(text: Seq<char>, old: Seq<char>, at: int) -> int {
    physical(text, at + as_lf(old).len())
}

/// Locates the anchor of a hunk.
pub fn exact_edit_match(text: &[char], old: &[char], occurrence: Option<usize>) -> (r: Result<
    Anchor,
    ExactMatchError,
>)
    requires
        text@.len() < usize::MAX,
    ensures
        match r {
            Ok(found) => {
                &&& selection(anchor_starts(text@, old@), occurrence) matches Ok(at)
                &&& found.start == anchor_start(text@, at)
                &&& found.end == anchor_end(text@, old@, at)
                &&& found.count == anchor_starts(text@, old@).len()
                &&& found.start <= found.end <= text@.len()
                &&& as_lf(text@.subrange(found.start as int, found.end as int)) == as_lf(old@)
            },
            Err(e) => selection(anchor_starts(text@, old@), occurrence) == Err::<
                int,
                ExactMatchError,
            >(e),
        },
{
    let (lf, starts) = tokens(text);
    let (needle, _) = tokens(old);
    proof {
        lemma_as_lf_len(text@);
    }
    match locate(&lf, &needle, occurrence) {
        Ok(found) => {
            proof {
                lemma_region(text@, found.at as int, found.at + needle@.len());
                lemma_physical(text@, found.at + needle@.len());
            }
            Ok(
                Anchor {
                    start: starts[found.at],
                    end: starts[found.at + needle.len()],
                    count: found.count,
                },
            )
        },
        Err(e) => Err(e),
    }
}

proof fn lemma_as_lf_len(s: Seq<char>)
    ensures
        as_lf(s).len() <= s.len(),
{
    lemma_lf_from_len(s, 0);
}

proof fn lemma_lf_from_len(s: Seq<char>, i: int)
    requires
        0 <= i,
    ensures
        lf_from(s, i).len() <= if i <= s.len() {
            s.len() - i
        } else {
            0
        },
    decreases s.len() - i,
{
    if i < s.len() {
        lemma_lf_step(s, i);
        lemma_lf_from_len(s, i + token_len(s, i));
    }
}

/// One line break in the given encoding.
pub open spec fn line_break(crlf: bool) -> Seq<char> {
    if crlf {
        seq!['\r', '\n']
    } else {
        seq!['\n']
    }
}

/// The encoding of each line break from character `i` on: `true` for CRLF.
pub open spec fn breaks_from(s: Seq<char>, i: int) -> Seq<bool>
    decreases s.len() - i,
{
    if i < 0 || i >= s.len() {
        Seq::empty()
    } else if crlf_at(s, i) {
        seq![true] + breaks_from(s, i + 2)
    } else if s[i] == '\n' {
        seq![false] + breaks_from(s, i + 1)
    } else {
        breaks_from(s, i + 1)
    }
}

/// The text from character `i` on with its line breaks, of which `k` came
/// before, encoded as `styles` says; those beyond `styles` stay as written.
pub open spec fn styled_from(s: Seq<char>, styles: Seq<bool>, i: int, k: int) -> Seq<char>
    decreases s.len() - i,
{
    if i < 0 || i >= s.len() {
        Seq::empty()
    } else if crlf_at(s, i) {
        line_break(if k < styles.len() {
            styles[k]
        } else {
            true
        }) + styled_from(s, styles, i + 2, k + 1)
    } else if s[i] == '\n' {
        line_break(if k < styles.len() {
            styles[k]
        } else {
            false
        }) + styled_from(s, styles, i + 1, k + 1)
    } else {
        seq![s[i]] + styled_from(s, styles, i + 1, k)
    }
}

/// What a hunk writes: in a mixed file each line break of `new` takes the
/// encoding of the line break it stands for in the matched region; elsewhere
/// `new` stands as it is.
pub open spec fn adapted(region: Seq<char>, new: Seq<char>, shape: LineEnding) -> Seq<char> {
    if shape == LineEnding::Mixed {
        styled_from(new, breaks_from(region, 0), 0, 0)
    } else {
        new
    }
}

/// The encodings of the line breaks of `text[from..to]`.
fn breaks_of(text: &[char], from: usize, to: usize) -> (out: Vec<bool>)
    requires
        from <= to <= text@.len(),
    ensures
        out@ == breaks_from(text@.subrange(from as int, to as int), 0),
{
    let mut out: Vec<bool> = Vec::new();
    let ghost region = text@.subrange(from as int, to as int);
    let mut i: usize = from;
    assert(out@ + breaks_from(region, 0) =~= breaks_from(region, 0));
    while i < to
        invariant
            from <= i <= to <= text@.len(),
            region == text@.subrange(from as int, to as int),
            out@ + breaks_from(region, i - from) == breaks_from(region, 0),
        decreases to - i,
    {
        let ghost before = out@;
        if text[i] == '\r' && i + 1 < to && text[i + 1] == '\n' {
            assert(crlf_at(region, i - from));
            out.push(true);
            assert(out@ + breaks_from(region, i - from + 2) =~= before + breaks_from(
                region,
                i - from,
            ));
            i = i + 2;
        } else if text[i] == '\n' {
            assert(!crlf_at(region, i - from));
            out.push(false);
            assert(out@ + breaks_from(region, i - from + 1) =~= before + breaks_from(
                region,
                i - from,
            ));
            i = i + 1;
        } else {
            assert(!crlf_at(region, i - from));
            i = i + 1;
        }
    }
    assert(out@ =~= breaks_from(region, 0));
    out
}

/// Adapts the replacement of a hunk to the region it matched.
pub fn adapt_edit_replacement(
    text: &[char],
    from: usize,
    to: usize,
    new: &[char],
    shape: LineEnding,
) -> (out: String)
    requires
        from <= to <= text@.len(),
        new@.len() < usize::MAX,
    ensures
        out@ == adapted(text@.subrange(from as int, to as int), new@, shape),
{
    if shape != LineEnding::Mixed {
        return text::string_of(new);
    }
    let styles = breaks_of(text, from, to);
    let n: usize = new.len();
    let mut out = String::new();
    let mut i: usize = 0;
    let mut k: usize = 0;
    assert(out@ + styled_from(new@, styles@, 0, 0) =~= styled_from(new@, styles@, 0, 0));
    while i < n
        invariant
            n == new@.len(),
            n < usize::MAX,
            k <= i <= n,
            out@ + styled_from(new@, styles@, i as int, k as int) == styled_from(
                new@,
                styles@,
                0,
                0,
            ),
        decreases n - i,
    {
        let ghost before = out@;
        let crlf = new[i] == '\r' && i + 1 < n && new[i + 1] == '\n';
        if crlf || new[i] == '\n' {
            let style = if k < styles.len() {
                styles[k]
            } else {
                crlf
            };
            if style {
                out.push('\r');
            }
            out.push('\n');
            let next: usize = if crlf {
                i + 2
            } else {
                i + 1
            };
            assert(out@ =~= before + line_break(style));
            assert(out@ + styled_from(new@, styles@, next as int, k + 1) =~= before + styled_from(
                new@,
                styles@,
                i as int,
                k as int,
            ));
            i = next;
            k = k + 1;
        } else {
            out.push(new[i]);
            assert(out@ + styled_from(new@, styles@, i + 1, k as int) =~= before + styled_from(
                new@,
                styles@,
                i as int,
                k as int,
            ));
            i = i + 1;
        }
    }
    assert(out@ =~= styled_from(new@, styles@, 0, 0));
    out
}

proof fn lemma_styled_is_the_same_text(s: Seq<char>, styles: Seq<bool>, i: int, k: int)
    requires
        0 <= i <= s.len(),
        !has_lone_cr(s),
    ensures
        as_lf(styled_from(s, styles, i, k)) == lf_from(s, i),
    decreases s.len() - i,
{
    let r = styled_from(s, styles, i, k);
    if i < s.len() {
        lemma_lf_step(s, i);
        let next = i + token_len(s, i);
        let brk = crlf_at(s, i) || s[i] == '\n';
        let k2 = if brk {
            k + 1
        } else {
            k
        };
        lemma_styled_is_the_same_text(s, styles, next, k2);
        let rest = styled_from(s, styles, next, k2);
        let head = if brk {
            line_break(if k < styles.len() {
                styles[k]
            } else {
                crlf_at(s, i)
            })
        } else {
            seq![s[i]]
        };
        assert(r == head + rest);
        if s[i] == '\r' && !crlf_at(s, i) {
            assert(lone_cr_at(s, i));
        }
        assert(head.last() != '\r');
        lemma_as_lf_concat(head, rest);
        lemma_as_lf_token(head, 0);
        assert(head.subrange(0, head.len() as int) =~= head);
    } else {
        assert(r =~= Seq::<char>::empty());
        assert(as_lf(r) =~= Seq::<char>::empty());
        assert(lf_from(s, i) =~= Seq::<char>::empty());
    }
}

/// Adapting a replacement without lone carriage returns changes only the
/// encoding of its line breaks.
pub proof fn law_adapting_keeps_the_logical_text(
    region: Seq<char>,
    new: Seq<char>,
    shape: LineEnding,
)
    requires
        !has_lone_cr(new),
    ensures
        as_lf(adapted(region, new, shape)) == as_lf(new),
{
    lemma_styled_is_the_same_text(new, breaks_from(region, 0), 0, 0);
}

/// The LF form of a text that is not empty is not empty.
pub proof fn lemma_lf_form_is_written(s: Seq<char>)
    requires
        s.len() > 0,
    ensures
        as_lf(s).len() > 0,
{
    lemma_lf_step(s, 0);
}

/// Normalizing an argument without lone carriage returns adds none.
pub proof fn lemma_normalizing_adds_no_lone_cr(s: Seq<char>, target: LineEnding)
    requires
        !has_lone_cr(s),
    ensures
        !has_lone_cr(normalized(s, target)),
{
    if target == LineEnding::Lf || target == LineEnding::CrLf {
        law_uniform_target_keeps_its_style(s, target);
    }
}

// ---------------------------------------------------------------------
// Laws over the characters
// ---------------------------------------------------------------------

/// The shape of a text by its characters: none without a carriage return and
/// a line feed; LF with line feeds and no carriage return; CRLF where each of
/// the two stands beside the other; mixed in every other case.
pub proof fn law_a_shape_is_what_the_breaks_are(s: Seq<char>)
    ensures
        line_ending(s) == LineEnding::NoBreaks <==> !s.contains('\n') && !s.contains('\r'),
        line_ending(s) == LineEnding::Lf <==> s.contains('\n') && !s.contains('\r'),
        line_ending(s) == LineEnding::CrLf <==> s.contains('\n') && (forall|k: int|
            0 <= k < s.len() && #[trigger] s[k] == '\n' ==> k > 0 && s[k - 1] == '\r') && (forall|
            k: int,
        |
            0 <= k < s.len() && #[trigger] s[k] == '\r' ==> k + 1 < s.len() && s[k + 1] == '\n'),
{
    if s.contains('\n') {
        let k = choose|k: int| 0 <= k < s.len() && s[k] == '\n';
        if crlf_at(s, k - 1) {
            assert(has_crlf(s));
            assert(s.contains(s[k - 1]));
        } else {
            assert(lone_lf_at(s, k));
            assert(has_lone_lf(s));
        }
    }
    if s.contains('\r') {
        let k = choose|k: int| 0 <= k < s.len() && s[k] == '\r';
        if crlf_at(s, k) {
            assert(has_crlf(s));
        } else {
            assert(lone_cr_at(s, k));
            assert(has_lone_cr(s));
        }
    }
    if has_crlf(s) {
        let k = choose|k: int| crlf_at(s, k);
        assert(s.contains(s[k]));
        assert(s.contains(s[k + 1]));
    }
    if has_lone_lf(s) {
        let k = choose|k: int| lone_lf_at(s, k);
        assert(s.contains(s[k]));
        if k > 0 {
            assert(s[k - 1] != '\r');
        }
    }
    if has_lone_cr(s) {
        let k = choose|k: int| lone_cr_at(s, k);
        assert(s.contains(s[k]));
        if k + 1 < s.len() {
            assert(s[k + 1] != '\n');
        }
    }
    if line_ending(s) == LineEnding::CrLf {
        assert forall|k: int| 0 <= k < s.len() && #[trigger] s[k] == '\n' implies k > 0 && s[k - 1]
            == '\r' by {
            assert(!lone_lf_at(s, k));
        }
        assert forall|k: int| 0 <= k < s.len() && #[trigger] s[k] == '\r' implies k + 1 < s.len()
            && s[k + 1] == '\n' by {
            assert(!lone_cr_at(s, k));
        }
    }
}

/// Writing CRLF as LF takes out the carriage return of each CRLF and changes
/// nothing else: a text without CRLF stays, and one with CRLF is what stands
/// before the first, a line feed, and the rest written so.
pub proof fn law_lf_form_drops_the_carriage_returns(s: Seq<char>, at: int)
    ensures
        (forall|k: int| 0 <= k && k + 1 < s.len() && s[k] == '\r' ==> #[trigger] s[k + 1] != '\n')
            ==> as_lf(s) == s,
        0 <= at && at + 1 < s.len() && s[at] == '\r' && s[at + 1] == '\n' && (forall|k: int|
            0 <= k < at && s[k] == '\r' ==> #[trigger] s[k + 1] != '\n') ==> as_lf(s) == s.take(at)
            + seq!['\n'] + as_lf(s.skip(at + 2)),
{
    let crlf = seq!['\r', '\n'];
    if forall|k: int| 0 <= k && k + 1 < s.len() && s[k] == '\r' ==> #[trigger] s[k + 1] != '\n' {
        if text::contains(s, crlf) {
            let k = choose|k: int| text::occurs_at(s, crlf, k);
            lemma_crlf_occurs(s, k);
            assert(s[k + 1] == '\n');
        }
        text::law_replacing_goes_from_left_to_right(s, crlf, seq!['\n'], 0);
    }
    if 0 <= at && at + 1 < s.len() && s[at] == '\r' && s[at + 1] == '\n' && (forall|k: int|
        0 <= k < at && s[k] == '\r' ==> #[trigger] s[k + 1] != '\n') {
        assert(s.subrange(at, at + 2) =~= crlf);
        assert forall|k: int| 0 <= k < at implies #[trigger] s.subrange(k, k + crlf.len()) != crlf by {
            let part = s.subrange(k, k + 2);
            assert(part[0] == s[k] && part[1] == s[k + 1]);
        }
        text::law_replacing_goes_from_left_to_right(s, crlf, seq!['\n'], at);
    }
}

proof fn lemma_matches_of_prefix(text: Seq<char>, needle: Seq<char>, from: int, n: int)
    requires
        needle.len() > 0,
        0 <= from,
        0 <= n < text::matches_from(text, needle, from).len(),
    ensures
        ({
            let all = text::matches_from(text, needle, from);
            text::matches_from(text.take(all[n]), needle, from) == all.take(n)
        }),
    decreases text.len() + 1 - from,
{
    let all = text::matches_from(text, needle, from);
    text::lemma_matches_from(text, needle, from);
    let at = all[n];
    let head = text.take(at);
    text::law_an_occurrence_is_equal_characters(text, needle, from);
    text::law_an_occurrence_is_equal_characters(head, needle, from);
    if text::occurs_at(text, needle, from) {
        let next = from + needle.len();
        let rest = text::matches_from(text, needle, next);
        assert(all == seq![from] + rest);
        if n == 0 {
            assert(at == from);
            assert(all.take(0) =~= Seq::<int>::empty());
        } else {
            assert(rest[n - 1] == at);
            lemma_matches_of_prefix(text, needle, next, n - 1);
            text::lemma_matches_from(text, needle, next);
            assert(next <= at);
            assert(text::occurs_at(head, needle, from)) by {
                assert forall|k: int| 0 <= k < needle.len() implies head[from + k]
                    == #[trigger] needle[k] by {
                    assert(text[from + k] == needle[k]);
                }
            }
            assert(all.take(n) =~= seq![from] + rest.take(n - 1));
        }
    } else {
        assert(all == text::matches_from(text, needle, from + 1));
        lemma_matches_of_prefix(text, needle, from + 1, n);
        if from + needle.len() <= head.len() && text::occurs_at(head, needle, from) {
            assert forall|k: int| 0 <= k < needle.len() implies text[from + k]
                == #[trigger] needle[k] by {
                assert(head[from + k] == needle[k]);
            }
        }
        if from + needle.len() > head.len() {
            text::lemma_matches_from(text, needle, from + 1);
            if n > 0 {
                assert(all[0] + needle.len() <= at);
                assert(from + 1 <= all[0]);
            }
            assert(all.take(n) =~= Seq::<int>::empty());
        }
    }
}

/// With a number, the occurrence of that number is selected, counted from
/// one: the sought text stands there, and before it stand exactly one fewer
/// occurrences. The first one is the first place where the text stands at all.
pub proof fn law_a_numbered_occurrence_has_that_many_before_it(
    text: Seq<char>,
    needle: Seq<char>,
    n: usize,
    at: int,
)
    requires
        needle.len() > 0,
        selection(text::match_starts(text, needle), Some(n)) == Ok::<int, ExactMatchError>(at),
    ensures
        n >= 1,
        0 <= at && at + needle.len() <= text.len(),
        text.subrange(at, at + needle.len()) == needle,
        text::match_starts(text.take(at), needle).len() == n - 1,
        n == 1 ==> forall|p: int|
            p < at ==> !#[trigger] text::occurs_at(text, needle, p),
{
    let starts = text::match_starts(text, needle);
    text::law_occurrences_are_apart(text, needle);
    assert(exists|k: int| 0 <= k < starts.len() && starts[k] == at);
    assert(starts[n - 1] == at);
    lemma_matches_of_prefix(text, needle, 0, n - 1);
    if n == 1 {
        assert forall|p: int| p < at implies !#[trigger] text::occurs_at(text, needle, p) by {
            if text::occurs_at(text, needle, p) {
                let k = text::law_every_occurrence_is_listed_or_overlapped(text, needle, p);
                if k > 0 {
                    assert(starts[0] + needle.len() <= starts[k]);
                }
            }
        }
    }
}

/// A number selects an occurrence exactly where there are that many; what
/// comes back otherwise counts them.
pub proof fn law_a_number_beyond_the_occurrences_is_no_match(
    text: Seq<char>,
    needle: Seq<char>,
    n: usize,
)
    requires
        needle.len() > 0,
        text.len() < usize::MAX,
    ensures
        selection(text::match_starts(text, needle), Some(n)) is Ok <==> 1 <= n
            <= text::match_starts(text, needle).len(),
        selection(text::match_starts(text, needle), Some(n)) matches Err(e) ==> e == (
        ExactMatchError::NoMatch { count: text::match_starts(text, needle).len() as usize }),
{
}

/// Without a number, the selected occurrence is the only one: the sought text
/// stands there, and neither before it nor behind it. Where it stands nowhere
/// there is no match, and where it stands twice without overlap it is
/// ambiguous.
pub proof fn law_an_unnumbered_occurrence_is_the_only_one(text: Seq<char>, needle: Seq<char>)
    requires
        needle.len() > 0,
    ensures
        ({
            match selection(text::match_starts(text, needle), None) {
                Ok(at) => {
                    &&& text::occurs_at(text, needle, at)
                    &&& forall|p: int|
                        #[trigger] text::occurs_at(text, needle, p) ==> at <= p < at + needle.len()
                },
                Err(ExactMatchError::NoMatch { .. }) => forall|p: int|
                    !#[trigger] text::occurs_at(text, needle, p),
                Err(ExactMatchError::Ambiguous { .. }) => exists|p: int, q: int|
                    p + needle.len() <= q && #[trigger] text::occurs_at(text, needle, p)
                        && #[trigger] text::occurs_at(text, needle, q),
            }
        }),
{
    let starts = text::match_starts(text, needle);
    text::law_occurrences_are_apart(text, needle);
    assert forall|p: int| #[trigger] text::occurs_at(text, needle, p) implies starts.len() > 0 && (
    starts.len() == 1 ==> starts[0] <= p < starts[0] + needle.len()) by {
        let k = text::law_every_occurrence_is_listed_or_overlapped(text, needle, p);
    }
    if starts.len() == 1 {
        assert(text::occurs_at(text, needle, starts[0]));
    } else if starts.len() > 1 {
        assert(text::occurs_at(text, needle, starts[0]));
        assert(text::occurs_at(text, needle, starts[1]));
    }
}

/// An anchor is found whatever the encoding of its line breaks: the selected
/// region reads the same in LF form, and neither end of it cuts a CRLF in two.
/// With a number, that many less one stand before it; without, it stands
/// nowhere else.
pub proof fn law_an_anchor_is_exact_up_to_its_breaks(
    text: Seq<char>,
    old: Seq<char>,
    occurrence: Option<usize>,
    at: int,
)
    requires
        as_lf(old).len() > 0,
        selection(anchor_starts(text, old), occurrence) == Ok::<int, ExactMatchError>(at),
    ensures
        ({
            let start = anchor_start(text, at);
            let end = anchor_end(text, old, at);
            &&& 0 <= start <= end <= text.len()
            &&& as_lf(text.subrange(start, end)) == as_lf(old)
            &&& !(0 < start < text.len() && text[start - 1] == '\r' && text[start] == '\n')
            &&& !(0 < end < text.len() && text[end - 1] == '\r' && text[end] == '\n')
            &&& match occurrence {
                Some(n) => text::match_starts(as_lf(text.take(start)), as_lf(old)).len() == n - 1,
                None => !text::contains(as_lf(text.take(start)), as_lf(old)) && !text::contains(
                    as_lf(text.skip(end)),
                    as_lf(old),
                ),
            }
        }),
{
    let lf = as_lf(text);
    let needle = as_lf(old);
    let m = needle.len() as int;
    let starts = text::match_starts(lf, needle);
    text::law_occurrences_are_apart(lf, needle);
    assert(exists|k: int| 0 <= k < starts.len() && starts[k] == at);
    lemma_physical(text, at);
    lemma_physical(text, at + m);
    lemma_region(text, at, at + m);
    assert(lf.subrange(at, at + m) == needle);
    match occurrence {
        Some(n) => {
            law_a_numbered_occurrence_has_that_many_before_it(lf, needle, n, at);
        },
        None => {
            let head = lf.take(at);
            let tail = lf.skip(at + m);
            if text::contains(head, needle) {
                let p = choose|p: int| text::occurs_at(head, needle, p);
                assert(lf.subrange(p, p + m) =~= head.subrange(p, p + m));
                let k = text::law_every_occurrence_is_listed_or_overlapped(lf, needle, p);
            }
            if text::contains(tail, needle) {
                let p = choose|p: int| text::occurs_at(tail, needle, p);
                let q = at + m + p;
                assert(lf.subrange(q, q + m) =~= tail.subrange(p, p + m));
                let k = text::law_every_occurrence_is_listed_or_overlapped(lf, needle, q);
            }
        },
    }
}

/// Text in a file whose breaks are mixed, or that has none, is taken as it is;
/// so is text that already has the breaks of the file, or no breaks.
pub proof fn law_only_other_breaks_are_changed(s: Seq<char>, target: LineEnding)
    ensures
        target == LineEnding::Mixed || target == LineEnding::NoBreaks ==> normalized(s, target)
            == s,
        !s.contains('\n') ==> normalized(s, target) == s,
        line_ending(s) == target ==> normalized(s, target) == s,
{
    if !s.contains('\n') && has_crlf(s) {
        let i = choose|i: int| crlf_at(s, i);
        assert(s[i + 1] == '\n');
    }
}

/// The breaks of a text are its line feeds in order, and each is a CRLF
/// exactly where a carriage return stands before it. `at` is a line feed.
pub proof fn law_each_break_is_listed(s: Seq<char>, at: int)
    requires
        0 <= at < s.len(),
        s[at] == '\n',
    ensures
        breaks_from(s, 0).len() == text::feeds(s),
        text::feeds(s.take(at)) < breaks_from(s, 0).len(),
        breaks_from(s, 0)[text::feeds(s.take(at)) as int] == (at > 0 && s[at - 1] == '\r'),
{
    lemma_breaks_from(s, 0, at);
    assert(s.skip(0) =~= s);
    assert(s.subrange(0, at) =~= s.take(at));
}

proof fn lemma_breaks_from(s: Seq<char>, from: int, at: int)
    requires
        0 <= from <= s.len(),
        from == 0 || !crlf_at(s, from - 1),
    ensures
        breaks_from(s, from).len() == text::feeds(s.skip(from)),
        from <= at < s.len() && s[at] == '\n' ==> text::feeds(s.subrange(from, at)) < breaks_from(
            s,
            from,
        ).len() && breaks_from(s, from)[text::feeds(s.subrange(from, at)) as int] == (at > 0
            && s[at - 1] == '\r'),
    decreases s.len() - from,
{
    if from < s.len() {
        let step = token_len(s, from);
        lemma_breaks_from(s, from + step, at);
        let head = s.subrange(from, from + step);
        assert(s.skip(from) =~= head + s.skip(from + step));
        text::lemma_feeds_concat(head, s.skip(from + step));
        reveal_with_fuel(text::feeds, 3);
        if step == 2 {
            assert(head =~= seq!['\r', '\n']);
            assert(head.drop_last() =~= seq!['\r']);
            assert(seq!['\r'].drop_last() =~= Seq::<char>::empty());
        } else {
            assert(head =~= seq![s[from]]);
            assert(head.drop_last() =~= Seq::<char>::empty());
        }
        if from <= at < s.len() && s[at] == '\n' {
            if at < from + step {
                let short = s.subrange(from, at);
                if step == 2 {
                    assert(at == from + 1);
                    assert(short =~= seq!['\r']);
                    assert(seq!['\r'].drop_last() =~= Seq::<char>::empty());
                } else {
                    assert(at == from);
                    assert(short =~= Seq::<char>::empty());
                    if at > 0 && s[at - 1] == '\r' {
                        assert(crlf_at(s, from - 1));
                    }
                }
            } else {
                assert(s.subrange(from, at) =~= head + s.subrange(from + step, at));
                text::lemma_feeds_concat(head, s.subrange(from + step, at));
            }
        }
    } else {
        assert(s.skip(from) =~= Seq::<char>::empty());
    }
}

/// In a file of mixed breaks, each break of the written text is in the style
/// of the break of the same number in the region that it replaces, and in its
/// own style where the region has no such break; in any other file the text
/// is written as it is.
pub proof fn law_breaks_follow_the_region(region: Seq<char>, new: Seq<char>, k: int)
    requires
        !has_lone_cr(new),
        0 <= k < breaks_from(new, 0).len(),
    ensures
        breaks_from(adapted(region, new, LineEnding::Mixed), 0).len() == breaks_from(new, 0).len(),
        k < breaks_from(region, 0).len() ==> breaks_from(
            adapted(region, new, LineEnding::Mixed),
            0,
        )[k] == breaks_from(region, 0)[k],
        k >= breaks_from(region, 0).len() ==> breaks_from(
            adapted(region, new, LineEnding::Mixed),
            0,
        )[k] == breaks_from(new, 0)[k],
        adapted(region, new, LineEnding::Lf) == new,
        adapted(region, new, LineEnding::CrLf) == new,
        adapted(region, new, LineEnding::NoBreaks) == new,
{
    let styles = breaks_from(region, 0);
    lemma_styled_breaks(new, styles, 0, 0);
    assert(breaks_from(styled_from(new, styles, 0, 0), 0)[k] == if k < styles.len() {
        styles[k]
    } else {
        breaks_from(new, 0)[k]
    });
}

proof fn lemma_breaks_shift(a: Seq<char>, b: Seq<char>, i: int)
    requires
        0 <= i <= b.len(),
    ensures
        breaks_from(a + b, a.len() + i) == breaks_from(b, i),
    decreases b.len() - i,
{
    if i < b.len() {
        let s = a + b;
        assert(crlf_at(s, a.len() + i) == crlf_at(b, i));
        assert(s[a.len() + i] == b[i]);
        if crlf_at(b, i) {
            lemma_breaks_shift(a, b, i + 2);
        } else {
            lemma_breaks_shift(a, b, i + 1);
        }
    }
}

proof fn lemma_styled_breaks(s: Seq<char>, styles: Seq<bool>, i: int, k: int)
    requires
        0 <= i <= s.len(),
        0 <= k,
        !has_lone_cr(s),
    ensures
        ({
            let out = breaks_from(styled_from(s, styles, i, k), 0);
            &&& out.len() == breaks_from(s, i).len()
            &&& forall|j: int|
                0 <= j < out.len() ==> #[trigger] out[j] == if k + j < styles.len() {
                    styles[k + j]
                } else {
                    breaks_from(s, i)[j]
                }
        }),
    decreases s.len() - i,
{
    if i < s.len() {
        let all = styled_from(s, styles, i, k);
        let out = breaks_from(all, 0);
        if crlf_at(s, i) || s[i] == '\n' {
            let own = crlf_at(s, i);
            let next = if own {
                i + 2
            } else {
                i + 1
            };
            lemma_styled_breaks(s, styles, next, k + 1);
            let style = if k < styles.len() {
                styles[k]
            } else {
                own
            };
            let rest = styled_from(s, styles, next, k + 1);
            let head = line_break(style);
            assert(all == head + rest);
            lemma_breaks_shift(head, rest, 0);
            if style {
                assert(all[0] == '\r' && all[1] == '\n');
                assert(crlf_at(all, 0));
            } else {
                assert(all[0] == '\n');
                assert(!crlf_at(all, 0));
            }
            assert(out == seq![style] + breaks_from(rest, 0));
            let later = breaks_from(rest, 0);
            let source = breaks_from(s, next);
            assert(breaks_from(s, i) == seq![own] + source);
            assert forall|j: int| 0 <= j < out.len() implies #[trigger] out[j] == if k + j
                < styles.len() {
                styles[k + j]
            } else {
                breaks_from(s, i)[j]
            } by {
                if j > 0 {
                    assert(out[j] == later[j - 1]);
                    assert(breaks_from(s, i)[j] == source[j - 1]);
                }
            }
        } else {
            lemma_styled_breaks(s, styles, i + 1, k);
            let rest = styled_from(s, styles, i + 1, k);
            let head = seq![s[i]];
            assert(all == head + rest);
            lemma_breaks_shift(head, rest, 0);
            if s[i] == '\r' {
                assert(lone_cr_at(s, i));
            }
            assert(all[0] == s[i]);
            assert(!crlf_at(all, 0));
        }
    }
}

/// The names of the ways in which lines end.
pub proof fn law_the_names_of_line_endings()
    ensures
        line_ending_name(LineEnding::NoBreaks) == "none"@,
        line_ending_name(LineEnding::Lf) == "lf"@,
        line_ending_name(LineEnding::CrLf) == "crlf"@,
        line_ending_name(LineEnding::Mixed) == "mixed"@,
{
}

} // verus!
