//! The order of strings, and sorting by it.
use crate::text;
use vstd::prelude::*;

verus! {

/// Whether `a` comes before `b`: by the first character in which they
/// differ, a prefix before what continues it. This is the order of the UTF-8
/// bytes too.
pub open spec fn before(a: Seq<char>, b: Seq<char>) -> bool
    decreases a.len(),
{
    if b.len() == 0 {
        false
    } else if a.len() == 0 {
        true
    } else if a[0] != b[0] {
        a[0] < b[0]
    } else {
        before(a.drop_first(), b.drop_first())
    }
}

pub proof fn lemma_before_is_a_strict_order(a: Seq<char>, b: Seq<char>, c: Seq<char>)
    ensures
        !before(a, a),
        before(a, b) ==> !before(b, a),
        before(a, b) && before(b, c) ==> before(a, c),
        !before(b, a) && !before(c, b) ==> !before(c, a),
        !before(a, b) && !before(b, a) ==> a == b,
    decreases a.len() + b.len() + c.len(),
{
    if a.len() > 0 && b.len() > 0 && c.len() > 0 {
        lemma_before_is_a_strict_order(a.drop_first(), b.drop_first(), c.drop_first());
        if a[0] == b[0] && a.drop_first() == b.drop_first() {
            assert(a =~= seq![a[0]] + a.drop_first());
            assert(b =~= seq![b[0]] + b.drop_first());
        }
    } else if a.len() > 0 && b.len() > 0 {
        lemma_before_is_a_strict_order(a.drop_first(), b.drop_first(), c);
        if a[0] == b[0] && a.drop_first() == b.drop_first() {
            assert(a =~= seq![a[0]] + a.drop_first());
            assert(b =~= seq![b[0]] + b.drop_first());
        }
    } else if a.len() > 0 {
        lemma_before_is_a_strict_order(a.drop_first(), b, c);
    } else if a.len() == 0 && b.len() == 0 {
        assert(a =~= b);
    }
}

/// Whether no text of a list comes before an earlier one.
pub open spec fn is_sorted(list: Seq<Seq<char>>) -> bool {
    forall|i: int, j: int| 0 <= i < j < list.len() ==> !before(list[j], list[i])
}

/// A list in order is given by what it holds.
pub proof fn lemma_sorted_unique(a: Seq<Seq<char>>, b: Seq<Seq<char>>)
    requires
        is_sorted(a),
        is_sorted(b),
        a.to_multiset() == b.to_multiset(),
    ensures
        a == b,
{
    let leq = |x: Seq<char>, y: Seq<char>| !before(y, x);
    assert(vstd::relations::total_ordering(leq)) by {
        assert forall|x: Seq<char>, y: Seq<char>, z: Seq<char>| #[trigger] leq(
            x,
            y,
        ) && #[trigger] leq(y, z) implies leq(x, z) by {
            lemma_before_is_a_strict_order(x, y, z);
        }
        assert forall|x: Seq<char>| #[trigger] leq(x, x) by {
            lemma_before_is_a_strict_order(x, x, x);
        }
        assert forall|x: Seq<char>, y: Seq<char>| #[trigger] leq(x, y) || #[trigger] leq(y, x) by {
            lemma_before_is_a_strict_order(x, y, x);
        }
        assert forall|x: Seq<char>, y: Seq<char>| #[trigger] leq(x, y) && #[trigger] leq(
            y,
            x,
        ) implies x == y by {
            lemma_before_is_a_strict_order(x, y, x);
        }
    }
    assert(vstd::relations::sorted_by(a, leq)) by {
        assert forall|i: int, j: int| 0 <= i < j < a.len() implies #[trigger] leq(a[i], a[j]) by {}
    }
    assert(vstd::relations::sorted_by(b, leq)) by {
        assert forall|i: int, j: int| 0 <= i < j < b.len() implies #[trigger] leq(b[i], b[j]) by {}
    }
    vstd::seq_lib::lemma_sorted_unique(a, b, leq);
}

/// Whether `a` comes before `b`.
pub fn comes_before(a: &str, b: &str) -> (r: bool)
    ensures
        r == before(a@, b@),
{
    let x = text::chars_of(a);
    let y = text::chars_of(b);
    let mut i: usize = 0;
    assert(x@.skip(0) =~= x@);
    assert(y@.skip(0) =~= y@);
    while i < x.len() && i < y.len()
        invariant
            x@ == a@,
            y@ == b@,
            i <= x@.len(),
            i <= y@.len(),
            before(a@, b@) == before(x@.skip(i as int), y@.skip(i as int)),
        decreases x@.len() - i,
    {
        if x[i] != y[i] {
            return x[i] < y[i];
        }
        assert(x@.skip(i as int).drop_first() =~= x@.skip(i + 1));
        assert(y@.skip(i as int).drop_first() =~= y@.skip(i + 1));
        i = i + 1;
    }
    i < y.len()
}

/// Sorts a list of strings.
pub fn sort(list: Vec<String>) -> (out: Vec<String>)
    ensures
        is_sorted(text::views(out@)),
        text::views(out@).to_multiset() == text::views(list@).to_multiset(),
        out@.len() == list@.len(),
{
    let mut out: Vec<String> = Vec::new();
    let ghost given = text::views(list@);
    let mut i: usize = 0;
    assert(given.take(0) =~= text::views(out@));
    while i < list.len()
        invariant
            i <= list@.len(),
            given == text::views(list@),
            out@.len() == i,
            is_sorted(text::views(out@)),
            text::views(out@).to_multiset() == given.take(i as int).to_multiset(),
        decreases list@.len() - i,
    {
        insert_sorted(&mut out, list[i].clone());
        proof {
            let next = given.take(i + 1);
            assert(next =~= given.take(i as int).push(given[i as int]));
            given.take(i as int).to_multiset_ensures();
        }
        i = i + 1;
    }
    assert(given.take(i as int) =~= given);
    out
}

/// Puts one string where it belongs: behind everything that does not come
/// after it.
fn insert_sorted(out: &mut Vec<String>, s: String)
    requires
        is_sorted(text::views(old(out)@)),
    ensures
        is_sorted(text::views(final(out)@)),
        text::views(final(out)@).to_multiset() == text::views(old(out)@).to_multiset().insert(s@),
        final(out)@.len() == old(out)@.len() + 1,
{
    let mut at: usize = out.len();
    let ghost list = text::views(out@);
    while at > 0 && comes_before(s.as_str(), out[at - 1].as_str())
        invariant
            at <= out@.len(),
            list == text::views(out@),
            out@ == old(out)@,
            forall|k: int| at <= k < list.len() ==> before(s@, list[k]),
        decreases at,
    {
        assert(out@[at - 1]@ == list[at - 1]);
        at = at - 1;
    }
    proof {
        assert forall|k: int| 0 <= k < at implies !before(s@, list[k]) by {
            assert(out@[at - 1]@ == list[at - 1]);
            lemma_before_is_a_strict_order(list[k], list[at - 1], s@);
        }
    }
    out.insert(at, s);
    proof {
        let after = text::views(out@);
        assert(after =~= list.insert(at as int, s@));
        assert forall|i: int, j: int| 0 <= i < j < after.len() implies !before(after[j], after[i]) by {
            lemma_before_is_a_strict_order(after[i], after[j], after[i]);
        }
        list.to_multiset_ensures();
        vstd::seq_lib::to_multiset_insert(list, at as int, s@);
    }
}

/// One text comes before another exactly where it is cut short by the other's
/// beginning, or holds the lesser character at the first place of difference;
/// `at` is how far the two agree.
pub proof fn law_the_first_difference_decides(a: Seq<char>, b: Seq<char>, at: int)
    requires
        0 <= at <= a.len(),
        at <= b.len(),
        forall|k: int| 0 <= k < at ==> a[k] == b[k],
        at < a.len() && at < b.len() ==> a[at] != b[at],
    ensures
        before(a, b) == (at < b.len() && (at == a.len() || a[at] < b[at])),
    decreases at,
{
    if at > 0 {
        assert(a[0] == b[0]);
        law_the_first_difference_decides(a.drop_first(), b.drop_first(), at - 1);
    }
}

/// A list in order holds no text before one that comes before it.
pub proof fn law_a_sorted_list_goes_up(list: Seq<Seq<char>>, i: int, j: int)
    requires
        is_sorted(list),
        0 <= i < j < list.len(),
    ensures
        list[i] == list[j] || before(list[i], list[j]),
{
    lemma_before_is_a_strict_order(list[i], list[j], list[i]);
}

} // verus!
