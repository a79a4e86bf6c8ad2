//! Lists of all the places that something holds of, in order.

use vstd::prelude::*;

verus! {

/// `at` lists everything that `wanted` holds of and nothing else, each once, and what comes
/// before stands before.
pub open spec fn lists_all<K>(
    at: Seq<K>,
    wanted: spec_fn(K) -> bool,
    before: spec_fn(K, K) -> bool,
) -> bool {
    &&& forall|i: int| 0 <= i < at.len() ==> wanted(#[trigger] at[i])
    &&& forall|i: int, j: int|
        0 <= i < j < at.len() ==> before(#[trigger] at[i], #[trigger] at[j])
    &&& forall|k: K| #[trigger] wanted(k) ==> at.contains(k)
}

/// Places from the first to the last.
pub open spec fn ascending() -> spec_fn(int, int) -> bool {
    |a: int, b: int| a < b
}

/// Nothing is wanted, so nothing is listed.
pub proof fn lemma_lists_none<K>(wanted: spec_fn(K) -> bool, before: spec_fn(K, K) -> bool)
    requires
        forall|k: K| !#[trigger] wanted(k),
    ensures
        lists_all(Seq::empty(), wanted, before),
{
}

/// Two lists, one behind the other, list all that either lists.
pub proof fn lemma_lists_both<K>(
    a: Seq<K>,
    b: Seq<K>,
    in_a: spec_fn(K) -> bool,
    in_b: spec_fn(K) -> bool,
    wanted: spec_fn(K) -> bool,
    before: spec_fn(K, K) -> bool,
)
    requires
        lists_all(a, in_a, before),
        lists_all(b, in_b, before),
        forall|k: K| #[trigger] wanted(k) <==> in_a(k) || in_b(k),
        forall|x: K, y: K| #[trigger] in_a(x) && #[trigger] in_b(y) ==> before(x, y),
    ensures
        lists_all(a + b, wanted, before),
{
    let c = a + b;
    assert forall|i: int| 0 <= i < c.len() implies wanted(#[trigger] c[i]) by {
        if i < a.len() {
            assert(c[i] == a[i]);
            assert(in_a(a[i]));
        } else {
            assert(c[i] == b[i - a.len()]);
            assert(in_b(b[i - a.len()]));
        }
    }
    assert forall|i: int, j: int| 0 <= i < j < c.len() implies before(
        #[trigger] c[i],
        #[trigger] c[j],
    ) by {
        if j < a.len() {
            assert(c[i] == a[i] && c[j] == a[j]);
        } else if i >= a.len() {
            assert(c[i] == b[i - a.len()] && c[j] == b[j - a.len()]);
        } else {
            assert(c[i] == a[i] && c[j] == b[j - a.len()]);
            assert(in_a(a[i]) && in_b(b[j - a.len()]));
        }
    }
    assert forall|k: K| #[trigger] wanted(k) implies c.contains(k) by {
        if in_a(k) {
            let i = choose|i: int| 0 <= i < a.len() && a[i] == k;
            assert(c[i] == k);
        } else {
            assert(b.contains(k));
            let i = choose|i: int| 0 <= i < b.len() && b[i] == k;
            assert(c[a.len() + i] == k);
        }
    }
}

/// A list with one more at its end, where that is wanted too.
pub open spec fn with_next<K>(at: Seq<K>, next: K, is_wanted: bool) -> Seq<K> {
    if is_wanted {
        at.push(next)
    } else {
        at
    }
}

/// One more place, behind all others, is listed where it is wanted.
pub proof fn lemma_lists_next<K>(
    at: Seq<K>,
    next: K,
    in_at: spec_fn(K) -> bool,
    wanted: spec_fn(K) -> bool,
    before: spec_fn(K, K) -> bool,
)
    requires
        lists_all(at, in_at, before),
        forall|k: K| k != next ==> (#[trigger] wanted(k) <==> in_at(k)),
        !in_at(next),
        forall|k: K| #[trigger] in_at(k) ==> before(k, next),
    ensures
        lists_all(with_next(at, next, wanted(next)), wanted, before),
{
    let c = with_next(at, next, wanted(next));
    assert forall|i: int| 0 <= i < c.len() implies wanted(#[trigger] c[i]) by {
        if i < at.len() {
            assert(c[i] == at[i]);
            assert(in_at(at[i]));
        }
    }
    assert forall|i: int, j: int| 0 <= i < j < c.len() implies before(
        #[trigger] c[i],
        #[trigger] c[j],
    ) by {
        assert(c[i] == at[i]);
        assert(in_at(at[i]));
        if j < at.len() {
            assert(c[j] == at[j]);
        }
    }
    assert forall|k: K| #[trigger] wanted(k) implies c.contains(k) by {
        if k == next {
            assert(c[at.len() as int] == next);
        } else {
            assert(in_at(k));
            assert(at.contains(k));
            let i = choose|i: int| 0 <= i < at.len() && at[i] == k;
            assert(c[i] == k);
        }
    }
}

/// Two lists of the same places in the same order are the same.
pub proof fn law_one_list(a: Seq<int>, b: Seq<int>, wanted: spec_fn(int) -> bool)
    requires
        lists_all(a, wanted, ascending()),
        lists_all(b, wanted, ascending()),
    ensures
        a == b,
    decreases a.len() + b.len(),
{
    if a.len() == 0 {
        if b.len() > 0 {
            assert(wanted(b[0]));
            assert(a.contains(b[0]));
        }
        assert(a =~= b);
    } else if b.len() == 0 {
        assert(wanted(a[0]));
        assert(b.contains(a[0]));
    } else {
        let lt = ascending();
        let x = a.last();
        let y = b.last();
        assert(wanted(a[a.len() - 1]) && wanted(b[b.len() - 1]));
        assert(a.contains(y) && b.contains(x));
        let i = choose|i: int| 0 <= i < a.len() && a[i] == y;
        let j = choose|j: int| 0 <= j < b.len() && b[j] == x;
        if i < a.len() - 1 {
            assert(lt(a[i], a[a.len() - 1]));
        }
        if j < b.len() - 1 {
            assert(lt(b[j], b[b.len() - 1]));
        }
        assert(x == y);
        let fewer = |k: int| wanted(k) && k != x;
        lemma_without_last(a, wanted, fewer);
        lemma_without_last(b, wanted, fewer);
        law_one_list(a.drop_last(), b.drop_last(), fewer);
        assert(a =~= a.drop_last().push(x));
        assert(b =~= b.drop_last().push(x));
    }
}

/// A list without its last place lists all others.
proof fn lemma_without_last(
    a: Seq<int>,
    wanted: spec_fn(int) -> bool,
    fewer: spec_fn(int) -> bool,
)
    requires
        lists_all(a, wanted, ascending()),
        a.len() > 0,
        forall|k: int| #[trigger] fewer(k) <==> wanted(k) && k != a.last(),
    ensures
        lists_all(a.drop_last(), fewer, ascending()),
{
    let t = a.drop_last();
    let lt = ascending();
    assert forall|i: int| 0 <= i < t.len() implies fewer(#[trigger] t[i]) by {
        assert(t[i] == a[i]);
        assert(wanted(a[i]));
        assert(lt(a[i], a[a.len() - 1]));
    }
    assert forall|i: int, j: int| 0 <= i < j < t.len() implies lt(
        #[trigger] t[i],
        #[trigger] t[j],
    ) by {
        assert(t[i] == a[i] && t[j] == a[j]);
    }
    assert forall|k: int| #[trigger] fewer(k) implies t.contains(k) by {
        assert(a.contains(k));
        let i = choose|i: int| 0 <= i < a.len() && a[i] == k;
        assert(t[i] == k);
    }
}

} // verus!
