//! Stable sorting, and the order of lists by their first difference.

use vstd::prelude::*;

verus! {

// ── orders ──────────────────────────────────────────────────────────────────────

/// A type whose values stand in a strict and total order.
pub trait Ranked: View + Sized where Self::V: Sized {
    /// `a` comes before `b`.
    spec fn precedes(a: Self::V, b: Self::V) -> bool;

    /// Nothing comes before itself.
    proof fn precedes_is_strict(a: Self::V)
        ensures
            !Self::precedes(a, a),
    ;

    /// What comes before something comes before all that follows it.
    proof fn precedes_is_transitive(a: Self::V, b: Self::V, c: Self::V)
        requires
            Self::precedes(a, b),
            Self::precedes(b, c),
        ensures
            Self::precedes(a, c),
    ;

    /// Of two different values one comes before the other.
    proof fn precedes_is_total(a: Self::V, b: Self::V)
        ensures
            a == b || Self::precedes(a, b) || Self::precedes(b, a),
    ;

    /// Whether this value comes before the other.
    fn is_before(&self, other: &Self) -> (r: bool)
        ensures
            r == Self::precedes(self@, other@),
    ;
}

impl Ranked for u32 {
    open spec fn precedes(a: u32, b: u32) -> bool {
        a < b
    }

    proof fn precedes_is_strict(a: u32) {
    }

    proof fn precedes_is_transitive(a: u32, b: u32, c: u32) {
    }

    proof fn precedes_is_total(a: u32, b: u32) {
    }

    fn is_before(&self, other: &u32) -> (r: bool) {
        *self < *other
    }
}

// ── lists by their first difference ─────────────────────────────────────────────

/// A strict and total order.
pub open spec fn is_strict_order<A>(lt: spec_fn(A, A) -> bool) -> bool {
    &&& forall|x: A| !(#[trigger] lt(x, x))
    &&& forall|x: A, y: A, z: A| #[trigger] lt(x, y) && #[trigger] lt(y, z) ==> lt(x, z)
    &&& forall|x: A, y: A| x == y || #[trigger] lt(x, y) || lt(y, x)
}

/// List `a` comes before list `b`: it is smaller where they first differ, or ends there.
pub open spec fn list_before<A>(a: Seq<A>, b: Seq<A>, lt: spec_fn(A, A) -> bool) -> bool
    decreases a.len(),
{
    if b.len() == 0 {
        false
    } else if a.len() == 0 {
        true
    } else if a[0] == b[0] {
        list_before(a.drop_first(), b.drop_first(), lt)
    } else {
        lt(a[0], b[0])
    }
}

/// No list comes before itself.
pub proof fn lemma_list_strict<A>(a: Seq<A>, lt: spec_fn(A, A) -> bool)
    ensures
        !list_before(a, a, lt),
    decreases a.len(),
{
    if a.len() > 0 {
        lemma_list_strict(a.drop_first(), lt);
    }
}

/// The order of lists chains.
pub proof fn lemma_list_transitive<A>(
    a: Seq<A>,
    b: Seq<A>,
    c: Seq<A>,
    lt: spec_fn(A, A) -> bool,
)
    requires
        is_strict_order(lt),
        list_before(a, b, lt),
        list_before(b, c, lt),
    ensures
        list_before(a, c, lt),
    decreases a.len(),
{
    if a.len() > 0 {
        if a[0] == b[0] && b[0] == c[0] {
            lemma_list_transitive(a.drop_first(), b.drop_first(), c.drop_first(), lt);
        } else if a[0] == c[0] {
            assert(lt(a[0], b[0]) && lt(b[0], c[0]));
            assert(lt(a[0], c[0]));
        }
    }
}

/// Of two different lists one comes before the other.
pub proof fn lemma_list_total<A>(a: Seq<A>, b: Seq<A>, lt: spec_fn(A, A) -> bool)
    requires
        is_strict_order(lt),
    ensures
        a == b || list_before(a, b, lt) || list_before(b, a, lt),
    decreases a.len(),
{
    if a.len() == 0 || b.len() == 0 {
        if a.len() == b.len() {
            assert(a =~= b);
        }
    } else if a[0] == b[0] {
        lemma_list_total(a.drop_first(), b.drop_first(), lt);
        if a.drop_first() == b.drop_first() {
            assert(a =~= seq![a[0]] + a.drop_first());
            assert(b =~= seq![b[0]] + b.drop_first());
        }
    } else {
        assert(lt(a[0], b[0]) || lt(b[0], a[0]));
    }
}

/// Lists that begin alike compare as what follows.
pub proof fn lemma_list_skip<A>(a: Seq<A>, b: Seq<A>, lt: spec_fn(A, A) -> bool, k: int)
    requires
        0 <= k <= a.len(),
        k <= b.len(),
        forall|i: int| 0 <= i < k ==> a[i] == b[i],
    ensures
        list_before(a, b, lt) == list_before(a.skip(k), b.skip(k), lt),
    decreases k,
{
    if k == 0 {
        assert(a.skip(0) =~= a);
        assert(b.skip(0) =~= b);
    } else {
        lemma_list_skip(a.drop_first(), b.drop_first(), lt, k - 1);
        assert(a.drop_first().skip(k - 1) =~= a.skip(k));
        assert(b.drop_first().skip(k - 1) =~= b.skip(k));
    }
}

/// The order of bytes.
pub open spec fn byte_order() -> spec_fn(u8, u8) -> bool {
    |a: u8, b: u8| a < b
}

/// Whether bytes `a` come before bytes `b`.
pub fn bytes_before(a: &Vec<u8>, b: &Vec<u8>) -> (r: bool)
    ensures
        r == list_before(a@, b@, byte_order()),
{
    let mut i: usize = 0;
    while i < a.len() && i < b.len()
        invariant
            i <= a@.len(),
            i <= b@.len(),
            forall|j: int| 0 <= j < i ==> a@[j] == b@[j],
        decreases a@.len() - i,
    {
        if a[i] != b[i] {
            proof {
                lemma_list_skip(a@, b@, byte_order(), i as int);
            }
            return a[i] < b[i];
        }
        i += 1;
    }
    proof {
        lemma_list_skip(a@, b@, byte_order(), i as int);
    }
    a.len() < b.len()
}

// ── sorting ─────────────────────────────────────────────────────────────────────

/// In sorted order, entry `a` comes before entry `b`: by its value, or by its place where
/// the values are the same.
pub open spec fn earlier<T: Ranked>(items: Seq<T>, a: int, b: int) -> bool where T::V: Sized {
    T::precedes(items[a]@, items[b]@) || (items[a]@ == items[b]@ && a < b)
}

/// `order` lists the places from `from` up to `to`, all of them, in sorted order.
pub open spec fn is_order<T: Ranked>(
    items: Seq<T>,
    order: Seq<usize>,
    from: int,
    to: int,
) -> bool where T::V: Sized {
    &&& order.len() == to - from
    &&& forall|i: int| 0 <= i < order.len() ==> from <= #[trigger] order[i] < to
    &&& forall|x: usize| from <= x < to ==> #[trigger] order.contains(x)
    &&& forall|i: int, j: int|
        0 <= i < j < order.len() ==> earlier(items, #[trigger] order[i] as int, #[trigger] order[j] as int)
}

/// `earlier` chains.
proof fn lemma_earlier_chain<T: Ranked>(items: Seq<T>, a: int, b: int, c: int) where T::V: Sized
    requires
        earlier(items, a, b),
        earlier(items, b, c),
    ensures
        earlier(items, a, c),
{
    if T::precedes(items[a]@, items[b]@) && T::precedes(items[b]@, items[c]@) {
        T::precedes_is_transitive(items[a]@, items[b]@, items[c]@);
    }
}

/// No entry is earlier than itself.
proof fn lemma_earlier_strict<T: Ranked>(items: Seq<T>, a: int) where T::V: Sized
    ensures
        !earlier(items, a, a),
{
    T::precedes_is_strict(items[a]@);
}

/// Two lists of the same places in sorted order agree in their first `k` entries.
proof fn lemma_orders_agree<T: Ranked>(
    items: Seq<T>,
    p: Seq<usize>,
    q: Seq<usize>,
    from: int,
    to: int,
    k: int,
) where T::V: Sized
    requires
        is_order(items, p, from, to),
        is_order(items, q, from, to),
        0 <= k <= to - from,
    ensures
        forall|i: int| 0 <= i < k ==> p[i] == q[i],
    decreases k,
{
    if k > 0 {
        lemma_orders_agree(items, p, q, from, to, k - 1);
        let i = k - 1;
        if p[i] != q[i] {
            assert(from <= p[i] < to && from <= q[i] < to);
            assert(q.contains(p[i]) && p.contains(q[i]));
            let a = choose|a: int| 0 <= a < q.len() && q[a] == p[i];
            let b = choose|b: int| 0 <= b < p.len() && p[b] == q[i];
            if a < i {
                assert(earlier(items, p[a] as int, p[i] as int));
                lemma_earlier_strict(items, p[i] as int);
            } else if b < i {
                assert(earlier(items, q[b] as int, q[i] as int));
                lemma_earlier_strict(items, q[i] as int);
            } else {
                assert(earlier(items, q[i] as int, q[a] as int));
                assert(earlier(items, p[i] as int, p[b] as int));
                lemma_earlier_chain(items, p[i] as int, q[i] as int, p[i] as int);
                lemma_earlier_strict(items, p[i] as int);
            }
        }
    }
}

/// The places of `items` in sorted order.
pub open spec fn order_of<T: Ranked>(items: Seq<T>) -> Seq<usize> where T::V: Sized {
    choose|order: Seq<usize>| is_order(items, order, 0, items.len() as int)
}

/// There is one sorted order.
pub proof fn law_one_order<T: Ranked>(items: Seq<T>, order: Seq<usize>) where T::V: Sized
    requires
        is_order(items, order, 0, items.len() as int),
    ensures
        order == order_of(items),
{
    let o = order_of(items);
    let n = items.len() as int;
    assert(is_order(items, o, 0, n));
    lemma_orders_agree(items, order, o, 0, n, n);
    assert(order =~= o);
}

/// Of two entries one is earlier.
proof fn lemma_earlier_total<T: Ranked>(items: Seq<T>, a: int, b: int) where T::V: Sized
    requires
        a != b,
    ensures
        earlier(items, a, b) || earlier(items, b, a),
{
    T::precedes_is_total(items[a]@, items[b]@);
}

/// How many entries at the start of a sorted list are earlier than entry `x`: those before
/// that place are, and those from it on are not.
proof fn lemma_place_for<T: Ranked>(items: Seq<T>, order: Seq<usize>, x: int) -> (k: int) where
    T::V: Sized,

    requires
        is_order(items, order, 0, x),
    ensures
        0 <= k <= order.len(),
        forall|i: int| 0 <= i < k ==> earlier(items, #[trigger] order[i] as int, x),
        forall|i: int| k <= i < order.len() ==> earlier(items, x, #[trigger] order[i] as int),
{
    lemma_place_below(items, order, x, order.len() as int)
}

/// The place of entry `x` among the first `n` entries of a sorted list, all behind which are
/// later.
proof fn lemma_place_below<T: Ranked>(items: Seq<T>, order: Seq<usize>, x: int, n: int) -> (k:
    int) where T::V: Sized
    requires
        is_order(items, order, 0, x),
        0 <= n <= order.len(),
        forall|i: int| n <= i < order.len() ==> earlier(items, x, #[trigger] order[i] as int),
    ensures
        0 <= k <= n,
        forall|i: int| 0 <= i < k ==> earlier(items, #[trigger] order[i] as int, x),
        forall|i: int| k <= i < order.len() ==> earlier(items, x, #[trigger] order[i] as int),
    decreases n,
{
    if n == 0 {
        0
    } else {
        let last = order[n - 1] as int;
        assert(0 <= order[n - 1] < x);
        lemma_earlier_total(items, last, x);
        if earlier(items, last, x) {
            assert forall|i: int| 0 <= i < n implies earlier(items, #[trigger] order[i] as int, x) by {
                if i < n - 1 {
                    lemma_earlier_chain(items, order[i] as int, last, x);
                }
            }
            n
        } else {
            lemma_place_below(items, order, x, n - 1)
        }
    }
}

/// The first `n` places can be sorted.
proof fn lemma_order_of_first<T: Ranked>(items: Seq<T>, n: int) -> (order: Seq<usize>) where
    T::V: Sized,

    requires
        0 <= n <= items.len(),
        n <= usize::MAX,
    ensures
        is_order(items, order, 0, n),
    decreases n,
{
    if n == 0 {
        Seq::empty()
    } else {
        let o = lemma_order_of_first(items, n - 1);
        let k = lemma_place_for(items, o, n - 1);
        let x = (n - 1) as usize;
        let r = o.insert(k, x);
        assert forall|i: int| 0 <= i < r.len() implies 0 <= #[trigger] r[i] < n by {
            if i < k {
                assert(0 <= o[i] < n - 1);
            } else if i > k {
                assert(0 <= o[i - 1] < n - 1);
            }
        }
        assert forall|y: usize| 0 <= y < n implies #[trigger] r.contains(y) by {
            if y == x {
                assert(r[k] == x);
            } else {
                assert(o.contains(y));
                let i = choose|i: int| 0 <= i < o.len() && o[i] == y;
                if i < k {
                    assert(r[i] == y);
                } else {
                    assert(r[i + 1] == y);
                }
            }
        }
        assert forall|i: int, j: int| 0 <= i < j < r.len() implies earlier(
            items,
            #[trigger] r[i] as int,
            #[trigger] r[j] as int,
        ) by {
            let a = if i < k {
                i
            } else {
                i - 1
            };
            let b = if j < k {
                j
            } else {
                j - 1
            };
            if i == k {
                assert(r[j] == o[b]);
            } else if j == k {
                assert(r[i] == o[a]);
            } else {
                assert(r[i] == o[a] && r[j] == o[b]);
            }
        }
        r
    }
}

/// Every list that a machine can hold can be sorted.
pub proof fn law_order_exists<T: Ranked>(items: Seq<T>) where T::V: Sized
    requires
        items.len() <= usize::MAX,
    ensures
        is_order(items, order_of(items), 0, items.len() as int),
{
    let order = lemma_order_of_first(items, items.len() as int);
    assert(is_order(items, order, 0, items.len() as int));
}

/// Two sorted lists of places, one behind the other, as one.
fn merge<T: Ranked>(
    items: &Vec<T>,
    left: &Vec<usize>,
    right: &Vec<usize>,
    Ghost(from): Ghost<int>,
    Ghost(mid): Ghost<int>,
    Ghost(to): Ghost<int>,
) -> (order: Vec<usize>) where T::V: Sized
    requires
        0 <= from <= mid <= to <= items@.len(),
        is_order(items@, left@, from, mid),
        is_order(items@, right@, mid, to),
    ensures
        is_order(items@, order@, from, to),
{
    let mut order: Vec<usize> = Vec::new();
    let mut i: usize = 0;
    let mut j: usize = 0;
    while i < left.len() || j < right.len()
        invariant
            0 <= from <= mid <= to <= items@.len(),
            is_order(items@, left@, from, mid),
            is_order(items@, right@, mid, to),
            i <= left@.len(),
            j <= right@.len(),
            order@.len() == i + j,
            forall|k: int| 0 <= k < order@.len() ==> from <= #[trigger] order@[k] < to,
            forall|k: int| 0 <= k < i ==> order@.contains(#[trigger] left@[k]),
            forall|k: int| 0 <= k < j ==> order@.contains(#[trigger] right@[k]),
            forall|a: int, b: int|
                0 <= a < b < order@.len() ==> earlier(
                    items@,
                    #[trigger] order@[a] as int,
                    #[trigger] order@[b] as int,
                ),
            forall|a: int, b: int|
                0 <= a < order@.len() && i <= b < left@.len() ==> earlier(
                    items@,
                    #[trigger] order@[a] as int,
                    #[trigger] left@[b] as int,
                ),
            forall|a: int, b: int|
                0 <= a < order@.len() && j <= b < right@.len() ==> earlier(
                    items@,
                    #[trigger] order@[a] as int,
                    #[trigger] right@[b] as int,
                ),
        decreases left@.len() - i + right@.len() - j,
    {
        let take_left: bool = if i == left.len() {
            false
        } else if j == right.len() {
            true
        } else {
            let l: usize = left[i];
            let r: usize = right[j];
            assert(mid <= right@[j as int] < to);
            assert(from <= left@[i as int] < mid);
            !items[r].is_before(&items[l])
        };
        let ghost before = order@;
        if take_left {
            let x: usize = left[i];
            assert(from <= left@[i as int] < mid);
            proof {
                assert forall|b: int| j <= b < right@.len() implies earlier(
                    items@,
                    x as int,
                    #[trigger] right@[b] as int,
                ) by {
                    let r = right@[j as int] as int;
                    assert(mid <= right@[j as int] < to);
                    T::precedes_is_total(items@[x as int]@, items@[r]@);
                    assert(earlier(items@, x as int, r));
                    if b > j {
                        lemma_earlier_chain(items@, x as int, r, right@[b] as int);
                    }
                }
            }
            order.push(x);
            i += 1;
            proof {
                assert(order@[before.len() as int] == x);
                assert forall|k: int| 0 <= k < i implies order@.contains(#[trigger] left@[k]) by {
                    if k < i - 1 {
                        assert(before.contains(left@[k]));
                        let p = choose|p: int| 0 <= p < before.len() && before[p] == left@[k];
                        assert(order@[p] == left@[k]);
                    }
                }
                assert forall|k: int| 0 <= k < j implies order@.contains(#[trigger] right@[k]) by {
                    assert(before.contains(right@[k]));
                    let p = choose|p: int| 0 <= p < before.len() && before[p] == right@[k];
                    assert(order@[p] == right@[k]);
                }
            }
        } else {
            let x: usize = right[j];
            assert(mid <= right@[j as int] < to);
            proof {
                assert forall|b: int| i <= b < left@.len() implies earlier(
                    items@,
                    x as int,
                    #[trigger] left@[b] as int,
                ) by {
                    let l = left@[i as int] as int;
                    assert(earlier(items@, x as int, l));
                    if b > i {
                        lemma_earlier_chain(items@, x as int, l, left@[b] as int);
                    }
                }
            }
            order.push(x);
            j += 1;
            proof {
                assert(order@[before.len() as int] == x);
                assert forall|k: int| 0 <= k < i implies order@.contains(#[trigger] left@[k]) by {
                    assert(before.contains(left@[k]));
                    let p = choose|p: int| 0 <= p < before.len() && before[p] == left@[k];
                    assert(order@[p] == left@[k]);
                }
                assert forall|k: int| 0 <= k < j implies order@.contains(#[trigger] right@[k]) by {
                    if k < j - 1 {
                        assert(before.contains(right@[k]));
                        let p = choose|p: int| 0 <= p < before.len() && before[p] == right@[k];
                        assert(order@[p] == right@[k]);
                    }
                }
            }
        }
    }
    proof {
        assert forall|x: usize| from <= x < to implies #[trigger] order@.contains(x) by {
            if x < mid {
                assert(left@.contains(x));
                let k = choose|k: int| 0 <= k < left@.len() && left@[k] == x;
                assert(order@.contains(left@[k]));
            } else {
                assert(right@.contains(x));
                let k = choose|k: int| 0 <= k < right@.len() && right@[k] == x;
                assert(order@.contains(right@[k]));
            }
        }
    }
    order
}

/// The places from `from` up to `to` in sorted order.
fn sort_range<T: Ranked>(items: &Vec<T>, from: usize, to: usize) -> (order: Vec<usize>) where
    T::V: Sized,

    requires
        from <= to <= items@.len(),
    ensures
        is_order(items@, order@, from as int, to as int),
    decreases to - from,
{
    let mut order: Vec<usize> = Vec::new();
    if from == to {
        return order;
    }
    if to - from == 1 {
        order.push(from);
        assert(order@[0] == from);
        return order;
    }
    let mid: usize = from + (to - from) / 2;
    let left = sort_range(items, from, mid);
    let right = sort_range(items, mid, to);
    merge(
        items,
        &left,
        &right,
        Ghost(from as int),
        Ghost(mid as int),
        Ghost(to as int),
    )
}

/// The places of `items` in sorted order. Entries of the same value keep their order.
pub fn sorted_order<T: Ranked>(items: &Vec<T>) -> (order: Vec<usize>) where T::V: Sized
    ensures
        is_order(items@, order@, 0, items@.len() as int),
        order@ == order_of(items@),
{
    let order = sort_range(items, 0, items.len());
    proof {
        law_one_order(items@, order@);
    }
    order
}

} // verus!
