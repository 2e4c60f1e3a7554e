//! Stable ordering of a list by a key.
//!
//! Rows, process names and children are all presented in a sorted order in
//! which ties keep the order of the input. The order is described by a
//! sequence of positions: `order[i]` is the position, in the input, of the
//! item that comes out at place `i`.

use vstd::prelude::*;

verus! {

/// A total preorder.
pub trait KeyOrder: Sized {
    /// `self` does not come after `other`.
    spec fn le(self, other: Self) -> bool;

    proof fn le_total(a: Self, b: Self)
        ensures
            a.le(b) || b.le(a),
    ;

    proof fn le_transitive(a: Self, b: Self, c: Self)
        requires
            a.le(b),
            b.le(c),
        ensures
            a.le(c),
    ;
}

/// A value that is ordered by its view.
pub trait SortKey<S: KeyOrder>: View<V = S> + Sized {
    fn not_after(&self, other: &Self) -> (r: bool)
        ensures
            r == self@.le(other@),
    ;
}

/// The keys by which a list is sorted.
pub open spec fn views<S: KeyOrder, K: SortKey<S>>(keys: Seq<K>) -> Seq<S> {
    keys.map_values(|k: K| k@)
}

/// The item at position `i` comes out before the item at position `j`: by its
/// key, or, where the keys tie, by its place in the input.
pub open spec fn comes_before<K: KeyOrder>(keys: Seq<K>, i: int, j: int) -> bool {
    keys[i].le(keys[j]) && (keys[j].le(keys[i]) ==> i < j)
}

/// `order` lists every position of `keys` from the first to come out to the last.
pub open spec fn is_stable_order<K: KeyOrder>(keys: Seq<K>, order: Seq<int>) -> bool {
    &&& order.len() == keys.len()
    &&& ordered_within(keys, order, 0, keys.len() as int)
}

/// The positions in `order` lie between `lo` and `hi` and come out one after
/// the other.
pub open spec fn ordered_within<K: KeyOrder>(
    keys: Seq<K>,
    order: Seq<int>,
    lo: int,
    hi: int,
) -> bool {
    &&& forall|i: int| 0 <= i < order.len() ==> lo <= #[trigger] order[i] < hi
    &&& forall|i: int, j: int|
        0 <= i < j < order.len() ==> comes_before(keys, #[trigger] order[i], #[trigger] order[j])
}

/// The stable order of `keys`.
pub open spec fn stable_order_of<K: KeyOrder>(keys: Seq<K>) -> Seq<int> {
    choose|order: Seq<int>| is_stable_order(keys, order)
}

/// The items of `s`, rearranged by `order`.
pub open spec fn arranged<A>(s: Seq<A>, order: Seq<int>) -> Seq<A> {
    Seq::new(order.len(), |i: int| s[order[i]])
}

pub proof fn lemma_before_transitive<K: KeyOrder>(keys: Seq<K>, i: int, j: int, k: int)
    requires
        comes_before(keys, i, j),
        comes_before(keys, j, k),
    ensures
        comes_before(keys, i, k),
{
    K::le_transitive(keys[i], keys[j], keys[k]);
    if keys[k].le(keys[i]) {
        K::le_transitive(keys[k], keys[i], keys[j]);
        K::le_transitive(keys[j], keys[k], keys[i]);
    }
}

pub proof fn lemma_before_total<K: KeyOrder>(keys: Seq<K>, i: int, j: int)
    requires
        i != j,
    ensures
        comes_before(keys, i, j) || comes_before(keys, j, i),
        !(comes_before(keys, i, j) && comes_before(keys, j, i)),
{
    K::le_total(keys[i], keys[j]);
}

/// In a stable order no position occurs twice, and every position occurs.
pub proof fn lemma_order_covers<K: KeyOrder>(keys: Seq<K>, order: Seq<int>)
    requires
        is_stable_order(keys, order),
    ensures
        order.no_duplicates(),
        forall|p: int| 0 <= p < keys.len() ==> #[trigger] order.contains(p),
{
    let n = keys.len() as int;
    assert forall|i: int, j: int| 0 <= i < order.len() && 0 <= j < order.len() && i != j implies order[i]
        != order[j] by {
        if i < j {
            assert(comes_before(keys, order[i], order[j]));
        } else {
            assert(comes_before(keys, order[j], order[i]));
        }
    }
    order.unique_seq_to_set();
    let all = vstd::set_lib::set_int_range(0, n);
    vstd::set_lib::lemma_int_range(0, n);
    assert(order.to_set().subset_of(all));
    vstd::set_lib::lemma_subset_equality(order.to_set(), all);
    assert forall|p: int| 0 <= p < keys.len() implies #[trigger] order.contains(p) by {
        assert(all.contains(p));
        assert(order.to_set().contains(p));
    }
}

/// A list of keys has one stable order only.
pub proof fn lemma_order_unique<K: KeyOrder>(keys: Seq<K>, a: Seq<int>, b: Seq<int>)
    requires
        is_stable_order(keys, a),
        is_stable_order(keys, b),
    ensures
        a == b,
{
    lemma_order_covers(keys, a);
    lemma_order_covers(keys, b);
    lemma_orders_agree(keys, a, b, a.len() as int);
    assert(a =~= b);
}

proof fn lemma_orders_agree<K: KeyOrder>(keys: Seq<K>, a: Seq<int>, b: Seq<int>, n: int)
    requires
        is_stable_order(keys, a),
        is_stable_order(keys, b),
        0 <= n <= a.len(),
        forall|p: int| 0 <= p < keys.len() ==> #[trigger] a.contains(p),
        forall|p: int| 0 <= p < keys.len() ==> #[trigger] b.contains(p),
    ensures
        forall|i: int| 0 <= i < n ==> #[trigger] a[i] == b[i],
    decreases n,
{
    if n > 0 {
        let m = n - 1;
        lemma_orders_agree(keys, a, b, m);
        if a[m] != b[m] {
            assert(b.contains(a[m]));
            let j = choose|j: int| 0 <= j < b.len() && b[j] == a[m];
            assert(a.contains(b[m]));
            let k = choose|k: int| 0 <= k < a.len() && a[k] == b[m];
            if j < m {
                assert(a[j] == b[j]);
                assert(comes_before(keys, a[j], a[m]));
            }
            if k < m {
                assert(a[k] == b[k]);
                assert(comes_before(keys, b[k], b[m]));
            }
            assert(comes_before(keys, b[m], b[j]));
            assert(comes_before(keys, a[m], a[k]));
            lemma_before_total(keys, a[m], b[m]);
        }
    }
}

/// Every list of keys has a stable order.
pub proof fn lemma_order_exists<K: KeyOrder>(keys: Seq<K>)
    ensures
        is_stable_order(keys, stable_order_of(keys)),
{
    let order = lemma_order_of_prefix(keys, keys.len() as int);
    assert(is_stable_order(keys, order));
}

proof fn lemma_order_of_prefix<K: KeyOrder>(keys: Seq<K>, n: int) -> (order: Seq<int>)
    requires
        0 <= n <= keys.len(),
    ensures
        order.len() == n,
        ordered_within(keys, order, 0, n),
    decreases n,
{
    if n == 0 {
        Seq::empty()
    } else {
        let rest = lemma_order_of_prefix(keys, n - 1);
        let at = lemma_place_for(keys, rest, n - 1, rest.len() as int);
        let order = rest.insert(at, n - 1);
        assert forall|i: int, j: int| 0 <= i < j < order.len() implies comes_before(
            keys,
            #[trigger] order[i],
            #[trigger] order[j],
        ) by {
            let oi = if i < at { i } else { i - 1 };
            let oj = if j < at { j } else { j - 1 };
            if i != at && j != at {
                assert(order[i] == rest[oi] && order[j] == rest[oj]);
            } else if i == at {
                assert(order[j] == rest[oj]);
            } else {
                assert(order[i] == rest[oi]);
            }
        }
        assert forall|i: int| 0 <= i < order.len() implies 0 <= #[trigger] order[i] < n by {
            if i < at {
                assert(order[i] == rest[i]);
            } else if i > at {
                assert(order[i] == rest[i - 1]);
            }
        }
        order
    }
}

/// The place, among the first `m` of `order`, at which position `p` belongs.
proof fn lemma_place_for<K: KeyOrder>(keys: Seq<K>, order: Seq<int>, p: int, m: int) -> (at: int)
    requires
        ordered_within(keys, order, 0, p),
        0 <= m <= order.len(),
        forall|i: int| m <= i < order.len() ==> comes_before(keys, p, #[trigger] order[i]),
    ensures
        0 <= at <= m,
        forall|i: int| 0 <= i < at ==> comes_before(keys, #[trigger] order[i], p),
        forall|i: int| at <= i < order.len() ==> comes_before(keys, p, #[trigger] order[i]),
    decreases m,
{
    if m == 0 {
        0
    } else {
        lemma_before_total(keys, order[m - 1], p);
        if comes_before(keys, order[m - 1], p) {
            assert forall|i: int| 0 <= i < m implies comes_before(keys, #[trigger] order[i], p) by {
                if i < m - 1 {
                    lemma_before_transitive(keys, order[i], order[m - 1], p);
                }
            }
            m
        } else {
            lemma_place_for(keys, order, p, m - 1)
        }
    }
}

pub open spec fn as_ints(v: Seq<usize>) -> Seq<int> {
    v.map_values(|i: usize| i as int)
}

/// The stable order of `keys`, as positions.
pub fn stable_order<S: KeyOrder, K: SortKey<S>>(keys: &Vec<K>) -> (order: Vec<usize>)
    ensures
        is_stable_order(views(keys@), as_ints(order@)),
        as_ints(order@) == stable_order_of(views(keys@)),
{
    let order = sort_range(keys, 0, keys.len());
    proof {
        lemma_order_exists(views(keys@));
        lemma_order_unique(views(keys@), as_ints(order@), stable_order_of(views(keys@)));
    }
    order
}

fn sort_range<S: KeyOrder, K: SortKey<S>>(keys: &Vec<K>, lo: usize, hi: usize) -> (order: Vec<usize>)
    requires
        lo <= hi <= keys.len(),
    ensures
        order.len() == hi - lo,
        ordered_within(views(keys@), as_ints(order@), lo as int, hi as int),
    decreases hi - lo,
{
    if hi - lo <= 1 {
        let mut order: Vec<usize> = Vec::new();
        if lo < hi {
            order.push(lo);
        }
        order
    } else {
        let mid: usize = lo + (hi - lo) / 2;
        let front = sort_range(keys, lo, mid);
        let back = sort_range(keys, mid, hi);
        merge(keys, &front, &back, Ghost(lo as int), Ghost(mid as int), Ghost(hi as int))
    }
}

fn merge<S: KeyOrder, K: SortKey<S>>(
    keys: &Vec<K>,
    front: &Vec<usize>,
    back: &Vec<usize>,
    Ghost(lo): Ghost<int>,
    Ghost(mid): Ghost<int>,
    Ghost(hi): Ghost<int>,
) -> (out: Vec<usize>)
    requires
        0 <= lo <= mid <= hi <= keys.len(),
        front.len() + back.len() <= usize::MAX,
        ordered_within(views(keys@), as_ints(front@), lo, mid),
        ordered_within(views(keys@), as_ints(back@), mid, hi),
    ensures
        out.len() == front.len() + back.len(),
        ordered_within(views(keys@), as_ints(out@), lo, hi),
{
    let ghost f = as_ints(front@);
    let ghost b = as_ints(back@);
    let mut out: Vec<usize> = Vec::new();
    let mut i: usize = 0;
    let mut j: usize = 0;
    while i < front.len() || j < back.len()
        invariant
            f == as_ints(front@),
            b == as_ints(back@),
            0 <= lo <= mid <= hi <= keys.len(),
            ordered_within(views(keys@), f, lo, mid),
            ordered_within(views(keys@), b, mid, hi),
            front.len() + back.len() <= usize::MAX,
            i <= front.len(),
            j <= back.len(),
            out.len() == i + j,
            ordered_within(views(keys@), as_ints(out@), lo, hi),
            forall|x: int, y: int|
                0 <= x < out.len() && i <= y < f.len() ==> comes_before(
                    views(keys@),
                    #[trigger] as_ints(out@)[x],
                    #[trigger] f[y],
                ),
            forall|x: int, y: int|
                0 <= x < out.len() && j <= y < b.len() ==> comes_before(
                    views(keys@),
                    #[trigger] as_ints(out@)[x],
                    #[trigger] b[y],
                ),
        decreases front.len() + back.len() - i - j,
    {
        let ghost prev = as_ints(out@);
        let mut take_front: bool = j >= back.len();
        if i < front.len() && j < back.len() {
            assert(lo <= f[i as int] < mid);
            assert(mid <= b[j as int] < hi);
            take_front = keys[front[i]].not_after(&keys[back[j]]);
            proof {
                S::le_total(views(keys@)[f[i as int]], views(keys@)[b[j as int]]);
            }
        }
        let ghost next = if take_front { f[i as int] } else { b[j as int] };
        if take_front {
            assert(lo <= f[i as int] < mid);
            out.push(front[i]);
        } else {
            assert(mid <= b[j as int] < hi);
            out.push(back[j]);
        }
        proof {
            let now = as_ints(out@);
            assert(now =~= prev.push(next));
            assert forall|y: int|
                i + (if take_front { 1int } else { 0int }) <= y < f.len() implies comes_before(
                views(keys@),
                next,
                #[trigger] f[y],
            ) by {
                if !take_front && y > i {
                    lemma_before_transitive(views(keys@), next, f[i as int], f[y]);
                }
            }
            assert forall|y: int|
                j + (if take_front { 0int } else { 1int }) <= y < b.len() implies comes_before(
                views(keys@),
                next,
                #[trigger] b[y],
            ) by {
                if take_front && y > j {
                    lemma_before_transitive(views(keys@), next, b[j as int], b[y]);
                }
            }
        }
        if take_front {
            i = i + 1;
        } else {
            j = j + 1;
        }
    }
    out
}

/// A stable order goes by the keys, and keeps the input's order among equals.
pub proof fn equals_keep_their_order<K: KeyOrder>(keys: Seq<K>, i: int, j: int)
    requires
        0 <= i < j < keys.len(),
    ensures
        stable_order_of(keys).len() == keys.len(),
        0 <= stable_order_of(keys)[i] < keys.len(),
        keys[stable_order_of(keys)[i]].le(keys[stable_order_of(keys)[j]]),
        keys[stable_order_of(keys)[i]] == keys[stable_order_of(keys)[j]] ==> stable_order_of(keys)[i]
            < stable_order_of(keys)[j],
{
    lemma_order_exists(keys);
    let order = stable_order_of(keys);
    assert(comes_before(keys, order[i], order[j]));
    K::le_total(keys[order[i]], keys[order[i]]);
}

} // verus!
