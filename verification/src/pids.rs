//! Lists of the process ids that a set or a table holds.

use std::collections::{HashMap, HashSet};
use vstd::prelude::*;
use vstd::std_specs::iter::IteratorSpec;

use crate::order::{as_ints, comes_before, lemma_order_covers, stable_order, views, KeyOrder, SortKey};

verus! {

broadcast use vstd::std_specs::hash::group_hash_axioms;

impl KeyOrder for u32 {
    open spec fn le(self, other: Self) -> bool {
        self <= other
    }

    proof fn le_total(a: Self, b: Self) {
    }

    proof fn le_transitive(a: Self, b: Self, c: Self) {
    }

}

impl SortKey<u32> for u32 {
    fn not_after(&self, other: &Self) -> (r: bool) {
        *self <= *other
    }
}

/// `list` names every member of `set`, once.
pub open spec fn lists(list: Seq<u32>, set: Set<u32>) -> bool {
    &&& list.no_duplicates()
    &&& forall|p: u32| list.contains(p) <==> set.contains(p)
}

/// The numbers grow from one place to the next.
pub open spec fn increasing(list: Seq<u32>) -> bool {
    forall|i: int, j: int| 0 <= i < j < list.len() ==> list[i] < list[j]
}

proof fn lemma_lists(list: Seq<u32>, refs: Seq<&u32>, set: Set<u32>)
    requires
        list == refs.unref(),
        refs.no_duplicates(),
        list.to_set() == set,
    ensures
        lists(list, set),
{
    assert forall|i: int, j: int| 0 <= i < list.len() && 0 <= j < list.len() && i != j implies list[i]
        != list[j] by {
        assert(refs[i] != refs[j]);
    }
    assert forall|p: u32| list.contains(p) <==> set.contains(p) by {
        assert(list.to_set().contains(p) <==> list.contains(p));
    }
}

/// A list of a set, with the item at one place taken out of both.
pub proof fn lemma_lists_without(list: Seq<u32>, set: Set<u32>, k: int)
    requires
        lists(list, set),
        0 <= k < list.len(),
    ensures
        lists(list.remove(k), set.remove(list[k])),
{
    let fewer = list.remove(k);
    assert forall|i: int, j: int|
        0 <= i < fewer.len() && 0 <= j < fewer.len() && i != j implies fewer[i] != fewer[j] by {
        let a = if i < k { i } else { i + 1 };
        let b = if j < k { j } else { j + 1 };
        assert(list[a] != list[b]);
    }
    assert forall|p: u32| fewer.contains(p) <==> set.remove(list[k]).contains(p) by {
        if fewer.contains(p) {
            let i = choose|i: int| 0 <= i < fewer.len() && fewer[i] == p;
            let a = if i < k { i } else { i + 1 };
            assert(list[a] == p);
            assert(list.contains(p));
            assert(list[a] != list[k]);
        }
        if set.remove(list[k]).contains(p) {
            assert(list.contains(p));
            let a = choose|a: int| 0 <= a < list.len() && list[a] == p;
            let i = if a < k { a } else { a - 1 };
            assert(fewer[i] == p);
        }
    }
}

/// Two growing lists of the same numbers are the same.
pub proof fn lemma_increasing_lists_agree(a: Seq<u32>, b: Seq<u32>)
    requires
        increasing(a),
        increasing(b),
        forall|p: u32| a.contains(p) <==> b.contains(p),
    ensures
        a == b,
    decreases a.len(),
{
    if a.len() == 0 {
        if b.len() > 0 {
            assert(b.contains(b[0]));
            assert(a.contains(b[0]));
        }
        assert(a =~= b);
    } else {
        assert(a.contains(a[0]));
        assert(b.contains(a[0]));
        let k = choose|k: int| 0 <= k < b.len() && b[k] == a[0];
        assert(b.contains(b[0]));
        assert(a.contains(b[0]));
        let l = choose|l: int| 0 <= l < a.len() && a[l] == b[0];
        if k > 0 {
            assert(b[0] < b[k]);
            if l > 0 {
                assert(a[0] < a[l]);
            }
        }
        assert(a[0] == b[0]);
        let p = a.drop_first();
        let q = b.drop_first();
        assert forall|x: u32| p.contains(x) <==> q.contains(x) by {
            if p.contains(x) {
                let i = choose|i: int| 0 <= i < p.len() && p[i] == x;
                assert(a[i + 1] == x);
                assert(a[0] < a[i + 1]);
                assert(b.contains(x));
                let j = choose|j: int| 0 <= j < b.len() && b[j] == x;
                assert(q[j - 1] == x);
            }
            if q.contains(x) {
                let i = choose|i: int| 0 <= i < q.len() && q[i] == x;
                assert(b[i + 1] == x);
                assert(b[0] < b[i + 1]);
                assert(a.contains(x));
                let j = choose|j: int| 0 <= j < a.len() && a[j] == x;
                assert(p[j - 1] == x);
            }
        }
        lemma_increasing_lists_agree(p, q);
        assert(a =~= seq![a[0]] + p);
        assert(b =~= seq![b[0]] + q);
    }
}

/// The members of a set, in some order.
pub fn members_of(set: &HashSet<u32>) -> (r: Vec<u32>)
    ensures
        lists(r@, set@),
        r@.len() == set@.len(),
{
    let mut r: Vec<u32> = Vec::new();
    let members = set.iter();
    let ghost refs = members.remaining();
    proof {
        lemma_lists(refs.unref(), refs, set@);
    }
    for p in it: members
        invariant
            it.seq() == refs,
            r@ == refs.unref().take(it.index()),
    {
        r.push(*p);
        assert(r@ =~= refs.unref().take(it.index() + 1));
    }
    assert(r@ =~= refs.unref());
    r
}

/// The keys of a table, in some order.
pub fn keys_of<V>(table: &HashMap<u32, V>) -> (r: Vec<u32>)
    ensures
        lists(r@, table@.dom()),
        r@.len() == table@.dom().len(),
{
    let mut r: Vec<u32> = Vec::new();
    let keys = table.keys();
    let ghost refs = keys.remaining();
    proof {
        lemma_lists(refs.unref(), refs, table@.dom());
    }
    for p in it: keys
        invariant
            it.seq() == refs,
            r@ == refs.unref().take(it.index()),
    {
        r.push(*p);
        assert(r@ =~= refs.unref().take(it.index() + 1));
    }
    assert(r@ =~= refs.unref());
    r
}

pub proof fn lemma_set_of_pushed(list: Seq<u32>, pid: u32)
    ensures
        list.push(pid).to_set() == list.to_set().insert(pid),
{
    let longer = list.push(pid);
    assert forall|p: u32| longer.contains(p) <==> (list.contains(p) || p == pid) by {
        if list.contains(p) {
            let k = choose|k: int| 0 <= k < list.len() && list[k] == p;
            assert(longer[k] == p);
        }
        if p == pid {
            assert(longer[list.len() as int] == p);
        }
    }
    assert(longer.to_set() =~= list.to_set().insert(pid));
}

/// The set of the listed pids.
pub fn set_of(list: &Vec<u32>) -> (r: HashSet<u32>)
    ensures
        r@ == list@.to_set(),
{
    let mut r: HashSet<u32> = HashSet::new();
    let mut i: usize = 0;
    assert(list@.take(0).to_set() =~= Set::empty());
    while i < list.len()
        invariant
            i <= list@.len(),
            r@ == list@.take(i as int).to_set(),
        decreases list@.len() - i,
    {
        r.insert(list[i]);
        proof {
            let done = list@.take(i as int);
            let now = list@.take(i + 1);
            assert(now =~= done.push(list@[i as int]));
            lemma_set_of_pushed(done, list@[i as int]);
        }
        i = i + 1;
    }
    assert(list@.take(i as int) =~= list@);
    r
}

/// A set with the same members.
pub fn copy_of(set: &HashSet<u32>) -> (r: HashSet<u32>)
    ensures
        r@ == set@,
{
    let list: Vec<u32> = members_of(set);
    assert(list@.to_set() =~= set@);
    set_of(&list)
}

/// The members of a set, from the smallest to the largest.
pub fn sorted_members(set: &HashSet<u32>) -> (r: Vec<u32>)
    ensures
        lists(r@, set@),
        increasing(r@),
{
    let list: Vec<u32> = members_of(set);
    let order: Vec<usize> = stable_order(&list);
    let ghost places = as_ints(order@);
    proof {
        assert(views::<u32, u32>(list@) =~= list@);
        lemma_order_covers(list@, places);
    }
    let mut r: Vec<u32> = Vec::new();
    let mut i: usize = 0;
    while i < order.len()
        invariant
            places == as_ints(order@),
            places.len() == list@.len(),
            forall|k: int| 0 <= k < places.len() ==> 0 <= #[trigger] places[k] < list@.len(),
            i <= order.len(),
            r@.len() == i,
            forall|k: int| 0 <= k < i ==> #[trigger] r@[k] == list@[places[k]],
        decreases order.len() - i,
    {
        assert(places[i as int] == order@[i as int]);
        r.push(list[order[i]]);
        i = i + 1;
    }
    proof {
        assert forall|a: int, b: int| 0 <= a < b < r@.len() implies r@[a] < r@[b] by {
            assert(comes_before(list@, places[a], places[b]));
            assert(places[a] != places[b]);
        }
        assert forall|p: u32| r@.contains(p) <==> set@.contains(p) by {
            if r@.contains(p) {
                let k = choose|k: int| 0 <= k < r@.len() && r@[k] == p;
                assert(list@.contains(list@[places[k]]));
            }
            if set@.contains(p) {
                assert(list@.contains(p));
                let q = choose|q: int| 0 <= q < list@.len() && list@[q] == p;
                assert(places.contains(q));
                let k = choose|k: int| 0 <= k < places.len() && places[k] == q;
                assert(r@[k] == p);
            }
        }
    }
    r
}

} // verus!
