//! The processes of a list as a forest, by their parents.

use std::collections::{HashMap, HashSet};
use vstd::prelude::*;
use vstd::string::*;

use crate::metrics::ProcessIdentity;
use crate::order::{
    arranged, as_ints, comes_before, lemma_order_covers, lemma_order_exists, stable_order,
    stable_order_of, views,
};
use crate::text::{chars_le, lower, NameKey};

verus! {

broadcast use vstd::std_specs::hash::group_hash_axioms;

/// The positions below `n` for which `f` holds, from the first to the last.
pub open spec fn positions(n: int, f: spec_fn(int) -> bool) -> Seq<int>
    decreases n,
{
    if n <= 0 {
        Seq::empty()
    } else if f(n - 1) {
        positions(n - 1, f).push(n - 1)
    } else {
        positions(n - 1, f)
    }
}

/// A process with this pid is in the list.
pub open spec fn present(ids: Seq<ProcessIdentity>, pid: u32) -> bool {
    exists|i: int| 0 <= i < ids.len() && (#[trigger] ids[i]).pid == pid
}

/// The process has no parent, or one that is not in the list.
pub open spec fn is_root(ids: Seq<ProcessIdentity>, i: int) -> bool {
    match ids[i].parent_pid {
        Some(parent) => !present(ids, parent),
        None => true,
    }
}

/// The positions of the roots, in the order of the list.
pub open spec fn roots(ids: Seq<ProcessIdentity>) -> Seq<int> {
    positions(ids.len() as int, |i: int| is_root(ids, i))
}

/// The positions of the processes with this parent, in the order of the list.
pub open spec fn offspring(ids: Seq<ProcessIdentity>, pid: u32) -> Seq<int> {
    positions(ids.len() as int, |i: int| ids[i].parent_pid == Some(pid))
}

/// The names at the given positions, as they take part in alphabetical order.
pub open spec fn sort_names(ids: Seq<ProcessIdentity>, at: Seq<int>) -> Seq<Seq<char>> {
    Seq::new(at.len(), |k: int| lower(ids[at[k]].name@))
}

/// The positions of the processes with this parent, in the alphabetical order
/// of their names.
pub open spec fn children(ids: Seq<ProcessIdentity>, pid: u32) -> Seq<int> {
    let at = offspring(ids, pid);
    arranged(at, stable_order_of(sort_names(ids, at)))
}

/// The process at position `at` at the given depth, followed by its
/// descendants, each child below its parent; `levels` levels at most.
pub open spec fn subtree(
    ids: Seq<ProcessIdentity>,
    at: int,
    depth: nat,
    levels: nat,
) -> Seq<(nat, int)>
    decreases levels, 0nat,
{
    if levels == 0 {
        Seq::empty()
    } else {
        seq![(depth, at)] + forest(
            ids,
            children(ids, ids[at].pid),
            depth + 1,
            (levels - 1) as nat,
        )
    }
}

/// The subtrees of the given positions, one after the other.
pub open spec fn forest(
    ids: Seq<ProcessIdentity>,
    at: Seq<int>,
    depth: nat,
    levels: nat,
) -> Seq<(nat, int)>
    decreases levels, at.len(),
{
    if at.len() == 0 {
        Seq::empty()
    } else {
        subtree(ids, at[0], depth, levels) + forest(ids, at.drop_first(), depth, levels)
    }
}

/// The forest of a list: pairs of a depth and a position.
pub open spec fn process_forest(ids: Seq<ProcessIdentity>) -> Seq<(nat, int)> {
    forest(ids, roots(ids), 0, ids.len())
}

/// Going down from position `at`, no line of descent has more than `levels`
/// processes.
pub open spec fn within_levels(ids: Seq<ProcessIdentity>, at: int, levels: nat) -> bool
    decreases levels,
{
    levels > 0 && forall|k: int|
        0 <= k < children(ids, ids[at].pid).len() ==> within_levels(
            ids,
            #[trigger] children(ids, ids[at].pid)[k],
            (levels - 1) as nat,
        )
}

/// Going down from any root comes to an end.
pub open spec fn descent_ends(ids: Seq<ProcessIdentity>) -> bool {
    forall|k: int|
        0 <= k < roots(ids).len() ==> within_levels(ids, #[trigger] roots(ids)[k], ids.len())
}

/// No pid occurs twice.
pub open spec fn distinct_pids(ids: Seq<ProcessIdentity>) -> bool {
    forall|i: int, j: int|
        0 <= i < j < ids.len() ==> (#[trigger] ids[i]).pid != (#[trigger] ids[j]).pid
}

pub proof fn lemma_positions(n: int, f: spec_fn(int) -> bool)
    requires
        0 <= n,
    ensures
        forall|k: int|
            0 <= k < positions(n, f).len() ==> 0 <= #[trigger] positions(n, f)[k] < n && f(
                positions(n, f)[k],
            ),
        forall|i: int| 0 <= i < n && f(i) ==> #[trigger] positions(n, f).contains(i),
        forall|a: int, b: int|
            0 <= a < b < positions(n, f).len() ==> positions(n, f)[a] < positions(n, f)[b],
    decreases n,
{
    if n > 0 {
        lemma_positions(n - 1, f);
        let before = positions(n - 1, f);
        let now = positions(n, f);
        assert forall|i: int| 0 <= i < n && f(i) implies #[trigger] now.contains(i) by {
            if i < n - 1 {
                assert(before.contains(i));
                let k = choose|k: int| 0 <= k < before.len() && before[k] == i;
                assert(now[k] == i);
            } else {
                assert(now[before.len() as int] == i);
            }
        }
    }
}

/// The children of a pid are the processes with that parent.
pub proof fn lemma_children(ids: Seq<ProcessIdentity>, pid: u32)
    ensures
        forall|k: int|
            0 <= k < children(ids, pid).len() ==> 0 <= #[trigger] children(ids, pid)[k] < ids.len()
                && ids[children(ids, pid)[k]].parent_pid == Some(pid),
{
    let at = offspring(ids, pid);
    lemma_positions(ids.len() as int, |i: int| ids[i].parent_pid == Some(pid));
    lemma_order_exists(sort_names(ids, at));
    let order = stable_order_of(sort_names(ids, at));
    assert forall|k: int| 0 <= k < children(ids, pid).len() implies 0 <= #[trigger] children(
        ids,
        pid,
    )[k] < ids.len() && ids[children(ids, pid)[k]].parent_pid == Some(pid) by {
        assert(0 <= order[k] < at.len());
        assert(children(ids, pid)[k] == at[order[k]]);
    }
}

/// What is still to come out of a stack of positions, the last one first.
spec fn pending(ids: Seq<ProcessIdentity>, stack: Seq<(usize, usize)>) -> Seq<(nat, int)>
    decreases stack.len(),
{
    if stack.len() == 0 {
        Seq::empty()
    } else {
        let (depth, at) = stack.last();
        subtree(ids, at as int, depth as nat, (ids.len() - depth) as nat) + pending(
            ids,
            stack.drop_last(),
        )
    }
}

/// Every entry of the stack is a position of the list, with an end below it.
spec fn stack_ok(ids: Seq<ProcessIdentity>, stack: Seq<(usize, usize)>) -> bool {
    forall|k: int|
        0 <= k < stack.len() ==> {
            &&& (#[trigger] stack[k]).1 < ids.len()
            &&& stack[k].0 < ids.len()
            &&& within_levels(ids, stack[k].1 as int, (ids.len() - stack[k].0) as nat)
        }
}

/// The positions with each parent, in the order of the list.
fn offspring_by_parent(ids: &Vec<ProcessIdentity>) -> (by_parent: HashMap<u32, Vec<usize>>)
    ensures
        forall|p: u32|
            #![trigger by_parent@.contains_key(p)]
            #![trigger offspring(ids@, p)]
            if by_parent@.contains_key(p) {
                as_ints(by_parent@[p]@) == offspring(ids@, p)
            } else {
                offspring(ids@, p).len() == 0
            },
{
    let mut by_parent: HashMap<u32, Vec<usize>> = HashMap::new();
    let mut i: usize = 0;
    while i < ids.len()
        invariant
            i <= ids@.len(),
            forall|p: u32| #[trigger]
                by_parent@.contains_key(p) ==> as_ints(by_parent@[p]@) == positions(
                    i as int,
                    |k: int| ids@[k].parent_pid == Some(p),
                ),
            forall|p: u32|
                !(#[trigger] by_parent@.contains_key(p)) ==> positions(
                    i as int,
                    |k: int| ids@[k].parent_pid == Some(p),
                ).len() == 0,
        decreases ids@.len() - i,
    {
        let ghost before = by_parent@;
        if let Some(parent) = ids[i].parent_pid {
            let mut at: Vec<usize> = match by_parent.remove(&parent) {
                Some(at) => at,
                None => Vec::new(),
            };
            let ghost old_at = at@;
            at.push(i);
            let ghost new_at = at@;
            by_parent.insert(parent, at);
            proof {
                let f = |k: int| ids@[k].parent_pid == Some(parent);
                assert(before.contains_key(parent) || !before.contains_key(parent));
                assert(as_ints(old_at) =~= positions(i as int, f));
                assert(as_ints(new_at) =~= as_ints(old_at).push(i as int));
                assert(as_ints(new_at) == positions(i + 1, f));
            }
        }
        proof {
            assert forall|p: u32| #[trigger] by_parent@.contains_key(p) implies as_ints(
                by_parent@[p]@,
            ) == positions(i + 1, |k: int| ids@[k].parent_pid == Some(p)) by {
                if ids@[i as int].parent_pid != Some(p) {
                    assert(before.contains_key(p));
                }
            }
            assert forall|p: u32| !(#[trigger] by_parent@.contains_key(p)) implies positions(
                i + 1,
                |k: int| ids@[k].parent_pid == Some(p),
            ).len() == 0 by {
                assert(!before.contains_key(p));
                assert(ids@[i as int].parent_pid != Some(p));
            }
        }
        i = i + 1;
    }
    by_parent
}

fn root_positions(ids: &Vec<ProcessIdentity>) -> (r: Vec<usize>)
    ensures
        as_ints(r@) == roots(ids@),
{
    let mut pids: HashSet<u32> = HashSet::new();
    let mut i: usize = 0;
    while i < ids.len()
        invariant
            i <= ids@.len(),
            forall|p: u32|
                pids@.contains(p) <==> (exists|k: int| 0 <= k < i && (#[trigger] ids@[k]).pid == p),
        decreases ids@.len() - i,
    {
        let ghost before = pids@;
        pids.insert(ids[i].pid);
        proof {
            assert forall|p: u32|
                pids@.contains(p) <==> (exists|k: int|
                    0 <= k < i + 1 && (#[trigger] ids@[k]).pid == p) by {
                if pids@.contains(p) && p == ids@[i as int].pid {
                    assert(ids@[i as int].pid == p);
                }
                if exists|k: int| 0 <= k < i + 1 && (#[trigger] ids@[k]).pid == p {
                    let k = choose|k: int| 0 <= k < i + 1 && (#[trigger] ids@[k]).pid == p;
                    if k < i {
                        assert(before.contains(p));
                    }
                }
            }
        }
        i = i + 1;
    }
    let ghost f = |k: int| is_root(ids@, k);
    let mut r: Vec<usize> = Vec::new();
    let mut j: usize = 0;
    while j < ids.len()
        invariant
            forall|p: u32| pids@.contains(p) <==> present(ids@, p),
            f == (|k: int| is_root(ids@, k)),
            j <= ids@.len(),
            as_ints(r@) == positions(j as int, f),
        decreases ids@.len() - j,
    {
        let root: bool = match ids[j].parent_pid {
            Some(parent) => !pids.contains(&parent),
            None => true,
        };
        let ghost before = r@;
        if root {
            r.push(j);
            assert(as_ints(r@) =~= as_ints(before).push(j as int));
        }
        assert(f(j as int) == root);
        j = j + 1;
    }
    r
}

/// The positions in `at`, in the alphabetical order of their names.
fn by_name(ids: &Vec<ProcessIdentity>, at: &Vec<usize>) -> (r: Vec<usize>)
    requires
        forall|k: int| 0 <= k < at@.len() ==> (#[trigger] at@[k]) < ids@.len(),
    ensures
        as_ints(r@) == arranged(
            as_ints(at@),
            stable_order_of(sort_names(ids@, as_ints(at@))),
        ),
{
    let mut keys: Vec<NameKey> = Vec::new();
    let mut i: usize = 0;
    while i < at.len()
        invariant
            forall|k: int| 0 <= k < at@.len() ==> (#[trigger] at@[k]) < ids@.len(),
            i <= at@.len(),
            keys@.len() == i,
            forall|k: int|
                0 <= k < i ==> (#[trigger] keys@[k])@ == lower(ids@[at@[k] as int].name@),
        decreases at@.len() - i,
    {
        keys.push(NameKey::new(ids[at[i]].name.as_str()));
        i = i + 1;
    }
    let order: Vec<usize> = stable_order(&keys);
    let ghost places = as_ints(order@);
    assert(views(keys@) =~= sort_names(ids@, as_ints(at@)));
    let mut r: Vec<usize> = Vec::new();
    let mut j: usize = 0;
    while j < order.len()
        invariant
            places == as_ints(order@),
            places.len() == at@.len(),
            forall|k: int| 0 <= k < places.len() ==> 0 <= #[trigger] places[k] < at@.len(),
            j <= order@.len(),
            r@.len() == j,
            forall|k: int| 0 <= k < j ==> #[trigger] r@[k] == at@[places[k]],
        decreases order@.len() - j,
    {
        assert(places[j as int] == order@[j as int]);
        r.push(at[order[j]]);
        j = j + 1;
    }
    assert(as_ints(r@) =~= arranged(as_ints(at@), places));
    r
}

/// `rows` shows the process forest of `ids`.
pub open spec fn shows_forest(
    rows: Seq<(usize, &ProcessIdentity)>,
    ids: Seq<ProcessIdentity>,
) -> bool {
    &&& rows.len() == process_forest(ids).len()
    &&& forall|i: int|
        0 <= i < rows.len() ==> (#[trigger] rows[i]).0 == process_forest(ids)[i].0 && *rows[i].1
            == ids[process_forest(ids)[i].1]
}

proof fn lemma_forest_step(
    ids: Seq<ProcessIdentity>,
    at: Seq<int>,
    j: int,
    depth: nat,
    levels: nat,
)
    requires
        0 <= j < at.len(),
    ensures
        forest(ids, at.skip(j), depth, levels) == subtree(ids, at[j], depth, levels) + forest(
            ids,
            at.skip(j + 1),
            depth,
            levels,
        ),
{
    assert(at.skip(j).drop_first() =~= at.skip(j + 1));
    assert(at.skip(j)[0] == at[j]);
}

/// The process forest of a list, as rows of a depth and a process: each root,
/// in the order of the list, followed by its descendants, the children of
/// each process in alphabetical order below it.
pub fn flatten<'a>(ids: &'a Vec<ProcessIdentity>) -> (rows: Vec<(usize, &'a ProcessIdentity)>)
    requires
        descent_ends(ids@),
    ensures
        shows_forest(rows@, ids@),
{
    let by_parent: HashMap<u32, Vec<usize>> = offspring_by_parent(ids);
    let top: Vec<usize> = root_positions(ids);
    let ghost list = ids@;
    let ghost whole = process_forest(list);
    let ghost n = list.len();
    let mut stack: Vec<(usize, usize)> = Vec::new();
    let mut i: usize = top.len();
    proof {
        lemma_positions(n as int, |k: int| is_root(list, k));
        assert(as_ints(top@).skip(i as int) =~= Seq::empty());
    }
    // Push roots in reverse so the first root is processed first.
    while i > 0
        invariant
            list == ids@,
            n == list.len(),
            descent_ends(list),
            as_ints(top@) == roots(list),
            forall|k: int| 0 <= k < roots(list).len() ==> 0 <= #[trigger] roots(list)[k] < n,
            i <= top@.len(),
            stack_ok(list, stack@),
            pending(list, stack@) == forest(list, roots(list).skip(i as int), 0, n),
        decreases i,
    {
        i = i - 1;
        let ghost before = stack@;
        assert(roots(list)[i as int] == top@[i as int]);
        stack.push((0, top[i]));
        proof {
            lemma_forest_step(list, roots(list), i as int, 0, n);
            assert(stack@.drop_last() =~= before);
        }
    }
    assert(roots(list).skip(0) =~= roots(list));
    let mut rows: Vec<(usize, &'a ProcessIdentity)> = Vec::new();
    let ghost mut out: Seq<(nat, int)> = Seq::empty();
    assert(out + pending(list, stack@) =~= whole);
    while stack.len() > 0
        invariant
            list == ids@,
            n == list.len(),
            forall|p: u32|
                #![trigger by_parent@.contains_key(p)]
                #![trigger offspring(list, p)]
                if by_parent@.contains_key(p) {
                    as_ints(by_parent@[p]@) == offspring(list, p)
                } else {
                    offspring(list, p).len() == 0
                },
            stack_ok(list, stack@),
            out + pending(list, stack@) == whole,
            rows@.len() == out.len(),
            forall|k: int|
                0 <= k < rows@.len() ==> (#[trigger] rows@[k]).0 == out[k].0 && *rows@[k].1
                    == list[out[k].1],
        decreases whole.len() - out.len(), stack@.len(),
    {
        let ghost before = stack@;
        let ghost out_before = out;
        let (depth, at): (usize, usize) = stack[stack.len() - 1];
        stack.pop();
        let ghost rest = stack@;
        let ghost levels = (n - depth) as nat;
        proof {
            assert(before.last() == (depth, at));
            assert(rest =~= before.drop_last());
            assert(before[before.len() - 1].1 < n);
            out = out.push((depth as nat, at as int));
        }
        rows.push((depth, &ids[at]));
        let ghost below = children(list, list[at as int].pid);
        let ghost deeper = (depth + 1) as nat;
        let ghost fewer = (levels - 1) as nat;
        proof {
            lemma_children(list, list[at as int].pid);
            assert(below.skip(below.len() as int) =~= Seq::empty());
            assert(pending(list, before) == seq![(depth as nat, at as int)] + forest(
                list,
                below,
                deeper,
                fewer,
            ) + pending(list, rest));
            assert(out + (forest(list, below, deeper, fewer) + pending(list, rest)) =~= whole);
        }
        match by_parent.get(&ids[at].pid) {
            Some(offspring_at) => {
                proof {
                    let born = offspring(list, list[at as int].pid);
                    lemma_positions(
                        n as int,
                        |k: int| list[k].parent_pid == Some(list[at as int].pid),
                    );
                    assert forall|k: int| 0 <= k < offspring_at@.len() implies (
                    #[trigger] offspring_at@[k]) < ids@.len() by {
                        assert(born[k] == offspring_at@[k]);
                    }
                }
                let kids: Vec<usize> = by_name(ids, offspring_at);
                let mut j: usize = kids.len();
                while j > 0
                    invariant
                        list == ids@,
                        n == list.len(),
                        depth < n,
                        at < n,
                        levels == n - depth,
                        deeper == depth + 1,
                        fewer == levels - 1,
                        below == children(list, list[at as int].pid),
                        as_ints(kids@) == below,
                        forall|k: int| 0 <= k < below.len() ==> 0 <= #[trigger] below[k] < n,
                        within_levels(list, at as int, levels),
                        j <= kids@.len(),
                        stack_ok(list, stack@),
                        pending(list, stack@) == forest(list, below.skip(j as int), deeper, fewer)
                            + pending(list, rest),
                    decreases j,
                {
                    j = j - 1;
                    let ghost stack_then = stack@;
                    assert(below[j as int] == kids@[j as int]);
                    assert(within_levels(list, below[j as int], fewer));
                    assert(depth < ids.len());
                    stack.push((depth + 1, kids[j]));
                    proof {
                        lemma_forest_step(list, below, j as int, deeper, fewer);
                        assert(stack@.drop_last() =~= stack_then);
                        assert(pending(list, stack@) =~= forest(
                            list,
                            below.skip(j as int),
                            deeper,
                            fewer,
                        ) + pending(list, rest));
                    }
                }
                assert(below.skip(0) =~= below);
            },
            None => {
                assert(below =~= Seq::empty()) by {
                    lemma_order_exists(
                        sort_names(list, offspring(list, list[at as int].pid)),
                    );
                }
                assert(pending(list, stack@) =~= forest(list, below, deeper, fewer) + pending(
                    list,
                    rest,
                ));
            },
        }
        assert(out + pending(list, stack@) =~= whole);
    }
    assert(out =~= whole);
    rows
}

// ---- what holds of the forest ----------------------------------------------

/// A line of descent: it starts at a root, and each process on it is the
/// parent of the next.
pub open spec fn is_descent(ids: Seq<ProcessIdentity>, line: Seq<int>) -> bool {
    &&& line.len() > 0
    &&& forall|k: int| 0 <= k < line.len() ==> 0 <= #[trigger] line[k] < ids.len()
    &&& is_root(ids, line[0])
    &&& forall|k: int|
        0 < k < line.len() ==> ids[#[trigger] line[k]].parent_pid == Some(ids[line[k - 1]].pid)
}

/// `line` is a line of descent that leads to position `at`.
pub open spec fn leads_to(ids: Seq<ProcessIdentity>, line: Seq<int>, at: int) -> bool {
    is_descent(ids, line) && line.last() == at
}

/// A line of descent leads to position `at`, with `ancestors` processes above it.
pub open spec fn has_ancestors(ids: Seq<ProcessIdentity>, at: int, ancestors: nat) -> bool {
    exists|line: Seq<int>| #[trigger] leads_to(ids, line, at) && line.len() == ancestors + 1
}

/// Some line of descent leads to position `at`.
pub open spec fn has_descent(ids: Seq<ProcessIdentity>, at: int) -> bool {
    exists|line: Seq<int>| leads_to(ids, line, at)
}

/// Some row shows position `at`.
pub open spec fn is_shown(rows: Seq<(nat, int)>, at: int) -> bool {
    exists|x: int| 0 <= x < rows.len() && (#[trigger] rows[x]).1 == at
}

proof fn lemma_descent_grows(ids: Seq<ProcessIdentity>, line: Seq<int>, child: int)
    requires
        is_descent(ids, line),
        0 <= child < ids.len(),
        ids[child].parent_pid == Some(ids[line.last()].pid),
    ensures
        is_descent(ids, line.push(child)),
{
    let longer = line.push(child);
    assert forall|k: int| 0 < k < longer.len() implies ids[#[trigger] longer[k]].parent_pid == Some(
        ids[longer[k - 1]].pid,
    ) by {
        if k < line.len() {
            assert(ids[line[k]].parent_pid == Some(ids[line[k - 1]].pid));
        }
    }
}

/// Where no pid occurs twice, one line of descent at most leads to a process.
proof fn lemma_one_descent(
    ids: Seq<ProcessIdentity>,
    a: Seq<int>,
    b: Seq<int>,
)
    requires
        distinct_pids(ids),
        is_descent(ids, a),
        is_descent(ids, b),
        a.last() == b.last(),
    ensures
        a == b,
    decreases a.len(),
{
    if a.len() == 1 || b.len() == 1 {
        if a.len() > 1 {
            let k = a.len() - 1;
            assert(ids[a[k]].parent_pid == Some(ids[a[k - 1]].pid));
            assert(present(ids, ids[a[k - 1]].pid));
        }
        if b.len() > 1 {
            let k = b.len() - 1;
            assert(ids[b[k]].parent_pid == Some(ids[b[k - 1]].pid));
            assert(present(ids, ids[b[k - 1]].pid));
        }
        assert(a =~= b);
    } else {
        let (x, y) = (a.drop_last(), b.drop_last());
        let (k, m) = (a.len() - 1, b.len() - 1);
        assert(ids[a[k]].parent_pid == Some(ids[a[k - 1]].pid));
        assert(ids[b[m]].parent_pid == Some(ids[b[m - 1]].pid));
        assert(a[k - 1] == b[m - 1]) by {
            if a[k - 1] < b[m - 1] {
                assert(ids[a[k - 1]].pid != ids[b[m - 1]].pid);
            } else if b[m - 1] < a[k - 1] {
                assert(ids[b[m - 1]].pid != ids[a[k - 1]].pid);
            }
        }
        lemma_one_descent(ids, x, y);
        assert(a =~= x.push(a.last()));
        assert(b =~= y.push(b.last()));
    }
}

/// The first `n` of a line of descent are one.
proof fn lemma_descent_prefix(ids: Seq<ProcessIdentity>, line: Seq<int>, n: int)
    requires
        is_descent(ids, line),
        0 < n <= line.len(),
    ensures
        is_descent(ids, line.take(n)),
{
    let t = line.take(n);
    assert forall|k: int| 0 < k < t.len() implies ids[#[trigger] t[k]].parent_pid == Some(
        ids[t[k - 1]].pid,
    ) by {
        assert(ids[line[k]].parent_pid == Some(ids[line[k - 1]].pid));
    }
}

/// Where no pid occurs twice, no process is its own ancestor on a line of
/// descent, so that a line is no longer than the list.
proof fn lemma_descent_is_short(ids: Seq<ProcessIdentity>, line: Seq<int>)
    requires
        distinct_pids(ids),
        is_descent(ids, line),
    ensures
        line.no_duplicates(),
        line.len() <= ids.len(),
{
    assert forall|a: int, b: int| 0 <= a < line.len() && 0 <= b < line.len() && a != b implies line[a]
        != line[b] by {
        if line[a] == line[b] {
            lemma_descent_prefix(ids, line, a + 1);
            lemma_descent_prefix(ids, line, b + 1);
            lemma_one_descent(ids, line.take(a + 1), line.take(b + 1));
            assert(line.take(a + 1).len() == line.take(b + 1).len());
        }
    }
    line.unique_seq_to_set();
    vstd::set_lib::lemma_int_range(0, ids.len() as int);
    assert(line.to_set().subset_of(vstd::set_lib::set_int_range(0, ids.len() as int)));
    vstd::set_lib::lemma_len_subset(
        line.to_set(),
        vstd::set_lib::set_int_range(0, ids.len() as int),
    );
}

/// Every list in which no pid occurs twice has a forest, whatever its parent
/// links are.
pub proof fn distinct_pids_end_descent(ids: Seq<ProcessIdentity>)
    requires
        distinct_pids(ids),
    ensures
        descent_ends(ids),
{
    lemma_positions(ids.len() as int, |i: int| is_root(ids, i));
    assert forall|k: int| 0 <= k < roots(ids).len() implies within_levels(
        ids,
        #[trigger] roots(ids)[k],
        ids.len(),
    ) by {
        let line = seq![roots(ids)[k]];
        assert(is_descent(ids, line));
        lemma_within_levels(ids, line, ids.len());
    }
}

proof fn lemma_within_levels(ids: Seq<ProcessIdentity>, line: Seq<int>, levels: nat)
    requires
        distinct_pids(ids),
        is_descent(ids, line),
        line.len() + levels == ids.len() + 1,
    ensures
        within_levels(ids, line.last(), levels),
    decreases levels,
{
    lemma_descent_is_short(ids, line);
    let at = line.last();
    let below = children(ids, ids[at].pid);
    lemma_children(ids, ids[at].pid);
    assert forall|k: int| 0 <= k < below.len() implies within_levels(
        ids,
        #[trigger] below[k],
        (levels - 1) as nat,
    ) by {
        lemma_descent_grows(ids, line, below[k]);
        lemma_within_levels(ids, line.push(below[k]), (levels - 1) as nat);
    }
}

/// The children of a process are listed alphabetically, each once.
pub proof fn children_are_alphabetical(ids: Seq<ProcessIdentity>, pid: u32)
    ensures
        children(ids, pid).no_duplicates(),
        forall|i: int|
            children(ids, pid).contains(i) <==> (0 <= i < ids.len() && ids[i].parent_pid == Some(
                pid,
            )),
        forall|a: int, b: int|
            0 <= a < b < children(ids, pid).len() ==> chars_le(
                lower(ids[#[trigger] children(ids, pid)[a]].name@),
                lower(ids[#[trigger] children(ids, pid)[b]].name@),
            ),
{
    let f = |i: int| ids[i].parent_pid == Some(pid);
    let at = offspring(ids, pid);
    let names = sort_names(ids, at);
    let order = stable_order_of(names);
    let kids = children(ids, pid);
    lemma_positions(ids.len() as int, f);
    lemma_order_exists(names);
    lemma_order_covers(names, order);
    assert forall|a: int, b: int| 0 <= a < kids.len() && 0 <= b < kids.len() && a != b implies kids[a]
        != kids[b] by {
        assert(order[a] != order[b]);
        if order[a] < order[b] {
            assert(at[order[a]] < at[order[b]]);
        } else {
            assert(at[order[b]] < at[order[a]]);
        }
    }
    assert forall|i: int|
        kids.contains(i) <==> (0 <= i < ids.len() && ids[i].parent_pid == Some(pid)) by {
        if kids.contains(i) {
            let k = choose|k: int| 0 <= k < kids.len() && kids[k] == i;
            assert(0 <= order[k] < at.len());
            assert(f(at[order[k]]));
        }
        if 0 <= i < ids.len() && f(i) {
            assert(at.contains(i));
            let q = choose|q: int| 0 <= q < at.len() && at[q] == i;
            assert(order.contains(q));
            let k = choose|k: int| 0 <= k < order.len() && order[k] == q;
            assert(kids[k] == i);
        }
    }
    assert forall|a: int, b: int| 0 <= a < b < kids.len() implies chars_le(
        lower(ids[#[trigger] kids[a]].name@),
        lower(ids[#[trigger] kids[b]].name@),
    ) by {
        assert(comes_before(names, order[a], order[b]));
        assert(names[order[a]] == lower(ids[kids[a]].name@));
        assert(names[order[b]] == lower(ids[kids[b]].name@));
    }
}

/// Children whose names differ at most in letter case are listed in the order
/// in which they were found.
pub proof fn equal_names_keep_their_order(ids: Seq<ProcessIdentity>, pid: u32)
    ensures
        forall|a: int, b: int|
            0 <= a < b < children(ids, pid).len() && lower(
                ids[#[trigger] children(ids, pid)[a]].name@,
            ) == lower(ids[#[trigger] children(ids, pid)[b]].name@) ==> children(ids, pid)[a]
                < children(ids, pid)[b],
{
    let at = offspring(ids, pid);
    let names = sort_names(ids, at);
    let order = stable_order_of(names);
    let kids = children(ids, pid);
    lemma_positions(ids.len() as int, |i: int| ids[i].parent_pid == Some(pid));
    lemma_order_exists(names);
    assert forall|a: int, b: int|
        0 <= a < b < kids.len() && lower(ids[#[trigger] kids[a]].name@) == lower(
            ids[#[trigger] kids[b]].name@,
        ) implies kids[a] < kids[b] by {
        assert(comes_before(names, order[a], order[b]));
        assert(names[order[a]] == names[order[b]]);
        assert(at[order[a]] < at[order[b]]);
    }
}

/// Row `y` is the nearest one before row `x` that is one level up: all rows
/// between them lie at least as deep as row `x`.
pub open spec fn is_above(rows: Seq<(nat, int)>, y: int, x: int) -> bool {
    &&& 0 <= y < x < rows.len()
    &&& rows[y].0 + 1 == rows[x].0
    &&& forall|z: int| y < z < x ==> (#[trigger] rows[z]).0 >= rows[x].0
}

/// The nearest row before row `x` that is one level up shows its parent.
pub open spec fn follows_parent(
    ids: Seq<ProcessIdentity>,
    rows: Seq<(nat, int)>,
    x: int,
) -> bool {
    exists|y: int|
        #[trigger] is_above(rows, y, x) && ids[rows[x].1].parent_pid == Some(
            ids[rows[y].1].pid,
        )
}

/// Rows `x` and `y` lie side by side: they are equally deep, and no row
/// between them is less deep.
pub open spec fn are_siblings(rows: Seq<(nat, int)>, x: int, y: int) -> bool {
    &&& 0 <= x < y < rows.len()
    &&& rows[x].0 == rows[y].0
    &&& forall|z: int| x < z < y ==> (#[trigger] rows[z]).0 >= rows[x].0
}

/// The process at `b` does not come before the one at `a` in the alphabet.
pub open spec fn alphabetical(ids: Seq<ProcessIdentity>, a: int, b: int) -> bool {
    chars_le(lower(ids[a].name@), lower(ids[b].name@))
}

/// The process at `b` comes behind the one at `a` in the alphabet, or has the
/// same place there and stands behind it in the list.
pub open spec fn comes_after(ids: Seq<ProcessIdentity>, a: int, b: int) -> bool {
    &&& alphabetical(ids, a, b)
    &&& lower(ids[a].name@) == lower(ids[b].name@) ==> a < b
}

/// Siblings below the given depth are in alphabetical order, and those of one
/// name in the order of the list.
spec fn siblings_ordered(ids: Seq<ProcessIdentity>, rows: Seq<(nat, int)>, depth: nat) -> bool {
    forall|x: int, y: int|
        #[trigger] are_siblings(rows, x, y) && rows[x].0 > depth ==> comes_after(
            ids,
            rows[x].1,
            rows[y].1,
        )
}

/// Rows at the given depth show the listed positions, in their order.
spec fn tops_follow(rows: Seq<(nat, int)>, at: Seq<int>, depth: nat) -> bool {
    &&& forall|x: int|
        0 <= x < rows.len() && (#[trigger] rows[x]).0 == depth ==> at.contains(rows[x].1)
    &&& forall|x: int, y: int|
        0 <= x < y < rows.len() && (#[trigger] rows[x]).0 == depth && (#[trigger] rows[y]).0
            == depth ==> in_order(at, rows[x].1, rows[y].1)
}

/// `a` stands in the list before `b`.
pub open spec fn in_order(at: Seq<int>, a: int, b: int) -> bool {
    exists|j: int, k: int|
        0 <= j < k < at.len() && #[trigger] at[j] == a && #[trigger] at[k] == b
}

/// `small` stands in `rows`, from place `shift` on.
spec fn stands_in(small: Seq<(nat, int)>, rows: Seq<(nat, int)>, shift: int) -> bool {
    &&& 0 <= shift
    &&& shift + small.len() <= rows.len()
    &&& rows.subrange(shift, shift + small.len()) == small
}

proof fn lemma_stands_in(
    small: Seq<(nat, int)>,
    rows: Seq<(nat, int)>,
    shift: int,
    i: int,
)
    requires
        stands_in(small, rows, shift),
        0 <= i < small.len(),
    ensures
        rows[shift + i] == small[i],
{
    assert(rows.subrange(shift, shift + small.len())[i] == rows[shift + i]);
}

/// A row that follows its parent among some rows does so among more.
proof fn lemma_parent_stays(
    ids: Seq<ProcessIdentity>,
    small: Seq<(nat, int)>,
    rows: Seq<(nat, int)>,
    shift: int,
    x: int,
)
    requires
        stands_in(small, rows, shift),
        0 <= x < small.len(),
        follows_parent(ids, small, x),
    ensures
        follows_parent(ids, rows, shift + x),
{
    let y = choose|y: int|
        #[trigger] is_above(small, y, x) && ids[small[x].1].parent_pid == Some(
            ids[small[y].1].pid,
        );
    lemma_stands_in(small, rows, shift, x);
    lemma_stands_in(small, rows, shift, y);
    assert forall|z: int| shift + y < z < shift + x implies (#[trigger] rows[z]).0 >= rows[shift
        + x].0 by {
        lemma_stands_in(small, rows, shift, z - shift);
    }
    assert(is_above(rows, shift + y, shift + x));
}

/// Siblings among some rows are siblings among fewer.
proof fn lemma_siblings_stay(
    small: Seq<(nat, int)>,
    rows: Seq<(nat, int)>,
    shift: int,
    x: int,
    y: int,
)
    requires
        stands_in(small, rows, shift),
        shift <= x,
        y < shift + small.len(),
        are_siblings(rows, x, y),
    ensures
        are_siblings(small, x - shift, y - shift),
        rows[x] == small[x - shift],
        rows[y] == small[y - shift],
{
    lemma_stands_in(small, rows, shift, x - shift);
    lemma_stands_in(small, rows, shift, y - shift);
    assert forall|z: int| x - shift < z < y - shift implies (#[trigger] small[z]).0 >= small[x
        - shift].0 by {
        lemma_stands_in(small, rows, shift, z);
        assert(rows[shift + z].0 >= rows[x].0);
    }
}

/// Rows below the given depth follow their parents; none is less deep.
spec fn parents_followed(ids: Seq<ProcessIdentity>, rows: Seq<(nat, int)>, depth: nat) -> bool {
    forall|x: int|
        0 <= x < rows.len() ==> (#[trigger] rows[x]).0 >= depth && (rows[x].0 > depth
            ==> follows_parent(ids, rows, x))
}

/// The first row is at the given depth, and all others are deeper and follow
/// their parents.
spec fn under_one_top(ids: Seq<ProcessIdentity>, rows: Seq<(nat, int)>, depth: nat) -> bool {
    forall|x: int|
        0 < x < rows.len() ==> (#[trigger] rows[x]).0 > depth && follows_parent(ids, rows, x)
}

proof fn lemma_below_one_top(
    ids: Seq<ProcessIdentity>,
    at: int,
    below: Seq<int>,
    inner: Seq<(nat, int)>,
    depth: nat,
)
    requires
        parents_followed(ids, inner, depth + 1),
        tops_follow(inner, below, depth + 1),
        siblings_ordered(ids, inner, depth + 1),
        forall|k: int|
            0 <= k < below.len() ==> ids[#[trigger] below[k]].parent_pid == Some(ids[at].pid),
        forall|a: int, b: int|
            0 <= a < b < below.len() ==> comes_after(
                ids,
                #[trigger] below[a],
                #[trigger] below[b],
            ),
    ensures
        under_one_top(ids, seq![(depth, at)] + inner, depth),
        siblings_ordered(ids, seq![(depth, at)] + inner, depth),
{
    let rows = seq![(depth, at)] + inner;
    assert(rows.subrange(1, inner.len() + 1int) =~= inner);
    assert(stands_in(inner, rows, 1));
    assert forall|x: int| 0 < x < rows.len() implies (#[trigger] rows[x]).0 > depth
        && follows_parent(ids, rows, x) by {
        assert(rows[x] == inner[x - 1]);
        if inner[x - 1].0 > depth + 1 {
            lemma_parent_stays(ids, inner, rows, 1, x - 1);
        } else {
            assert(below.contains(inner[x - 1].1));
            let k = choose|k: int| 0 <= k < below.len() && below[k] == inner[x - 1].1;
            assert(rows[0] == (depth, at));
            assert forall|z: int| 0 < z < x implies (#[trigger] rows[z]).0 >= rows[x].0 by {
                assert(rows[z] == inner[z - 1]);
            }
            assert(is_above(rows, 0, x));
        }
    }
    assert forall|x: int, y: int|
        #[trigger] are_siblings(rows, x, y) && rows[x].0 > depth implies comes_after(
        ids,
        rows[x].1,
        rows[y].1,
    ) by {
        assert(rows[0] == (depth, at));
        lemma_siblings_stay(inner, rows, 1, x, y);
        if rows[x].0 == depth + 1 {
            assert(in_order(below, inner[x - 1].1, inner[y - 1].1));
        }
    }
}

proof fn lemma_parents_joined(
    ids: Seq<ProcessIdentity>,
    first: Seq<(nat, int)>,
    others: Seq<(nat, int)>,
    depth: nat,
)
    requires
        first.len() > 0 ==> first[0].0 == depth,
        under_one_top(ids, first, depth),
        parents_followed(ids, others, depth),
    ensures
        parents_followed(ids, first + others, depth),
{
    let rows = first + others;
    let n = first.len() as int;
    assert(rows.subrange(0, n) =~= first);
    assert(rows.subrange(n, n + others.len()) =~= others);
    assert forall|x: int| 0 <= x < rows.len() implies (#[trigger] rows[x]).0 >= depth && (rows[x].0
        > depth ==> follows_parent(ids, rows, x)) by {
        if x < n {
            assert(rows[x] == first[x]);
            if x > 0 {
                lemma_parent_stays(ids, first, rows, 0, x);
            }
        } else {
            assert(rows[x] == others[x - n]);
            if rows[x].0 > depth {
                lemma_parent_stays(ids, others, rows, n, x - n);
            }
        }
    }
}

proof fn lemma_tops_joined(
    ids: Seq<ProcessIdentity>,
    at: Seq<int>,
    first: Seq<(nat, int)>,
    others: Seq<(nat, int)>,
    depth: nat,
)
    requires
        at.len() > 0,
        first.len() > 0 ==> first[0] == (depth, at[0]),
        under_one_top(ids, first, depth),
        tops_follow(others, at.drop_first(), depth),
    ensures
        tops_follow(first + others, at, depth),
{
    let rows = first + others;
    let rest = at.drop_first();
    let n = first.len() as int;
    assert forall|x: int| 0 <= x < rows.len() && (#[trigger] rows[x]).0 == depth implies at.contains(
        rows[x].1,
    ) by {
        if x < n {
            assert(rows[x] == first[x]);
            assert(x == 0);
            assert(at[0] == rows[x].1);
        } else {
            assert(rows[x] == others[x - n]);
            assert(rest.contains(others[x - n].1));
            let k = choose|k: int| 0 <= k < rest.len() && rest[k] == others[x - n].1;
            assert(at[k + 1] == rows[x].1);
        }
    }
    assert forall|x: int, y: int|
        0 <= x < y < rows.len() && (#[trigger] rows[x]).0 == depth && (#[trigger] rows[y]).0
            == depth implies in_order(at, rows[x].1, rows[y].1) by {
        if x < n {
            assert(rows[x] == first[x]);
            assert(x == 0);
            if y < n {
                assert(rows[y] == first[y]);
            }
            assert(rows[y] == others[y - n]);
            assert(rest.contains(others[y - n].1));
            let k = choose|k: int| 0 <= k < rest.len() && rest[k] == others[y - n].1;
            assert(at[0] == rows[x].1);
            assert(at[k + 1] == rows[y].1);
        } else {
            assert(rows[x] == others[x - n]);
            assert(rows[y] == others[y - n]);
            assert(in_order(rest, others[x - n].1, others[y - n].1));
            let (j, k) = choose|j: int, k: int|
                0 <= j < k < rest.len() && #[trigger] rest[j] == others[x - n].1
                    && #[trigger] rest[k] == others[y - n].1;
            assert(at[j + 1] == rows[x].1);
            assert(at[k + 1] == rows[y].1);
        }
    }
}

proof fn lemma_siblings_joined(
    ids: Seq<ProcessIdentity>,
    first: Seq<(nat, int)>,
    others: Seq<(nat, int)>,
    depth: nat,
)
    requires
        others.len() > 0 ==> others[0].0 == depth,
        siblings_ordered(ids, first, depth),
        siblings_ordered(ids, others, depth),
    ensures
        siblings_ordered(ids, first + others, depth),
{
    let rows = first + others;
    let n = first.len() as int;
    assert(rows.subrange(0, n) =~= first);
    assert(rows.subrange(n, n + others.len()) =~= others);
    assert forall|x: int, y: int|
        #[trigger] are_siblings(rows, x, y) && rows[x].0 > depth implies comes_after(
        ids,
        rows[x].1,
        rows[y].1,
    ) by {
        if y < n {
            lemma_siblings_stay(first, rows, 0, x, y);
        } else if x >= n {
            lemma_siblings_stay(others, rows, n, x, y);
        } else {
            assert(rows[n] == others[0]);
            if y > n {
                assert(rows[n].0 >= rows[x].0);
            }
        }
    }
}

proof fn lemma_subtree_parents(ids: Seq<ProcessIdentity>, at: int, depth: nat, levels: nat)
    ensures
        ({
            let rows = subtree(ids, at, depth, levels);
            &&& levels > 0 ==> rows.len() > 0
            &&& rows.len() > 0 ==> rows[0] == (depth, at)
            &&& under_one_top(ids, rows, depth)
            &&& siblings_ordered(ids, rows, depth)
        }),
    decreases levels, 0nat,
{
    if levels > 0 {
        let below = children(ids, ids[at].pid);
        let fewer = (levels - 1) as nat;
        lemma_children(ids, ids[at].pid);
        children_are_alphabetical(ids, ids[at].pid);
        equal_names_keep_their_order(ids, ids[at].pid);
        lemma_forest_parents(ids, below, depth + 1, fewer);
        lemma_below_one_top(ids, at, below, forest(ids, below, depth + 1, fewer), depth);
    }
}

proof fn lemma_forest_parents(ids: Seq<ProcessIdentity>, at: Seq<int>, depth: nat, levels: nat)
    ensures
        ({
            let rows = forest(ids, at, depth, levels);
            &&& parents_followed(ids, rows, depth)
            &&& tops_follow(rows, at, depth)
            &&& siblings_ordered(ids, rows, depth)
        }),
    decreases levels, at.len(),
{
    if at.len() > 0 {
        let rest = at.drop_first();
        let first = subtree(ids, at[0], depth, levels);
        let others = forest(ids, rest, depth, levels);
        lemma_subtree_parents(ids, at[0], depth, levels);
        lemma_forest_parents(ids, rest, depth, levels);
        lemma_forest_starts_at_top(ids, rest, depth, levels);
        lemma_parents_joined(ids, first, others, depth);
        lemma_tops_joined(ids, at, first, others, depth);
        lemma_siblings_joined(ids, first, others, depth);
    }
}

proof fn lemma_forest_starts_at_top(
    ids: Seq<ProcessIdentity>,
    at: Seq<int>,
    depth: nat,
    levels: nat,
)
    ensures
        forest(ids, at, depth, levels).len() > 0 ==> forest(ids, at, depth, levels)[0].0 == depth,
    decreases at.len(),
{
    if at.len() > 0 {
        lemma_forest_starts_at_top(ids, at.drop_first(), depth, levels);
        if levels == 0 {
            assert(forest(ids, at, depth, levels) =~= forest(ids, at.drop_first(), depth, levels));
        } else {
            assert(subtree(ids, at[0], depth, levels)[0] == (depth, at[0]));
        }
    }
}

/// The rows at depth zero are roots; every other row comes after the row of
/// its parent, which is the nearest row before it that is one level up.
pub proof fn parents_come_before_children(ids: Seq<ProcessIdentity>, x: int)
    requires
        0 <= x < process_forest(ids).len(),
    ensures
        process_forest(ids)[x].0 == 0 ==> is_root(ids, process_forest(ids)[x].1),
        process_forest(ids)[x].0 > 0 ==> follows_parent(ids, process_forest(ids), x),
{
    lemma_positions(ids.len() as int, |i: int| is_root(ids, i));
    lemma_forest_parents(ids, roots(ids), 0, ids.len());
    let row = process_forest(ids)[x];
    if row.0 == 0 {
        assert(roots(ids).contains(row.1));
    }
}

/// Siblings are shown in alphabetical order, the roots in the order of the
/// list.
pub proof fn siblings_are_in_order(ids: Seq<ProcessIdentity>, x: int, y: int)
    requires
        are_siblings(process_forest(ids), x, y),
    ensures
        process_forest(ids)[x].0 > 0 ==> alphabetical(
            ids,
            process_forest(ids)[x].1,
            process_forest(ids)[y].1,
        ),
        process_forest(ids)[x].0 == 0 ==> process_forest(ids)[x].1 < process_forest(ids)[y].1,
{
    let rows = process_forest(ids);
    lemma_positions(ids.len() as int, |i: int| is_root(ids, i));
    lemma_forest_parents(ids, roots(ids), 0, ids.len());
    if rows[x].0 == 0 {
        assert(in_order(roots(ids), rows[x].1, rows[y].1));
    }
}

/// A line of descent leads to the row's process, by way of `prefix` and then
/// `head`, and the row's depth is the number of its ancestors on that line.
spec fn descends_by(
    ids: Seq<ProcessIdentity>,
    prefix: Seq<int>,
    head: int,
    row: (nat, int),
    line: Seq<int>,
) -> bool {
    &&& leads_to(ids, line, row.1)
    &&& line.len() == row.0 + 1
    &&& line.len() > prefix.len()
    &&& line.take(prefix.len() as int) == prefix
    &&& line[prefix.len() as int] == head
}

spec fn under(ids: Seq<ProcessIdentity>, prefix: Seq<int>, head: int, row: (nat, int)) -> bool {
    exists|line: Seq<int>| descends_by(ids, prefix, head, row, line)
}

proof fn lemma_line_under(
    ids: Seq<ProcessIdentity>,
    prefix: Seq<int>,
    head: int,
    row: (nat, int),
) -> (line: Seq<int>)
    requires
        under(ids, prefix, head, row),
    ensures
        descends_by(ids, prefix, head, row, line),
{
    choose|line: Seq<int>| descends_by(ids, prefix, head, row, line)
}

spec fn under_some(
    ids: Seq<ProcessIdentity>,
    prefix: Seq<int>,
    heads: Seq<int>,
    row: (nat, int),
) -> bool {
    exists|k: int| 0 <= k < heads.len() && #[trigger] under(ids, prefix, heads[k], row)
}

spec fn once_each(rows: Seq<(nat, int)>) -> bool {
    forall|x: int, y: int|
        0 <= x < y < rows.len() ==> (#[trigger] rows[x]).1 != (#[trigger] rows[y]).1
}

#[verifier::rlimit(40)]
#[verifier::spinoff_prover]
proof fn lemma_subtree_rows(
    ids: Seq<ProcessIdentity>,
    prefix: Seq<int>,
    at: int,
    levels: nat,
)
    requires
        distinct_pids(ids),
        is_descent(ids, prefix.push(at)),
    ensures
        ({
            let rows = subtree(ids, at, prefix.len(), levels);
            &&& forall|x: int| 0 <= x < rows.len() ==> under(ids, prefix, at, #[trigger] rows[x])
            &&& once_each(rows)
        }),
    decreases levels, 0nat,
{
    if levels > 0 {
        let here = prefix.push(at);
        let below = children(ids, ids[at].pid);
        let fewer = (levels - 1) as nat;
        assert(below.no_duplicates()) by {
            children_are_alphabetical(ids, ids[at].pid);
        }
        assert forall|k: int| 0 <= k < below.len() implies is_descent(
            ids,
            here.push(#[trigger] below[k]),
        ) by {
            lemma_children(ids, ids[at].pid);
            lemma_descent_grows(ids, here, below[k]);
        }
        lemma_forest_rows(ids, here, below, fewer);
        let inner = forest(ids, below, here.len(), fewer);
        let rows = subtree(ids, at, prefix.len(), levels);
        assert(rows =~= seq![(prefix.len(), at)] + inner);
        assert(descends_by(ids, prefix, at, rows[0], here)) by {
            assert(here.take(prefix.len() as int) =~= prefix);
        }
        assert forall|x: int| 0 <= x < rows.len() implies under(ids, prefix, at, #[trigger] rows[x])
            && (x > 0 ==> rows[x].1 != at) by {
            if x > 0 {
                assert(rows[x] == inner[x - 1]);
                assert(under_some(ids, here, below, inner[x - 1]));
                let k = choose|k: int|
                    0 <= k < below.len() && #[trigger] under(ids, here, below[k], inner[x - 1]);
                let line = lemma_line_under(ids, here, below[k], inner[x - 1]);
                assert(line.take(here.len() as int)[prefix.len() as int] == at);
                assert(line.take(prefix.len() as int) =~= line.take(here.len() as int).take(
                    prefix.len() as int,
                ));
                assert(here.take(prefix.len() as int) =~= prefix);
                assert(descends_by(ids, prefix, at, rows[x], line));
                if rows[x].1 == at {
                    lemma_one_descent(ids, line, here);
                }
            }
        }
        assert forall|x: int, y: int| 0 <= x < y < rows.len() implies (#[trigger] rows[x]).1 != (
        #[trigger] rows[y]).1 by {
            assert(rows[y] == inner[y - 1]);
            if x > 0 {
                assert(rows[x] == inner[x - 1]);
            }
        }
    }
}

#[verifier::rlimit(40)]
#[verifier::spinoff_prover]
proof fn lemma_forest_rows(
    ids: Seq<ProcessIdentity>,
    prefix: Seq<int>,
    at: Seq<int>,
    levels: nat,
)
    requires
        distinct_pids(ids),
        at.no_duplicates(),
        forall|k: int| 0 <= k < at.len() ==> is_descent(ids, prefix.push(#[trigger] at[k])),
    ensures
        ({
            let rows = forest(ids, at, prefix.len(), levels);
            &&& forall|x: int|
                0 <= x < rows.len() ==> under_some(ids, prefix, at, #[trigger] rows[x])
            &&& once_each(rows)
        }),
    decreases levels, at.len(),
{
    if at.len() > 0 {
        let tail = at.drop_first();
        lemma_subtree_rows(ids, prefix, at[0], levels);
        assert forall|k: int| 0 <= k < tail.len() implies is_descent(
            ids,
            prefix.push(#[trigger] tail[k]),
        ) by {
            assert(tail[k] == at[k + 1]);
        }
        assert(tail.no_duplicates());
        lemma_forest_rows(ids, prefix, tail, levels);
        let first = subtree(ids, at[0], prefix.len(), levels);
        let others = forest(ids, tail, prefix.len(), levels);
        let rows = forest(ids, at, prefix.len(), levels);
        assert(rows =~= first + others);
        assert forall|x: int| 0 <= x < rows.len() implies under_some(
            ids,
            prefix,
            at,
            #[trigger] rows[x],
        ) by {
            if x < first.len() {
                assert(under(ids, prefix, at[0], first[x]));
            } else {
                let z = x - first.len();
                assert(under_some(ids, prefix, tail, others[z]));
                let k = choose|k: int|
                    0 <= k < tail.len() && #[trigger] under(ids, prefix, tail[k], others[z]);
                assert(tail[k] == at[k + 1]);
                assert(under(ids, prefix, at[k + 1], rows[x]));
            }
        }
        assert forall|x: int, y: int| 0 <= x < y < rows.len() implies (#[trigger] rows[x]).1 != (
        #[trigger] rows[y]).1 by {
            if y < first.len() {
                assert(rows[x] == first[x] && rows[y] == first[y]);
            } else if x >= first.len() {
                assert(rows[x] == others[x - first.len()]);
                assert(rows[y] == others[y - first.len()]);
            } else if rows[x].1 == rows[y].1 {
                let z = y - first.len();
                assert(under(ids, prefix, at[0], first[x]));
                let line = lemma_line_under(ids, prefix, at[0], first[x]);
                assert(under_some(ids, prefix, tail, others[z]));
                let k = choose|k: int|
                    0 <= k < tail.len() && #[trigger] under(ids, prefix, tail[k], others[z]);
                let other = lemma_line_under(ids, prefix, tail[k], others[z]);
                lemma_one_descent(ids, line, other);
                assert(at[0] == at[k + 1]);
            }
        }
    }
}

proof fn lemma_subtree_reaches(
    ids: Seq<ProcessIdentity>,
    line: Seq<int>,
    d: int,
    levels: nat,
)
    requires
        is_descent(ids, line),
        0 <= d < line.len(),
        line.len() - d <= levels,
    ensures
        subtree(ids, line[d], d as nat, levels).contains(((line.len() - 1) as nat, line.last())),
    decreases levels,
{
    let goal = ((line.len() - 1) as nat, line.last());
    let rows = subtree(ids, line[d], d as nat, levels);
    let below = children(ids, ids[line[d]].pid);
    let fewer = (levels - 1) as nat;
    let inner = forest(ids, below, (d + 1) as nat, fewer);
    assert(rows =~= seq![(d as nat, line[d])] + inner);
    if d == line.len() - 1 {
        assert(rows[0] == goal);
    } else {
        assert(ids[line[d + 1]].parent_pid == Some(ids[line[d]].pid));
        children_are_alphabetical(ids, ids[line[d]].pid);
        assert(below.contains(line[d + 1]));
        let k = choose|k: int| 0 <= k < below.len() && below[k] == line[d + 1];
        lemma_subtree_reaches(ids, line, d + 1, fewer);
        lemma_forest_holds(ids, below, (d + 1) as nat, fewer, k, goal);
        let x = choose|x: int| 0 <= x < inner.len() && inner[x] == goal;
        assert(rows[x + 1] == goal);
    }
}

proof fn lemma_forest_holds(
    ids: Seq<ProcessIdentity>,
    at: Seq<int>,
    depth: nat,
    levels: nat,
    k: int,
    row: (nat, int),
)
    requires
        0 <= k < at.len(),
        subtree(ids, at[k], depth, levels).contains(row),
    ensures
        forest(ids, at, depth, levels).contains(row),
    decreases at.len(),
{
    let first = subtree(ids, at[0], depth, levels);
    let others = forest(ids, at.drop_first(), depth, levels);
    let rows = forest(ids, at, depth, levels);
    assert(rows =~= first + others);
    if k == 0 {
        let x = choose|x: int| 0 <= x < first.len() && first[x] == row;
        assert(rows[x] == row);
    } else {
        assert(at.drop_first()[k - 1] == at[k]);
        lemma_forest_holds(ids, at.drop_first(), depth, levels, k - 1, row);
        let x = choose|x: int| 0 <= x < others.len() && others[x] == row;
        assert(rows[first.len() + x] == row);
    }
}

/// Where no pid occurs twice, no process is shown twice, and a process is
/// shown at a depth exactly where a line of descent leads to it from a root,
/// with that many ancestors. Only processes whose parents go round in a
/// circle have no such line.
pub proof fn forest_shows_each_process_once(ids: Seq<ProcessIdentity>)
    requires
        distinct_pids(ids),
    ensures
        forall|x: int, y: int|
            0 <= x < y < process_forest(ids).len() ==> (#[trigger] process_forest(ids)[x]).1 != (
            #[trigger] process_forest(ids)[y]).1,
        forall|depth: nat, at: int|
            #[trigger] process_forest(ids).contains((depth, at)) <==> has_ancestors(
                ids,
                at,
                depth,
            ),
{
    let rows = process_forest(ids);
    let top = roots(ids);
    let none = Seq::<int>::empty();
    lemma_positions(ids.len() as int, |i: int| is_root(ids, i));
    assert forall|k: int| 0 <= k < top.len() implies is_descent(ids, none.push(#[trigger] top[k])) by {
        assert(none.push(top[k])[0] == top[k]);
    }
    assert(top.no_duplicates());
    lemma_forest_rows(ids, none, top, ids.len());
    assert forall|depth: nat, at: int|
        #[trigger] rows.contains((depth, at)) <==> has_ancestors(ids, at, depth) by {
        if rows.contains((depth, at)) {
            let x = choose|x: int| 0 <= x < rows.len() && rows[x] == (depth, at);
            assert(under_some(ids, none, top, rows[x]));
            let k = choose|k: int|
                0 <= k < top.len() && #[trigger] under(ids, none, top[k], rows[x]);
            let line = lemma_line_under(ids, none, top[k], rows[x]);
            assert(leads_to(ids, line, at));
        }
        if has_ancestors(ids, at, depth) {
            let line = choose|line: Seq<int>|
                #[trigger] leads_to(ids, line, at) && line.len() == depth + 1;
            lemma_descent_is_short(ids, line);
            lemma_subtree_reaches(ids, line, 0, ids.len());
            assert(top.contains(line[0]));
            let k = choose|k: int| 0 <= k < top.len() && top[k] == line[0];
            lemma_forest_holds(ids, top, 0, ids.len(), k, (depth, at));
        }
    }
}

/// Where no pid occurs twice and every process descends from a root, the
/// forest shows all of the list.
pub proof fn forest_shows_all(ids: Seq<ProcessIdentity>)
    requires
        distinct_pids(ids),
        forall|i: int| 0 <= i < ids.len() ==> #[trigger] has_descent(ids, i),
    ensures
        process_forest(ids).len() == ids.len(),
        forall|i: int| 0 <= i < ids.len() ==> #[trigger] is_shown(process_forest(ids), i),
{
    forest_shows_each_process_once(ids);
    let rows = process_forest(ids);
    let shown = Seq::new(rows.len(), |x: int| rows[x].1);
    assert forall|i: int| 0 <= i < ids.len() implies #[trigger] is_shown(rows, i) by {
        assert(has_descent(ids, i));
        let line = choose|line: Seq<int>| leads_to(ids, line, i);
        let row = ((line.len() - 1) as nat, i);
        assert(rows.contains(row));
        let x = choose|x: int| 0 <= x < rows.len() && rows[x] == row;
        assert(rows[x].1 == i);
    }
    assert forall|x: int| 0 <= x < shown.len() implies 0 <= #[trigger] shown[x] < ids.len() by {
        assert(rows.contains(rows[x]));
        let (depth, at) = rows[x];
        assert(rows.contains((depth, at)));
        let line = choose|line: Seq<int>|
            #[trigger] leads_to(ids, line, at) && line.len() == depth + 1;
        assert(0 <= line[line.len() - 1] < ids.len());
    }
    let all = vstd::set_lib::set_int_range(0, ids.len() as int);
    vstd::set_lib::lemma_int_range(0, ids.len() as int);
    assert forall|x: int, y: int| 0 <= x < shown.len() && 0 <= y < shown.len() && x != y implies shown[x]
        != shown[y] by {
        if x < y {
            assert(rows[x].1 != rows[y].1);
        } else {
            assert(rows[y].1 != rows[x].1);
        }
    }
    shown.unique_seq_to_set();
    assert(shown.to_set() =~= all) by {
        assert forall|i: int| shown.to_set().contains(i) <==> all.contains(i) by {
            if all.contains(i) {
                assert(is_shown(rows, i));
                let x = choose|x: int| 0 <= x < rows.len() && (#[trigger] rows[x]).1 == i;
                assert(shown[x] == i);
            }
        }
    }
}

/// A process stands at the top exactly where it has no parent or none of the
/// listed processes is its parent.
pub proof fn tops_have_no_parent(ids: Seq<ProcessIdentity>, at: int)
    requires
        distinct_pids(ids),
        0 <= at < ids.len(),
    ensures
        process_forest(ids).contains((0, at)) <==> forall|i: int|
            0 <= i < ids.len() ==> ids[at].parent_pid != Some((#[trigger] ids[i]).pid),
{
    forest_shows_each_process_once(ids);
    let rows = process_forest(ids);
    let row = (0nat, at);
    if rows.contains(row) {
        let line = choose|line: Seq<int>| #[trigger] leads_to(ids, line, at) && line.len() == 1;
        assert(line[0] == at);
        assert(is_root(ids, at));
        assert forall|i: int| 0 <= i < ids.len() implies ids[at].parent_pid != Some(
            (#[trigger] ids[i]).pid,
        ) by {}
    } else {
        let line = seq![at];
        if is_root(ids, at) {
            assert(is_descent(ids, line));
            assert(leads_to(ids, line, at));
            assert(has_ancestors(ids, at, 0));
        }
        assert(present(ids, ids[at].parent_pid->0));
    }
}

/// Below a shown process every process that has it as its parent is shown, one
/// level down.
pub proof fn children_stand_one_level_down(
    ids: Seq<ProcessIdentity>,
    depth: nat,
    parent: int,
    child: int,
)
    requires
        distinct_pids(ids),
        process_forest(ids).contains((depth, parent)),
        0 <= child < ids.len(),
        ids[child].parent_pid == Some(ids[parent].pid),
    ensures
        process_forest(ids).contains((depth + 1, child)),
{
    forest_shows_each_process_once(ids);
    let line = choose|line: Seq<int>|
        #[trigger] leads_to(ids, line, parent) && line.len() == depth + 1;
    lemma_descent_grows(ids, line, child);
    assert(leads_to(ids, line.push(child), child));
    assert(has_ancestors(ids, child, depth + 1));
}

/// A row below the top stands under its parent: going up from it, the first row
/// that is less deep is one level up and shows the parent.
///
/// The result is the place of that row.
pub proof fn rows_stand_under_their_parent(ids: Seq<ProcessIdentity>, x: int) -> (y: int)
    requires
        0 <= x < process_forest(ids).len(),
        process_forest(ids)[x].0 > 0,
    ensures
        0 <= y < x,
        process_forest(ids)[y].0 + 1 == process_forest(ids)[x].0,
        ids[process_forest(ids)[x].1].parent_pid == Some(ids[process_forest(ids)[y].1].pid),
        forall|z: int|
            y < z < x ==> (#[trigger] process_forest(ids)[z]).0 >= process_forest(ids)[x].0,
{
    parents_come_before_children(ids, x);
    let rows = process_forest(ids);
    let y = choose|y: int|
        #[trigger] is_above(rows, y, x) && ids[rows[x].1].parent_pid == Some(ids[rows[y].1].pid);
    y
}

/// Among rows of one depth with none less deep between them, names go up in the
/// alphabet, without regard to case; at the top, rows go by the list.
pub proof fn neighbours_go_up_the_alphabet(ids: Seq<ProcessIdentity>, x: int, y: int)
    requires
        0 <= x < y < process_forest(ids).len(),
        process_forest(ids)[x].0 == process_forest(ids)[y].0,
        forall|z: int|
            x < z < y ==> (#[trigger] process_forest(ids)[z]).0 >= process_forest(ids)[x].0,
    ensures
        process_forest(ids)[x].0 > 0 ==> chars_le(
            lower(ids[process_forest(ids)[x].1].name@),
            lower(ids[process_forest(ids)[y].1].name@),
        ),
        lower(ids[process_forest(ids)[x].1].name@) == lower(ids[process_forest(ids)[y].1].name@)
            ==> process_forest(ids)[x].1 < process_forest(ids)[y].1,
        process_forest(ids)[x].0 == 0 ==> process_forest(ids)[x].1 < process_forest(ids)[y].1,
{
    siblings_are_in_order(ids, x, y);
    lemma_forest_parents(ids, roots(ids), 0, ids.len());
    assert(are_siblings(process_forest(ids), x, y));
}

/// What the rows of a forest show: each row below the top stands under the row
/// of its parent, a row at the top is of a process without a parent in the
/// list, no process has two rows, and each that has no parent in the list, or
/// whose parent has a row, has one.
pub proof fn forest_rows_follow_the_parents(
    rows: Seq<(usize, &ProcessIdentity)>,
    ids: Seq<ProcessIdentity>,
)
    requires
        shows_forest(rows, ids),
        distinct_pids(ids),
    ensures
        forall|x: int|
            0 <= x < rows.len() && (#[trigger] rows[x]).0 > 0 ==> exists|y: int|
                0 <= y < x && (#[trigger] rows[y]).0 + 1 == rows[x].0 && rows[x].1.parent_pid
                    == Some(rows[y].1.pid) && forall|z: int|
                    y < z < x ==> (#[trigger] rows[z]).0 >= rows[x].0,
        forall|x: int, i: int|
            0 <= x < rows.len() && (#[trigger] rows[x]).0 == 0 && 0 <= i < ids.len()
                ==> rows[x].1.parent_pid != Some((#[trigger] ids[i]).pid),
        forall|x: int, y: int|
            0 <= x < y < rows.len() ==> (#[trigger] rows[x]).1.pid != (#[trigger] rows[y]).1.pid,
        forall|x: int| 0 <= x < rows.len() ==> ids.contains(*(#[trigger] rows[x]).1),
        forall|i: int|
            0 <= i < ids.len() && (forall|j: int|
                0 <= j < ids.len() ==> ids[i].parent_pid != Some((#[trigger] ids[j]).pid))
                ==> exists|x: int|
                0 <= x < rows.len() && (#[trigger] rows[x]).0 == 0 && *rows[x].1
                    == #[trigger] ids[i],
        forall|x: int, i: int|
            0 <= x < rows.len() && 0 <= i < ids.len() && (#[trigger] ids[i]).parent_pid == Some(
                (#[trigger] rows[x]).1.pid,
            ) ==> exists|y: int|
                0 <= y < rows.len() && (#[trigger] rows[y]).0 == rows[x].0 + 1 && *rows[y].1
                    == ids[i],
{
    let whole = process_forest(ids);
    forest_shows_each_process_once(ids);
    assert forall|x: int| 0 <= x < rows.len() implies 0 <= (#[trigger] whole[x]).1 < ids.len() by {
        let (depth, at) = whole[x];
        assert(whole.contains((depth, at)));
        let line = choose|line: Seq<int>|
            #[trigger] leads_to(ids, line, at) && line.len() == depth + 1;
        assert(0 <= line[line.len() - 1] < ids.len());
    }
    assert forall|x: int| 0 <= x < rows.len() && (#[trigger] rows[x]).0 > 0 implies exists|y: int|
        0 <= y < x && (#[trigger] rows[y]).0 + 1 == rows[x].0 && rows[x].1.parent_pid == Some(
            rows[y].1.pid,
        ) && forall|z: int| y < z < x ==> (#[trigger] rows[z]).0 >= rows[x].0 by {
        let y = rows_stand_under_their_parent(ids, x);
        assert(rows[y].0 == whole[y].0);
        assert forall|z: int| y < z < x implies (#[trigger] rows[z]).0 >= rows[x].0 by {
            assert(rows[z].0 == whole[z].0);
        }
    }
    assert forall|x: int, i: int|
        0 <= x < rows.len() && (#[trigger] rows[x]).0 == 0 && 0 <= i
            < ids.len() implies rows[x].1.parent_pid != Some((#[trigger] ids[i]).pid) by {
        assert(whole.contains(whole[x]));
        assert(whole[x] == (0nat, whole[x].1));
        tops_have_no_parent(ids, whole[x].1);
    }
    assert forall|x: int, y: int| 0 <= x < y < rows.len() implies (#[trigger] rows[x]).1.pid != (
    #[trigger] rows[y]).1.pid by {
        assert(whole[x].1 != whole[y].1);
        if whole[x].1 < whole[y].1 {
            assert(ids[whole[x].1].pid != ids[whole[y].1].pid);
        } else {
            assert(ids[whole[y].1].pid != ids[whole[x].1].pid);
        }
    }
    assert forall|i: int|
        0 <= i < ids.len() && (forall|j: int|
            0 <= j < ids.len() ==> ids[i].parent_pid != Some(
                (#[trigger] ids[j]).pid,
            )) implies exists|x: int|
        0 <= x < rows.len() && (#[trigger] rows[x]).0 == 0 && *rows[x].1 == #[trigger] ids[i] by {
        tops_have_no_parent(ids, i);
        let x = choose|x: int| 0 <= x < whole.len() && whole[x] == (0nat, i);
        assert(rows[x].0 == 0);
    }
    assert forall|x: int, i: int|
        0 <= x < rows.len() && 0 <= i < ids.len() && (#[trigger] ids[i]).parent_pid == Some(
            (#[trigger] rows[x]).1.pid,
        ) implies exists|y: int|
        0 <= y < rows.len() && (#[trigger] rows[y]).0 == rows[x].0 + 1 && *rows[y].1 == ids[i] by {
        let (depth, at) = whole[x];
        assert(whole.contains((depth, at)));
        children_stand_one_level_down(ids, depth, at, i);
        let y = choose|y: int| 0 <= y < whole.len() && whole[y] == (depth + 1, i);
        assert(rows[y].0 == depth + 1);
    }
}

} // verus!
