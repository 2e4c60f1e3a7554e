//! Process monitoring.
//!
//! The monitor has two responsibilities:
//!
//! 1. **Discovery**: list the processes of a table so that they can be
//!    presented as checkboxes.
//! 2. **Sampling**: on each pass, produce a [`SampledProcess`] for every
//!    process that matches the active [`FilterSet`] or is ticked, including
//!    transitive children when requested.
//!
//! The monitor keeps the previous counters of each process so that it can
//! compute instantaneous *rates* for disk I/O out of cumulative counters.

use std::collections::{HashMap, HashSet};
use vstd::prelude::*;
use vstd::string::*;

use crate::metrics::{no_flow, same_process, MetricSample, ProcessIdentity, Rate};
use crate::order::{as_ints, comes_before, lemma_order_covers, stable_order, views};
use crate::pids::{
    increasing, keys_of, lemma_increasing_lists_agree, lists, members_of, sorted_members,
};
use crate::process_filter::FilterSet;
use crate::text::{chars_le, lower, NameKey};

verus! {

broadcast use vstd::std_specs::hash::group_hash_axioms;

/// What is known of one running process.
#[derive(Debug)]
pub struct ProcessInfo {
    pub name: String,
    /// The words of the command line.
    pub cmd: Vec<String>,
    pub parent: Option<u32>,
    /// Seconds since UNIX epoch.
    pub start_time: u64,
    /// Bit pattern of the single-precision CPU percentage.
    pub cpu_percent_bits: u32,
    pub memory_bytes: u64,
    /// Bytes read from disk since the process started.
    pub disk_read_bytes: u64,
    /// Bytes written to disk since the process started.
    pub disk_written_bytes: u64,
}

/// The processes running at one moment, by pid.
pub type ProcessTable = HashMap<u32, ProcessInfo>;

/// The time of a sampling pass: nanoseconds of a clock that never goes back,
/// and milliseconds since UNIX epoch.
#[derive(Debug, Clone, Copy)]
pub struct Clock {
    pub now_ns: u128,
    pub wall_clock_ms: i64,
}

/// Snapshot of a single process produced during a sampling pass.
#[derive(Debug)]
pub struct SampledProcess {
    pub identity: ProcessIdentity,
    pub sample: MetricSample,
    pub cmdline: String,
}

impl Clone for SampledProcess {
    fn clone(&self) -> (r: Self)
        ensures
            r == *self,
    {
        SampledProcess {
            identity: self.identity.clone(),
            sample: self.sample,
            cmdline: self.cmdline.clone(),
        }
    }
}

/// Configuration for a [`ProcessMonitor`].
#[derive(Debug, Clone, Copy)]
pub struct MonitorConfig {
    /// Minimum interval between samples, in nanoseconds.
    pub sample_interval_ns: u128,
    /// Maximum number of samples retained per process in the UI-side history.
    /// (The monitor itself does not store history; this is surfaced for the app.)
    pub history_capacity: usize,
}

impl Default for MonitorConfig {
    fn default() -> (r: Self)
        ensures
            r.sample_interval_ns == 1_000_000_000,
            r.history_capacity == 3600,
    {
        MonitorConfig { sample_interval_ns: 1_000_000_000, history_capacity: 3600 }
    }
}

/// Cumulative I/O counters and when they were read, used to compute
/// per-sample deltas.
#[derive(Debug, Clone, Copy)]
pub struct IoCounters {
    pub disk_read_bytes: u64,
    pub disk_written_bytes: u64,
    pub at_ns: u128,
}

/// The counters of a process, and the process that they were read of: a pid
/// alone does not tell, since it may have been recycled.
#[derive(Debug)]
pub struct Baseline {
    pub identity: ProcessIdentity,
    pub counters: IoCounters,
}

// ---- which processes are selected ------------------------------------------

/// `child` runs, and its parent is `parent`.
pub open spec fn is_child(table: Map<u32, ProcessInfo>, parent: u32, child: u32) -> bool {
    table.contains_key(child) && table[child].parent == Some(parent)
}

/// Each process on the path is the parent of the next.
pub open spec fn is_lineage(table: Map<u32, ProcessInfo>, path: Seq<u32>) -> bool {
    forall|i: int|
        0 <= i && i + 1 < path.len() ==> is_child(table, #[trigger] path[i], path[i + 1])
}

/// `pid` is a member of `seeds` or a transitive descendant of one.
pub open spec fn descends_from(table: Map<u32, ProcessInfo>, seeds: Set<u32>, pid: u32) -> bool {
    exists|path: Seq<u32>|
        {
            &&& path.len() > 0
            &&& #[trigger] is_lineage(table, path)
            &&& seeds.contains(path[0])
            &&& path.last() == pid
        }
}

/// The processes to sample: those that run and were matched or ticked and,
/// where children are followed, all their descendants.
pub open spec fn selection(
    table: Map<u32, ProcessInfo>,
    matched: Set<u32>,
    explicit: Set<u32>,
    follow_children: bool,
) -> Set<u32> {
    let seeds = table.dom().intersect(matched.union(explicit));
    if follow_children {
        Set::new(|pid: u32| descends_from(table, seeds, pid))
    } else {
        seeds
    }
}

/// `children` holds `child` in the list for `parent`.
spec fn has_kid(children: Map<u32, Vec<u32>>, parent: u32, child: u32) -> bool {
    children.contains_key(parent) && children[parent]@.contains(child)
}

fn children_by_parent(table: &ProcessTable) -> (children: HashMap<u32, Vec<u32>>)
    ensures
        forall|p: u32, c: u32|
            #![trigger is_child(table@, p, c)]
            #![trigger has_kid(children@, p, c)]
            has_kid(children@, p, c) <==> is_child(table@, p, c),
{
    let pids: Vec<u32> = keys_of(table);
    let mut children: HashMap<u32, Vec<u32>> = HashMap::new();
    let mut i: usize = 0;
    while i < pids.len()
        invariant
            lists(pids@, table@.dom()),
            i <= pids@.len(),
            forall|p: u32, c: u32| #[trigger]
                has_kid(children@, p, c) <==> (is_child(table@, p, c) && pids@.take(
                    i as int,
                ).contains(c)),
        decreases pids@.len() - i,
    {
        let pid: u32 = pids[i];
        assert(pids@.contains(pid));
        let ghost before = children@;
        if let Some(info) = table.get(&pid) {
            if let Some(parent) = info.parent {
                let mut kids: Vec<u32> = match children.remove(&parent) {
                    Some(kids) => kids,
                    None => Vec::new(),
                };
                let ghost old_kids = kids@;
                kids.push(pid);
                let ghost new_kids = kids@;
                children.insert(parent, kids);
                proof {
                    assert forall|p: u32, c: u32| #[trigger]
                        has_kid(children@, p, c) <==> (has_kid(before, p, c) || (p == parent && c
                            == pid)) by {
                        if p == parent {
                            if old_kids.contains(c) {
                                let k = choose|k: int| 0 <= k < old_kids.len() && old_kids[k] == c;
                                assert(new_kids[k] == c);
                            }
                            if c == pid {
                                assert(new_kids[old_kids.len() as int] == c);
                            }
                        }
                    }
                }
            }
        }
        proof {
            let done = pids@.take(i as int);
            let now = pids@.take(i + 1);
            assert forall|p: u32, c: u32| #[trigger]
                has_kid(children@, p, c) <==> (is_child(table@, p, c) && now.contains(c)) by {
                assert(has_kid(before, p, c) <==> (is_child(table@, p, c) && done.contains(c)));
                if done.contains(c) {
                    let k = choose|k: int| 0 <= k < done.len() && done[k] == c;
                    assert(now[k] == c);
                }
                if c == pid {
                    assert(now[done.len() as int] == c);
                }
                if now.contains(c) && c != pid {
                    let k = choose|k: int| 0 <= k < now.len() && now[k] == c;
                    assert(done[k] == c);
                }
            }
        }
        i = i + 1;
    }
    proof {
        assert(pids@.take(i as int) =~= pids@);
        assert forall|p: u32, c: u32|
            #![trigger is_child(table@, p, c)]
            #![trigger has_kid(children@, p, c)]
            has_kid(children@, p, c) <==> is_child(table@, p, c) by {
            assert(has_kid(children@, p, c) <==> (is_child(table@, p, c) && pids@.contains(c)));
        }
    }
    children
}

proof fn lemma_seed_descends(table: Map<u32, ProcessInfo>, seeds: Set<u32>, pid: u32)
    requires
        seeds.contains(pid),
    ensures
        descends_from(table, seeds, pid),
{
    let path = seq![pid];
    assert(is_lineage(table, path));
    assert(path.last() == pid);
}

proof fn lemma_child_descends(
    table: Map<u32, ProcessInfo>,
    seeds: Set<u32>,
    parent: u32,
    child: u32,
)
    requires
        descends_from(table, seeds, parent),
        is_child(table, parent, child),
    ensures
        descends_from(table, seeds, child),
{
    let path = choose|path: Seq<u32>|
        {
            &&& path.len() > 0
            &&& #[trigger] is_lineage(table, path)
            &&& seeds.contains(path[0])
            &&& path.last() == parent
        };
    let longer = path.push(child);
    assert forall|i: int| 0 <= i && i + 1 < longer.len() implies is_child(
        table,
        #[trigger] longer[i],
        longer[i + 1],
    ) by {
        if i + 1 < path.len() {
            assert(is_child(table, path[i], path[i + 1]));
        }
    }
    assert(is_lineage(table, longer));
    assert(longer[0] == path[0]);
    assert(longer.last() == child);
}

/// A set that holds the seeds and every child of its members holds all that
/// descends from the seeds.
proof fn lemma_closed_set_holds_descendants(
    table: Map<u32, ProcessInfo>,
    seeds: Set<u32>,
    set: Set<u32>,
    pid: u32,
)
    requires
        seeds.subset_of(set),
        forall|p: u32, c: u32| set.contains(p) && #[trigger] is_child(table, p, c) ==> set.contains(c),
        descends_from(table, seeds, pid),
    ensures
        set.contains(pid),
{
    let path = choose|path: Seq<u32>|
        {
            &&& path.len() > 0
            &&& #[trigger] is_lineage(table, path)
            &&& seeds.contains(path[0])
            &&& path.last() == pid
        };
    lemma_closed_set_holds_path(table, set, path, path.len() - 1);
}

proof fn lemma_closed_set_holds_path(
    table: Map<u32, ProcessInfo>,
    set: Set<u32>,
    path: Seq<u32>,
    n: int,
)
    requires
        forall|p: u32, c: u32| set.contains(p) && #[trigger] is_child(table, p, c) ==> set.contains(c),
        is_lineage(table, path),
        0 <= n < path.len(),
        set.contains(path[0]),
    ensures
        set.contains(path[n]),
    decreases n,
{
    if n > 0 {
        lemma_closed_set_holds_path(table, set, path, n - 1);
        assert(is_child(table, path[n - 1], path[n - 1 + 1]));
    }
}

/// Adds to `selected` all that descends from its members.
fn add_descendants(table: &ProcessTable, selected: &mut HashSet<u32>)
    requires
        old(selected)@.subset_of(table@.dom()),
    ensures
        final(selected)@ == Set::new(|pid: u32| descends_from(table@, old(selected)@, pid)),
{
    let ghost seeds = selected@;
    let children: HashMap<u32, Vec<u32>> = children_by_parent(table);
    let mut stack: Vec<u32> = members_of(selected);
    proof {
        assert forall|p: u32| selected@.contains(p) implies descends_from(table@, seeds, p) by {
            lemma_seed_descends(table@, seeds, p);
        }
        vstd::set_lib::lemma_len_subset(selected@, table@.dom());
        assert forall|k: int| 0 <= k < stack@.len() implies selected@.contains(
            #[trigger] stack@[k],
        ) by {
            assert(stack@.contains(stack@[k]));
        }
    }
    while stack.len() > 0
        invariant
            forall|p: u32, c: u32|
                #![trigger is_child(table@, p, c)]
                #![trigger has_kid(children@, p, c)]
                has_kid(children@, p, c) <==> is_child(table@, p, c),
            seeds.subset_of(selected@),
            selected@.subset_of(table@.dom()),
            selected@.len() <= table@.dom().len(),
            forall|p: u32| selected@.contains(p) ==> descends_from(table@, seeds, p),
            forall|k: int| 0 <= k < stack@.len() ==> selected@.contains(#[trigger] stack@[k]),
            forall|p: u32, c: u32|
                selected@.contains(p) && #[trigger] is_child(table@, p, c) && !stack@.contains(p)
                    ==> selected@.contains(c),
        decreases table@.dom().len() - selected@.len(), stack@.len(),
    {
        let ghost stack_before = stack@;
        let ghost selected_before = selected@;
        let parent: u32 = stack[stack.len() - 1];
        stack.pop();
        let ghost rest = stack@;
        assert forall|p: u32| p != parent && stack_before.contains(p) implies rest.contains(p) by {
            let k = choose|k: int| 0 <= k < stack_before.len() && stack_before[k] == p;
            assert(rest[k] == p);
        }
        if let Some(kids) = children.get(&parent) {
            let mut j: usize = 0;
            while j < kids.len()
                invariant
                    forall|p: u32, c: u32|
                        #![trigger is_child(table@, p, c)]
                        #![trigger has_kid(children@, p, c)]
                        has_kid(children@, p, c) <==> is_child(table@, p, c),
                    children@.contains_key(parent),
                    children@[parent] == *kids,
                    j <= kids@.len(),
                    selected@.contains(parent),
                    selected_before.subset_of(selected@),
                    selected@.len() >= selected_before.len(),
                    selected@.len() == selected_before.len() ==> stack@ == rest,
                    seeds.subset_of(selected@),
                    selected@.subset_of(table@.dom()),
                    selected@.len() <= table@.dom().len(),
                    forall|p: u32| selected@.contains(p) ==> descends_from(table@, seeds, p),
                    forall|k: int|
                        0 <= k < stack@.len() ==> selected@.contains(#[trigger] stack@[k]),
                    forall|k: int| 0 <= k < j ==> selected@.contains(#[trigger] kids@[k]),
                    forall|p: u32, c: u32|
                        p != parent && selected@.contains(p) && #[trigger] is_child(table@, p, c)
                            && !stack@.contains(p) ==> selected@.contains(c),
                decreases kids@.len() - j,
            {
                let kid: u32 = kids[j];
                proof {
                    assert(kids@.contains(kid));
                    assert(has_kid(children@, parent, kid));
                    assert(is_child(table@, parent, kid));
                    lemma_child_descends(table@, seeds, parent, kid);
                }
                let ghost stack_then = stack@;
                if selected.insert(kid) {
                    stack.push(kid);
                    proof {
                        vstd::set_lib::lemma_len_subset(selected@, table@.dom());
                        assert forall|p: u32| stack_then.contains(p) implies stack@.contains(p) by {
                            let k = choose|k: int|
                                0 <= k < stack_then.len() && stack_then[k] == p;
                            assert(stack@[k] == p);
                        }
                        assert(stack@[stack_then.len() as int] == kid);
                        assert(stack@.contains(kid));
                    }
                } else {
                    assert(selected@ =~= selected@.insert(kid));
                }
                j = j + 1;
            }
        }
        proof {
            assert forall|p: u32, c: u32|
                selected@.contains(p) && #[trigger] is_child(table@, p, c) && !stack@.contains(
                    p,
                ) implies selected@.contains(c) by {
                if p == parent {
                    assert(has_kid(children@, parent, c));
                }
            }
        }
    }
    proof {
        assert forall|p: u32| selected@.contains(p) <==> descends_from(table@, seeds, p) by {
            if descends_from(table@, seeds, p) {
                lemma_closed_set_holds_descendants(table@, seeds, selected@, p);
            }
        }
        assert(selected@ =~= Set::new(|pid: u32| descends_from(table@, seeds, pid)));
    }
}

/// The processes to sample, given those that were matched by a filter and
/// those that were ticked.
pub fn select(
    table: &ProcessTable,
    matched: &HashSet<u32>,
    explicit: &HashSet<u32>,
    follow_children: bool,
) -> (selected: HashSet<u32>)
    ensures
        selected@ == selection(table@, matched@, explicit@, follow_children),
{
    let pids: Vec<u32> = keys_of(table);
    let mut selected: HashSet<u32> = HashSet::new();
    let ghost seeds = table@.dom().intersect(matched@.union(explicit@));
    let mut i: usize = 0;
    while i < pids.len()
        invariant
            lists(pids@, table@.dom()),
            seeds == table@.dom().intersect(matched@.union(explicit@)),
            i <= pids@.len(),
            forall|p: u32| #[trigger]
                selected@.contains(p) <==> (seeds.contains(p) && pids@.take(i as int).contains(p)),
        decreases pids@.len() - i,
    {
        let pid: u32 = pids[i];
        assert(pids@.contains(pid));
        let ghost before = selected@;
        if matched.contains(&pid) || explicit.contains(&pid) {
            selected.insert(pid);
        }
        proof {
            let done = pids@.take(i as int);
            let now = pids@.take(i + 1);
            assert forall|p: u32| #[trigger]
                selected@.contains(p) <==> (seeds.contains(p) && now.contains(p)) by {
                assert(before.contains(p) <==> (seeds.contains(p) && done.contains(p)));
                if done.contains(p) {
                    let k = choose|k: int| 0 <= k < done.len() && done[k] == p;
                    assert(now[k] == p);
                }
                if p == pid {
                    assert(now[done.len() as int] == p);
                }
                if now.contains(p) && p != pid {
                    let k = choose|k: int| 0 <= k < now.len() && now[k] == p;
                    assert(done[k] == p);
                }
            }
        }
        i = i + 1;
    }
    proof {
        assert(pids@.take(i as int) =~= pids@);
        assert forall|p: u32| #[trigger] selected@.contains(p) <==> seeds.contains(p) by {
            if seeds.contains(p) {
                assert(pids@.contains(p));
            }
        }
        assert(selected@ =~= seeds);
    }
    if follow_children {
        add_descendants(table, &mut selected);
    }
    selected
}

// ---- what is recorded of a process -----------------------------------------

/// The words, with one space between each two.
pub open spec fn joined(words: Seq<String>) -> Seq<char>
    decreases words.len(),
{
    if words.len() == 0 {
        Seq::empty()
    } else if words.len() == 1 {
        words[0]@
    } else {
        joined(words.drop_last()) + " "@ + words.last()@
    }
}

impl ProcessInfo {
    /// The full command line.
    pub fn cmdline(&self) -> (r: String)
        ensures
            r@ == joined(self.cmd@),
    {
        let mut r: String = String::new();
        let mut i: usize = 0;
        assert(self.cmd@.take(0) =~= Seq::empty());
        while i < self.cmd.len()
            invariant
                i <= self.cmd@.len(),
                r@ == joined(self.cmd@.take(i as int)),
            decreases self.cmd@.len() - i,
        {
            if i > 0 {
                r.append(" ");
            }
            r.append(self.cmd[i].as_str());
            proof {
                let now = self.cmd@.take(i + 1);
                assert(now.drop_last() =~= self.cmd@.take(i as int));
                assert(now.last() == self.cmd@[i as int]);
                assert(r@ =~= joined(now));
            }
            i = i + 1;
        }
        assert(self.cmd@.take(i as int) =~= self.cmd@);
        r
    }

    /// The identity of the process with the given pid.
    pub open spec fn identity_at(self, pid: u32) -> ProcessIdentity {
        ProcessIdentity {
            pid,
            name: self.name,
            start_time: self.start_time,
            parent_pid: self.parent,
        }
    }

    pub fn identity(&self, pid: u32) -> (r: ProcessIdentity)
        ensures
            r == self.identity_at(pid),
    {
        ProcessIdentity {
            pid,
            name: self.name.clone(),
            start_time: self.start_time,
            parent_pid: self.parent,
        }
    }

    pub open spec fn baseline_at(self, pid: u32, now_ns: u128) -> Baseline {
        Baseline { identity: self.identity_at(pid), counters: self.counters_at(now_ns) }
    }

    pub open spec fn counters_at(self, now_ns: u128) -> IoCounters {
        IoCounters {
            disk_read_bytes: self.disk_read_bytes,
            disk_written_bytes: self.disk_written_bytes,
            at_ns: now_ns,
        }
    }
}

/// The processes that some active filter matches.
pub open spec fn matched_by(table: Map<u32, ProcessInfo>, filters: FilterSet) -> Set<u32> {
    Set::new(
        |pid: u32|
            table.contains_key(pid) && filters.accepts(
                table[pid].name@,
                joined(table[pid].cmd@),
            ),
    )
}

/// The processes that some active filter matches.
pub fn matched_pids(table: &ProcessTable, filters: &FilterSet) -> (matched: HashSet<u32>)
    ensures
        matched@ == matched_by(table@, *filters),
{
    let pids: Vec<u32> = keys_of(table);
    let mut matched: HashSet<u32> = HashSet::new();
    let mut i: usize = 0;
    while i < pids.len()
        invariant
            lists(pids@, table@.dom()),
            i <= pids@.len(),
            forall|p: u32| #[trigger]
                matched@.contains(p) <==> (matched_by(table@, *filters).contains(p) && pids@.take(
                    i as int,
                ).contains(p)),
        decreases pids@.len() - i,
    {
        let pid: u32 = pids[i];
        assert(pids@.contains(pid));
        let ghost before = matched@;
        if let Some(info) = table.get(&pid) {
            let cmdline: String = info.cmdline();
            if filters.matches(info.name.as_str(), cmdline.as_str()) {
                matched.insert(pid);
            }
        }
        proof {
            let done = pids@.take(i as int);
            let now = pids@.take(i + 1);
            assert forall|p: u32| #[trigger]
                matched@.contains(p) <==> (matched_by(table@, *filters).contains(p)
                    && now.contains(p)) by {
                assert(before.contains(p) <==> (matched_by(table@, *filters).contains(p)
                    && done.contains(p)));
                if done.contains(p) {
                    let k = choose|k: int| 0 <= k < done.len() && done[k] == p;
                    assert(now[k] == p);
                }
                if p == pid {
                    assert(now[done.len() as int] == p);
                }
                if now.contains(p) && p != pid {
                    let k = choose|k: int| 0 <= k < now.len() && now[k] == p;
                    assert(done[k] == p);
                }
            }
        }
        i = i + 1;
    }
    proof {
        assert(pids@.take(i as int) =~= pids@);
        assert forall|p: u32| #[trigger]
            matched@.contains(p) <==> matched_by(table@, *filters).contains(p) by {
            if matched_by(table@, *filters).contains(p) {
                assert(pids@.contains(p));
            }
        }
        assert(matched@ =~= matched_by(table@, *filters));
    }
    matched
}

pub open spec fn monus(a: int, b: int) -> int {
    if a > b {
        a - b
    } else {
        0
    }
}

/// The disk rate of a process: what its counters grew by since they were last
/// read, over the time since then, a microsecond at least. Zero where they
/// were not read before.
pub open spec fn disk_rate(previous: Option<IoCounters>, now: IoCounters) -> Rate {
    match previous {
        Some(before) => Rate {
            bytes: (monus(now.disk_read_bytes as int, before.disk_read_bytes as int) + monus(
                now.disk_written_bytes as int,
                before.disk_written_bytes as int,
            )) as u128,
            over_ns: if monus(now.at_ns as int, before.at_ns as int) < 1000 {
                1000
            } else {
                monus(now.at_ns as int, before.at_ns as int) as u128
            },
        },
        None => no_flow(),
    }
}

/// The disk rate between two readings of the counters.
pub fn rate_between(previous: Option<IoCounters>, now: IoCounters) -> (r: Rate)
    ensures
        r == disk_rate(previous, now),
{
    match previous {
        Some(before) => {
            let read: u64 = now.disk_read_bytes.saturating_sub(before.disk_read_bytes);
            let written: u64 = now.disk_written_bytes.saturating_sub(before.disk_written_bytes);
            let span: u128 = now.at_ns.saturating_sub(before.at_ns);
            Rate {
                bytes: read as u128 + written as u128,
                over_ns: if span < 1000 {
                    1000
                } else {
                    span
                },
            }
        },
        None => Rate::zero(),
    }
}

/// The state of a monitor.
pub struct MonitorView {
    pub config: MonitorConfig,
    /// When the session was started, if one was.
    pub started_at: Option<u128>,
    /// The counters of the processes sampled last.
    pub previous_io: Map<u32, Baseline>,
    pub running: bool,
}

impl MonitorView {
    /// Nanoseconds since the session was started; zero where none was.
    pub open spec fn elapsed(self, now_ns: u128) -> u128 {
        match self.started_at {
            Some(t0) => monus(now_ns as int, t0 as int) as u128,
            None => 0,
        }
    }

    /// The counters that were last read of this very process, if any were.
    pub open spec fn last_counters(self, identity: ProcessIdentity) -> Option<IoCounters> {
        let pid = identity.pid;
        if self.previous_io.contains_key(pid) && same_process(
            self.previous_io[pid].identity,
            identity,
        ) {
            Some(self.previous_io[pid].counters)
        } else {
            None
        }
    }

    /// The sample taken of a process.
    pub open spec fn sample_of(self, pid: u32, info: ProcessInfo, clock: Clock) -> MetricSample {
        MetricSample {
            elapsed_ns: self.elapsed(clock.now_ns),
            wall_clock_ms: clock.wall_clock_ms,
            cpu_percent_bits: info.cpu_percent_bits,
            memory_bytes: info.memory_bytes,
            disk: disk_rate(
                self.last_counters(info.identity_at(pid)),
                info.counters_at(clock.now_ns),
            ),
            net: no_flow(),
        }
    }

    /// `r` is what is recorded of one process.
    pub open spec fn records(
        self,
        r: SampledProcess,
        pid: u32,
        info: ProcessInfo,
        clock: Clock,
    ) -> bool {
        &&& r.identity == info.identity_at(pid)
        &&& r.sample == self.sample_of(pid, info, clock)
        &&& r.cmdline@ == joined(info.cmd@)
    }

    /// The monitor after a pass over the selected processes: it remembers the
    /// counters of those, and of no others.
    pub open spec fn after_pass(
        self,
        table: Map<u32, ProcessInfo>,
        selected: Set<u32>,
        clock: Clock,
    ) -> MonitorView {
        MonitorView {
            previous_io: Map::new(
                |pid: u32| selected.contains(pid) && table.contains_key(pid),
                |pid: u32| table[pid].baseline_at(pid, clock.now_ns),
            ),
            ..self
        }
    }
}

pub open spec fn pids_of(samples: Seq<SampledProcess>) -> Seq<u32> {
    samples.map_values(|s: SampledProcess| s.identity.pid)
}

pub open spec fn identities_of(samples: Seq<SampledProcess>) -> Seq<ProcessIdentity> {
    samples.map_values(|s: SampledProcess| s.identity)
}

/// `samples` holds one record for each running process of `selected`, by
/// growing pid, taken with the monitor in state `state`.
pub open spec fn is_pass(
    state: MonitorView,
    table: Map<u32, ProcessInfo>,
    selected: Set<u32>,
    clock: Clock,
    samples: Seq<SampledProcess>,
) -> bool {
    &&& increasing(pids_of(samples))
    &&& lists(pids_of(samples), table.dom().intersect(selected))
    &&& forall|i: int|
        0 <= i < samples.len() ==> state.records(
            #[trigger] samples[i],
            samples[i].identity.pid,
            table[samples[i].identity.pid],
            clock,
        )
}

/// `list` shows every process of the table once, in the alphabetical order of
/// their names. Which of two processes of the same name comes first is open.
pub open spec fn is_discovery(table: Map<u32, ProcessInfo>, list: Seq<ProcessIdentity>) -> bool {
    &&& lists(list.map_values(|id: ProcessIdentity| id.pid), table.dom())
    &&& forall|i: int|
        0 <= i < list.len() ==> #[trigger] list[i] == table[list[i].pid].identity_at(list[i].pid)
    &&& forall|i: int, j: int|
        0 <= i < j < list.len() ==> chars_le(
            lower(#[trigger] list[i].name@),
            lower(#[trigger] list[j].name@),
        )
}

/// The main process monitor.
///
/// The monitor is not thread-safe; it is meant to be driven from the UI
/// thread (or a dedicated sampling thread) via repeated calls to
/// [`ProcessMonitor::sample`].
pub struct ProcessMonitor {
    config: MonitorConfig,
    started_at: Option<u128>,
    previous_io: HashMap<u32, Baseline>,
    running: bool,
}

impl View for ProcessMonitor {
    type V = MonitorView;

    closed spec fn view(&self) -> MonitorView {
        MonitorView {
            config: self.config,
            started_at: self.started_at,
            previous_io: self.previous_io@,
            running: self.running,
        }
    }
}

impl ProcessMonitor {
    pub fn new(config: MonitorConfig) -> (r: Self)
        ensures
            r@ == (MonitorView {
                config,
                started_at: None,
                previous_io: Map::empty(),
                running: false,
            }),
    {
        ProcessMonitor { config, started_at: None, previous_io: HashMap::new(), running: false }
    }

    pub fn config(&self) -> (r: &MonitorConfig)
        ensures
            *r == self@.config,
    {
        &self.config
    }

    pub fn set_config(&mut self, config: MonitorConfig)
        ensures
            final(self)@ == (MonitorView { config, ..old(self)@ }),
    {
        self.config = config;
    }

    pub fn is_running(&self) -> (r: bool)
        ensures
            r == self@.running,
    {
        self.running
    }

    /// Mark the monitor as started, resetting the time origin.
    pub fn start(&mut self, now_ns: u128)
        ensures
            final(self)@ == (MonitorView {
                started_at: Some(now_ns),
                previous_io: Map::empty(),
                running: true,
                ..old(self)@
            }),
    {
        self.started_at = Some(now_ns);
        self.previous_io.clear();
        self.running = true;
    }

    /// Mark the monitor as stopped. History is preserved by the caller.
    pub fn stop(&mut self)
        ensures
            final(self)@ == (MonitorView { running: false, ..old(self)@ }),
    {
        self.running = false;
    }

    /// Return the list of every process of the table, suitable for the
    /// discovery/checkbox UI. The list is sorted by process name for stable
    /// presentation.
    pub fn discover(&self, table: &ProcessTable) -> (list: Vec<ProcessIdentity>)
        ensures
            is_discovery(table@, list@),
    {
        let pids: Vec<u32> = keys_of(table);
        let mut keys: Vec<NameKey> = Vec::new();
        let mut i: usize = 0;
        while i < pids.len()
            invariant
                lists(pids@, table@.dom()),
                i <= pids@.len(),
                keys@.len() == i,
                forall|k: int|
                    0 <= k < i ==> (#[trigger] keys@[k])@ == lower(table@[pids@[k]].name@),
            decreases pids@.len() - i,
        {
            assert(pids@.contains(pids@[i as int]));
            if let Some(info) = table.get(&pids[i]) {
                keys.push(NameKey::new(info.name.as_str()));
            }
            i = i + 1;
        }
        let order: Vec<usize> = stable_order(&keys);
        let ghost places = as_ints(order@);
        proof {
            lemma_order_covers(views(keys@), places);
        }
        let mut list: Vec<ProcessIdentity> = Vec::new();
        let mut j: usize = 0;
        while j < order.len()
            invariant
                lists(pids@, table@.dom()),
                places == as_ints(order@),
                places.len() == pids@.len(),
                forall|k: int| 0 <= k < places.len() ==> 0 <= #[trigger] places[k] < pids@.len(),
                j <= order@.len(),
                list@.len() == j,
                forall|k: int|
                    0 <= k < j ==> #[trigger] list@[k] == table@[pids@[places[k]]].identity_at(
                        pids@[places[k]],
                    ),
            decreases order@.len() - j,
        {
            assert(places[j as int] == order@[j as int]);
            let pid: u32 = pids[order[j]];
            assert(pids@.contains(pid));
            if let Some(info) = table.get(&pid) {
                list.push(info.identity(pid));
            }
            j = j + 1;
        }
        proof {
            let shown = list@.map_values(|id: ProcessIdentity| id.pid);
            assert forall|a: int, b: int|
                0 <= a < shown.len() && 0 <= b < shown.len() && a != b implies shown[a]
                != shown[b] by {
                assert(places[a] != places[b]);
                assert(shown[a] == pids@[places[a]] && shown[b] == pids@[places[b]]);
            }
            assert forall|p: u32| shown.contains(p) <==> table@.dom().contains(p) by {
                if shown.contains(p) {
                    let k = choose|k: int| 0 <= k < shown.len() && shown[k] == p;
                    assert(shown[k] == pids@[places[k]]);
                    assert(pids@.contains(p));
                }
                if table@.dom().contains(p) {
                    assert(pids@.contains(p));
                    let q = choose|q: int| 0 <= q < pids@.len() && pids@[q] == p;
                    assert(places.contains(q));
                    let k = choose|k: int| 0 <= k < places.len() && places[k] == q;
                    assert(shown[k] == p);
                }
            }
            assert forall|a: int, b: int| 0 <= a < b < list@.len() implies chars_le(
                lower(#[trigger] list@[a].name@),
                lower(#[trigger] list@[b].name@),
            ) by {
                assert(comes_before(views(keys@), places[a], places[b]));
                assert(views(keys@)[places[a]] == lower(list@[a].name@));
                assert(views(keys@)[places[b]] == lower(list@[b].name@));
            }
        }
        list
    }

    /// Record the selected processes.
    pub fn record(
        &mut self,
        table: &ProcessTable,
        selected: &HashSet<u32>,
        clock: Clock,
    ) -> (samples: Vec<SampledProcess>)
        ensures
            is_pass(old(self)@, table@, selected@, clock, samples@),
            final(self)@ == old(self)@.after_pass(table@, selected@, clock),
    {
        let ghost state = self@;
        let elapsed_ns: u128 = match self.started_at {
            Some(t0) => clock.now_ns.saturating_sub(t0),
            None => 0,
        };
        let pids: Vec<u32> = sorted_members(selected);
        let mut counters: HashMap<u32, Baseline> = HashMap::new();
        let mut samples: Vec<SampledProcess> = Vec::new();
        let mut i: usize = 0;
        while i < pids.len()
            invariant
                state == self@,
                elapsed_ns == state.elapsed(clock.now_ns),
                lists(pids@, selected@),
                increasing(pids@),
                i <= pids@.len(),
                forall|p: u32|
                    counters@.contains_key(p) <==> (table@.contains_key(p) && pids@.take(
                        i as int,
                    ).contains(p)),
                forall|p: u32|
                    counters@.contains_key(p) ==> #[trigger] counters@[p]
                        == table@[p].baseline_at(p, clock.now_ns),
                forall|p: u32|
                    pids_of(samples@).contains(p) <==> counters@.contains_key(p),
                increasing(pids_of(samples@)),
                forall|k: int|
                    0 <= k < samples@.len() ==> state.records(
                        #[trigger] samples@[k],
                        samples@[k].identity.pid,
                        table@[samples@[k].identity.pid],
                        clock,
                    ),
            decreases pids@.len() - i,
        {
            let pid: u32 = pids[i];
            let ghost samples_before = samples@;
            let ghost counters_before = counters@;
            if let Some(info) = table.get(&pid) {
                let now: IoCounters = IoCounters {
                    disk_read_bytes: info.disk_read_bytes,
                    disk_written_bytes: info.disk_written_bytes,
                    at_ns: clock.now_ns,
                };
                let identity: ProcessIdentity = info.identity(pid);
                let previous: Option<IoCounters> = match self.previous_io.get(&pid) {
                    Some(before) => if before.identity.is_same_process(&identity) {
                        Some(before.counters)
                    } else {
                        None
                    },
                    None => None,
                };
                let sample: MetricSample = MetricSample {
                    elapsed_ns,
                    wall_clock_ms: clock.wall_clock_ms,
                    cpu_percent_bits: info.cpu_percent_bits,
                    memory_bytes: info.memory_bytes,
                    disk: rate_between(previous, now),
                    // Per-process network counters are not available
                    // everywhere: zero is reported rather than a made-up
                    // number.
                    net: Rate::zero(),
                };
                counters.insert(pid, Baseline { identity: identity.clone(), counters: now });
                samples.push(SampledProcess { identity, sample, cmdline: info.cmdline() });
            }
            proof {
                let done = pids@.take(i as int);
                let now = pids@.take(i + 1);
                assert forall|p: u32| now.contains(p) <==> (done.contains(p) || p == pid) by {
                    if done.contains(p) {
                        let k = choose|k: int| 0 <= k < done.len() && done[k] == p;
                        assert(now[k] == p);
                    }
                    if p == pid {
                        assert(now[done.len() as int] == p);
                    }
                    if now.contains(p) && p != pid {
                        let k = choose|k: int| 0 <= k < now.len() && now[k] == p;
                        assert(done[k] == p);
                    }
                }
                let shown_before = pids_of(samples_before);
                let shown = pids_of(samples@);
                if table@.contains_key(pid) {
                    assert(shown =~= shown_before.push(pid));
                    assert forall|p: u32|
                        shown.contains(p) <==> (shown_before.contains(p) || p == pid) by {
                        if shown_before.contains(p) {
                            let k = choose|k: int|
                                0 <= k < shown_before.len() && shown_before[k] == p;
                            assert(shown[k] == p);
                        }
                        if p == pid {
                            assert(shown[shown_before.len() as int] == p);
                        }
                    }
                    assert forall|a: int, b: int|
                        0 <= a < b < shown.len() implies shown[a] < shown[b] by {
                        if b == shown_before.len() {
                            assert(shown_before.contains(shown_before[a]));
                            assert(counters_before.contains_key(shown[a]));
                            assert(done.contains(shown[a]));
                            let k = choose|k: int| 0 <= k < done.len() && done[k] == shown[a];
                            assert(pids@[k] < pids@[i as int]);
                        } else {
                            assert(shown_before[a] < shown_before[b]);
                        }
                    }
                }
            }
            i = i + 1;
        }
        self.previous_io = counters;
        proof {
            assert(pids@.take(i as int) =~= pids@);
            let shown = pids_of(samples@);
            assert forall|p: u32|
                shown.contains(p) <==> table@.dom().intersect(selected@).contains(p) by {
                assert(pids@.contains(p) <==> selected@.contains(p));
            }
            assert(self@.previous_io =~= state.after_pass(table@, selected@, clock).previous_io);
        }
        samples
    }

    /// Take a sampling pass.
    ///
    /// `filters` selects which processes to sample.
    /// `explicit_pids` adds processes selected manually via the checkbox UI.
    ///
    /// When a filter requests child inclusion, or `include_children_for_explicit`
    /// is true, the transitive descendant set of every matched process is also
    /// included.
    pub fn sample(
        &mut self,
        table: &ProcessTable,
        clock: Clock,
        filters: &FilterSet,
        explicit_pids: &HashSet<u32>,
        include_children_for_explicit: bool,
    ) -> (samples: Vec<SampledProcess>)
        ensures
            ({
                let selected = selection(
                    table@,
                    matched_by(table@, *filters),
                    explicit_pids@,
                    filters.follows_children() || include_children_for_explicit,
                );
                &&& is_pass(old(self)@, table@, selected, clock, samples@)
                &&& final(self)@ == old(self)@.after_pass(table@, selected, clock)
            }),
    {
        let matched: HashSet<u32> = matched_pids(table, filters);
        let follow: bool = filters.wants_children() || include_children_for_explicit;
        let selected: HashSet<u32> = select(table, &matched, explicit_pids, follow);
        self.record(table, &selected, clock)
    }
}

// ---- what holds of selections and passes -----------------------------------

/// Only processes that run are selected: a ticked pid that no process has is
/// passed over.
pub proof fn selected_processes_run(
    table: Map<u32, ProcessInfo>,
    matched: Set<u32>,
    explicit: Set<u32>,
    follow_children: bool,
    pid: u32,
)
    requires
        selection(table, matched, explicit, follow_children).contains(pid),
    ensures
        table.contains_key(pid),
{
    if follow_children {
        let seeds = table.dom().intersect(matched.union(explicit));
        lemma_closed_set_holds_descendants(table, seeds, table.dom(), pid);
    }
}

/// A running process that was matched or ticked is selected, whether children
/// are followed or not.
pub proof fn wanted_processes_are_selected(
    table: Map<u32, ProcessInfo>,
    matched: Set<u32>,
    explicit: Set<u32>,
    follow_children: bool,
    pid: u32,
)
    requires
        table.contains_key(pid),
        matched.contains(pid) || explicit.contains(pid),
    ensures
        selection(table, matched, explicit, follow_children).contains(pid),
{
    let seeds = table.dom().intersect(matched.union(explicit));
    lemma_seed_descends(table, seeds, pid);
}

/// Where children are followed, the children of a selected process are
/// selected too, at any depth.
pub proof fn children_follow_their_parent(
    table: Map<u32, ProcessInfo>,
    matched: Set<u32>,
    explicit: Set<u32>,
    parent: u32,
    child: u32,
)
    requires
        selection(table, matched, explicit, true).contains(parent),
        is_child(table, parent, child),
    ensures
        selection(table, matched, explicit, true).contains(child),
{
    let seeds = table.dom().intersect(matched.union(explicit));
    lemma_child_descends(table, seeds, parent, child);
}

/// Nothing else is selected: every set that holds the wanted processes that
/// run, and the children of its members, holds the selection.
pub proof fn selection_is_the_least_closed_set(
    table: Map<u32, ProcessInfo>,
    matched: Set<u32>,
    explicit: Set<u32>,
    follow_children: bool,
    set: Set<u32>,
)
    requires
        table.dom().intersect(matched.union(explicit)).subset_of(set),
        forall|p: u32, c: u32|
            set.contains(p) && #[trigger] is_child(table, p, c) ==> set.contains(c),
    ensures
        selection(table, matched, explicit, follow_children).subset_of(set),
{
    let seeds = table.dom().intersect(matched.union(explicit));
    assert forall|pid: u32| selection(table, matched, explicit, follow_children).contains(
        pid,
    ) implies set.contains(pid) by {
        if follow_children {
            lemma_closed_set_holds_descendants(table, seeds, set, pid);
        }
    }
}

/// With no process matched and none ticked, none is selected.
pub proof fn nothing_wanted_selects_nothing(
    table: Map<u32, ProcessInfo>,
    follow_children: bool,
)
    ensures
        selection(table, Set::empty(), Set::empty(), follow_children) == Set::<u32>::empty(),
{
    let nobody = Set::<u32>::empty();
    selection_is_the_least_closed_set(table, nobody, nobody, follow_children, nobody);
    assert(selection(table, nobody, nobody, follow_children) =~= nobody);
}

/// Following children only ever adds processes.
pub proof fn following_children_adds(
    table: Map<u32, ProcessInfo>,
    matched: Set<u32>,
    explicit: Set<u32>,
)
    ensures
        selection(table, matched, explicit, false).subset_of(
            selection(table, matched, explicit, true),
        ),
{
    assert forall|pid: u32| selection(table, matched, explicit, false).contains(pid) implies selection(
        table,
        matched,
        explicit,
        true,
    ).contains(pid) by {
        wanted_processes_are_selected(table, matched, explicit, true, pid);
    }
}

/// The first sample of a process cannot have a rate, so it shows none; nor
/// does one whose pid was another process's before.
pub proof fn first_sample_shows_no_flow(
    state: MonitorView,
    pid: u32,
    info: ProcessInfo,
    clock: Clock,
)
    requires
        !(state.previous_io.contains_key(pid) && same_process(
            state.previous_io[pid].identity,
            info.identity_at(pid),
        )),
    ensures
        state.sample_of(pid, info, clock).disk == no_flow(),
{
}

/// Samples of a monitor that was never started show no time.
pub proof fn unstarted_monitor_shows_no_time(
    state: MonitorView,
    pid: u32,
    info: ProcessInfo,
    clock: Clock,
)
    requires
        state.started_at is None,
    ensures
        state.sample_of(pid, info, clock).elapsed_ns == 0,
{
}

/// Between two passes that both sample a process, its disk rate is what the
/// counters grew by over the time that passed, a microsecond at least.
pub proof fn rate_is_growth_over_time(
    state: MonitorView,
    table: Map<u32, ProcessInfo>,
    selected: Set<u32>,
    clock: Clock,
    pid: u32,
    later: ProcessInfo,
    later_clock: Clock,
)
    requires
        table.contains_key(pid),
        selected.contains(pid),
        same_process(table[pid].identity_at(pid), later.identity_at(pid)),
    ensures
        ({
            let rate = state.after_pass(table, selected, clock).sample_of(
                pid,
                later,
                later_clock,
            ).disk;
            &&& rate.bytes == monus(
                later.disk_read_bytes as int,
                table[pid].disk_read_bytes as int,
            ) + monus(later.disk_written_bytes as int, table[pid].disk_written_bytes as int)
            &&& later_clock.now_ns - clock.now_ns >= 1000 ==> rate.over_ns == later_clock.now_ns
                - clock.now_ns
            &&& later_clock.now_ns - clock.now_ns < 1000 ==> rate.over_ns == 1000
        }),
{
}

/// A process that takes over the pid of a sampled one is not measured against
/// the counters of that one: it shows no flow at first.
pub proof fn recycled_pid_shows_no_flow(
    state: MonitorView,
    table: Map<u32, ProcessInfo>,
    selected: Set<u32>,
    clock: Clock,
    pid: u32,
    later: ProcessInfo,
    later_clock: Clock,
)
    requires
        !same_process(table[pid].identity_at(pid), later.identity_at(pid)),
    ensures
        state.after_pass(table, selected, clock).sample_of(pid, later, later_clock).disk
            == no_flow(),
{
}

/// A process that a pass did not sample is forgotten: when it is sampled
/// again it shows no flow, as at first. What the monitor remembers never
/// outgrows the processes that run.
pub proof fn unsampled_processes_are_forgotten(
    state: MonitorView,
    table: Map<u32, ProcessInfo>,
    selected: Set<u32>,
    clock: Clock,
    pid: u32,
    later: ProcessInfo,
    later_clock: Clock,
)
    requires
        !(table.contains_key(pid) && selected.contains(pid)),
    ensures
        state.after_pass(table, selected, clock).sample_of(pid, later, later_clock).disk
            == no_flow(),
        state.after_pass(table, selected, clock).previous_io.dom().subset_of(table.dom()),
{
}

/// The time shown does not go back within a session.
pub proof fn elapsed_time_grows(
    state: MonitorView,
    table: Map<u32, ProcessInfo>,
    selected: Set<u32>,
    clock: Clock,
    later_clock: Clock,
)
    requires
        clock.now_ns <= later_clock.now_ns,
    ensures
        state.elapsed(clock.now_ns) <= state.after_pass(table, selected, clock).elapsed(
            later_clock.now_ns,
        ),
{
}

/// A pass is fixed by the state of the monitor, the table, the selection and
/// the time: two of them record the same of the same processes, in the same
/// order.
pub proof fn passes_agree(
    state: MonitorView,
    table: Map<u32, ProcessInfo>,
    selected: Set<u32>,
    clock: Clock,
    a: Seq<SampledProcess>,
    b: Seq<SampledProcess>,
)
    requires
        is_pass(state, table, selected, clock, a),
        is_pass(state, table, selected, clock, b),
    ensures
        a.len() == b.len(),
        forall|i: int|
            0 <= i < a.len() ==> {
                &&& (#[trigger] a[i]).identity == b[i].identity
                &&& a[i].sample == b[i].sample
                &&& a[i].cmdline@ == b[i].cmdline@
            },
{
    lemma_increasing_lists_agree(pids_of(a), pids_of(b));
    assert forall|i: int| 0 <= i < a.len() implies {
        &&& (#[trigger] a[i]).identity == b[i].identity
        &&& a[i].sample == b[i].sample
        &&& a[i].cmdline@ == b[i].cmdline@
    } by {
        assert(pids_of(a)[i] == pids_of(b)[i]);
        let pid = a[i].identity.pid;
        assert(state.records(a[i], pid, table[pid], clock));
        assert(state.records(b[i], pid, table[pid], clock));
    }
}

/// Every process that is selected and runs is recorded, and no other.
pub proof fn passes_record_the_selection(
    state: MonitorView,
    table: Map<u32, ProcessInfo>,
    matched: Set<u32>,
    explicit: Set<u32>,
    follow_children: bool,
    clock: Clock,
    samples: Seq<SampledProcess>,
    pid: u32,
)
    requires
        is_pass(
            state,
            table,
            selection(table, matched, explicit, follow_children),
            clock,
            samples,
        ),
    ensures
        pids_of(samples).contains(pid) <==> selection(
            table,
            matched,
            explicit,
            follow_children,
        ).contains(pid),
{
    if selection(table, matched, explicit, follow_children).contains(pid) {
        selected_processes_run(table, matched, explicit, follow_children, pid);
    }
}

/// What is recorded of a process is what the table and the clock say: the
/// memory and the CPU figure of the table, the wall clock of the pass, the time
/// since the session began, and the identity and the command line of the
/// table. No network counters are available, so that rate is zero.
pub proof fn samples_show_the_table(
    state: MonitorView,
    table: Map<u32, ProcessInfo>,
    selected: Set<u32>,
    clock: Clock,
    samples: Seq<SampledProcess>,
    i: int,
)
    requires
        is_pass(state, table, selected, clock, samples),
        0 <= i < samples.len(),
    ensures
        ({
            let pid = samples[i].identity.pid;
            let s = samples[i].sample;
            &&& table.contains_key(pid) && selected.contains(pid)
            &&& samples[i].identity.name@ == table[pid].name@
            &&& samples[i].identity.start_time == table[pid].start_time
            &&& samples[i].identity.parent_pid == table[pid].parent
            &&& samples[i].cmdline@ == joined(table[pid].cmd@)
            &&& s.memory_bytes == table[pid].memory_bytes
            &&& s.cpu_percent_bits == table[pid].cpu_percent_bits
            &&& s.wall_clock_ms == clock.wall_clock_ms
            &&& state.started_at is None ==> s.elapsed_ns == 0
            &&& state.started_at is Some && clock.now_ns >= state.started_at->0 ==> s.elapsed_ns
                == clock.now_ns - state.started_at->0
            &&& state.started_at is Some && clock.now_ns < state.started_at->0 ==> s.elapsed_ns == 0
            &&& s.net.bytes == 0
            &&& s.net.over_ns > 0
        }),
{
    let pid = samples[i].identity.pid;
    assert(pids_of(samples)[i] == pid);
    assert(pids_of(samples).contains(pid));
    assert(state.records(samples[i], pid, table[pid], clock));
}

/// A pass records every selected process that runs, and no other, by growing
/// pid.
pub proof fn pass_takes_each_process_once(
    state: MonitorView,
    table: Map<u32, ProcessInfo>,
    selected: Set<u32>,
    clock: Clock,
    samples: Seq<SampledProcess>,
    pid: u32,
)
    requires
        is_pass(state, table, selected, clock, samples),
    ensures
        (exists|i: int| 0 <= i < samples.len() && (#[trigger] samples[i]).identity.pid == pid) <==> (
        table.contains_key(pid) && selected.contains(pid)),
        forall|i: int, j: int|
            0 <= i < j < samples.len() ==> (#[trigger] samples[i]).identity.pid < (
            #[trigger] samples[j]).identity.pid,
{
    let listed = pids_of(samples);
    assert(listed.contains(pid) <==> table.dom().intersect(selected).contains(pid));
    if listed.contains(pid) {
        let i = choose|i: int| 0 <= i < listed.len() && listed[i] == pid;
        assert(samples[i].identity.pid == pid);
    }
    if exists|i: int| 0 <= i < samples.len() && (#[trigger] samples[i]).identity.pid == pid {
        let i = choose|i: int| 0 <= i < samples.len() && (#[trigger] samples[i]).identity.pid == pid;
        assert(listed[i] == pid);
    }
    assert forall|i: int, j: int| 0 <= i < j < samples.len() implies (
    #[trigger] samples[i]).identity.pid < (#[trigger] samples[j]).identity.pid by {
        assert(listed[i] < listed[j]);
    }
}

/// The disk figures of a sample: where the counters of this very process were
/// read before, what they grew by since, and the time since, a microsecond at
/// least; a counter that fell counts as no growth. Else nothing.
pub proof fn disk_figures_go_by_the_counters(
    state: MonitorView,
    table: Map<u32, ProcessInfo>,
    selected: Set<u32>,
    clock: Clock,
    samples: Seq<SampledProcess>,
    i: int,
)
    requires
        is_pass(state, table, selected, clock, samples),
        0 <= i < samples.len(),
    ensures
        ({
            let pid = samples[i].identity.pid;
            let disk = samples[i].sample.disk;
            let was = state.previous_io[pid];
            let known = state.previous_io.contains_key(pid) && was.identity.pid == pid
                && was.identity.name@ == table[pid].name@ && was.identity.start_time
                == table[pid].start_time;
            let read = table[pid].disk_read_bytes - was.counters.disk_read_bytes;
            let written = table[pid].disk_written_bytes - was.counters.disk_written_bytes;
            let span = clock.now_ns - was.counters.at_ns;
            &&& !known ==> disk.bytes == 0 && disk.over_ns > 0
            &&& known ==> disk.bytes == (if read > 0 { read } else { 0 }) + (if written > 0 {
                written
            } else {
                0
            })
            &&& known ==> disk.over_ns == (if span > 1000 { span } else { 1000 })
        }),
{
    let pid = samples[i].identity.pid;
    assert(state.records(samples[i], pid, table[pid], clock));
}

/// Two passes in a row that both take a process: the second one shows what its
/// counters grew by between the two tables, over the time between the two
/// clocks.
pub proof fn passes_in_a_row_measure_growth(
    state: MonitorView,
    table: Map<u32, ProcessInfo>,
    selected: Set<u32>,
    clock: Clock,
    later_table: Map<u32, ProcessInfo>,
    later_selected: Set<u32>,
    later_clock: Clock,
    samples: Seq<SampledProcess>,
    i: int,
)
    requires
        is_pass(
            state.after_pass(table, selected, clock),
            later_table,
            later_selected,
            later_clock,
            samples,
        ),
        0 <= i < samples.len(),
        table.contains_key(samples[i].identity.pid),
        selected.contains(samples[i].identity.pid),
        table[samples[i].identity.pid].name@ == later_table[samples[i].identity.pid].name@,
        table[samples[i].identity.pid].start_time
            == later_table[samples[i].identity.pid].start_time,
        table[samples[i].identity.pid].disk_read_bytes
            <= later_table[samples[i].identity.pid].disk_read_bytes,
        table[samples[i].identity.pid].disk_written_bytes
            <= later_table[samples[i].identity.pid].disk_written_bytes,
        clock.now_ns + 1000 <= later_clock.now_ns,
    ensures
        ({
            let pid = samples[i].identity.pid;
            let disk = samples[i].sample.disk;
            &&& disk.bytes == later_table[pid].disk_read_bytes - table[pid].disk_read_bytes
                + later_table[pid].disk_written_bytes - table[pid].disk_written_bytes
            &&& disk.over_ns == later_clock.now_ns - clock.now_ns
        }),
{
    disk_figures_go_by_the_counters(
        state.after_pass(table, selected, clock),
        later_table,
        later_selected,
        later_clock,
        samples,
        i,
    );
}

/// After a pass the monitor knows the counters of the processes that it took,
/// as the table gives them, and of no others; the session goes on as before.
pub proof fn pass_remembers_the_counters(
    state: MonitorView,
    table: Map<u32, ProcessInfo>,
    selected: Set<u32>,
    clock: Clock,
    pid: u32,
)
    ensures
        ({
            let after = state.after_pass(table, selected, clock);
            &&& after.config == state.config
            &&& after.started_at == state.started_at
            &&& after.running == state.running
            &&& after.previous_io.contains_key(pid) <==> table.contains_key(pid)
                && selected.contains(pid)
            &&& after.previous_io.contains_key(pid) ==> {
                let known = after.previous_io[pid];
                &&& known.identity.pid == pid
                &&& known.identity.name@ == table[pid].name@
                &&& known.identity.start_time == table[pid].start_time
                &&& known.counters.disk_read_bytes == table[pid].disk_read_bytes
                &&& known.counters.disk_written_bytes == table[pid].disk_written_bytes
                &&& known.counters.at_ns == clock.now_ns
            }
        }),
{
}

/// The rate between two readings of the counters: what they grew by, over the
/// time between, a microsecond at least; nothing without an earlier reading.
pub proof fn rates_are_growth(previous: Option<IoCounters>, now: IoCounters)
    ensures
        previous is None ==> disk_rate(previous, now).bytes == 0,
        disk_rate(previous, now).over_ns > 0,
        previous is Some ==> ({
            let was = previous->0;
            let rate = disk_rate(previous, now);
            let read = now.disk_read_bytes - was.disk_read_bytes;
            let written = now.disk_written_bytes - was.disk_written_bytes;
            let span = now.at_ns - was.at_ns;
            &&& rate.bytes == (if read > 0 { read } else { 0 }) + (if written > 0 {
                written
            } else {
                0
            })
            &&& rate.over_ns == (if span > 1000 { span } else { 1000 })
        }),
{
}

/// Where children are not followed, the selection is the running processes
/// that were matched or ticked.
pub proof fn selection_without_children(
    table: Map<u32, ProcessInfo>,
    matched: Set<u32>,
    explicit: Set<u32>,
    pid: u32,
)
    ensures
        selection(table, matched, explicit, false).contains(pid) <==> table.contains_key(pid) && (
        matched.contains(pid) || explicit.contains(pid)),
{
}

/// Where children are followed, a selected process brings in every running
/// process whose parent it is.
pub proof fn selection_goes_down_the_tree(
    table: Map<u32, ProcessInfo>,
    matched: Set<u32>,
    explicit: Set<u32>,
    parent: u32,
    child: u32,
)
    requires
        selection(table, matched, explicit, true).contains(parent),
        table.contains_key(child),
        table[child].parent == Some(parent),
    ensures
        selection(table, matched, explicit, true).contains(child),
{
    assert(is_child(table, parent, child));
    children_follow_their_parent(table, matched, explicit, parent, child);
}

/// Where children are followed, every selected process was matched or ticked
/// itself, or its parent is selected.
pub proof fn selected_processes_have_a_reason(
    table: Map<u32, ProcessInfo>,
    matched: Set<u32>,
    explicit: Set<u32>,
    pid: u32,
)
    requires
        selection(table, matched, explicit, true).contains(pid),
    ensures
        table.contains_key(pid),
        matched.contains(pid) || explicit.contains(pid) || (table[pid].parent is Some
            && selection(table, matched, explicit, true).contains(table[pid].parent->0)),
{
    selected_processes_run(table, matched, explicit, true, pid);
    let seeds = table.dom().intersect(matched.union(explicit));
    let path = choose|path: Seq<u32>|
        {
            &&& path.len() > 0
            &&& #[trigger] is_lineage(table, path)
            &&& seeds.contains(path[0])
            &&& path.last() == pid
        };
    if path.len() > 1 {
        let shorter = path.drop_last();
        let n = path.len() - 2;
        assert(is_child(table, path[n], path[n + 1]));
        assert forall|i: int| 0 <= i && i + 1 < shorter.len() implies is_child(
            table,
            #[trigger] shorter[i],
            shorter[i + 1],
        ) by {
            assert(is_child(table, path[i], path[i + 1]));
        }
        assert(is_lineage(table, shorter));
        assert(shorter[0] == path[0]);
        assert(descends_from(table, seeds, shorter.last()));
    }
}

/// Nothing comes into a selection but down from the wanted processes: a set
/// that holds them, and every running process whose parent it holds, holds the
/// selection.
pub proof fn selection_holds_no_more(
    table: Map<u32, ProcessInfo>,
    matched: Set<u32>,
    explicit: Set<u32>,
    set: Set<u32>,
    pid: u32,
)
    requires
        forall|p: u32|
            table.contains_key(p) && (matched.contains(p) || explicit.contains(p))
                ==> #[trigger] set.contains(p),
        forall|c: u32|
            table.contains_key(c) && table[c].parent is Some && set.contains(table[c].parent->0)
                ==> #[trigger] set.contains(c),
        selection(table, matched, explicit, true).contains(pid),
    ensures
        set.contains(pid),
{
    assert forall|p: u32, c: u32| set.contains(p) && #[trigger] is_child(table, p, c) implies set.contains(
        c,
    ) by {}
    selection_is_the_least_closed_set(table, matched, explicit, true, set);
}

/// The processes that a set of filters matches: those that run and whose name
/// or command line it accepts.
pub proof fn filters_match_running_processes(
    table: Map<u32, ProcessInfo>,
    filters: FilterSet,
    pid: u32,
)
    ensures
        matched_by(table, filters).contains(pid) <==> table.contains_key(pid) && filters.accepts(
            table[pid].name@,
            joined(table[pid].cmd@),
        ),
{
}

/// A command line is its words with one space between each two.
pub proof fn words_are_joined_by_spaces(words: Seq<String>, word: String)
    ensures
        joined(Seq::<String>::empty()) == Seq::<char>::empty(),
        joined(seq![word]) == word@,
        words.len() > 0 ==> joined(words.push(word)) == joined(words) + seq![' '] + word@,
{
    reveal_strlit(" ");
    assert(" "@ =~= seq![' ']);
    assert(words.push(word).drop_last() =~= words);
    assert(words.push(word).last() == word);
}

/// A discovery list has one entry for each running process, with its name,
/// start time and parent, and no other; no entry comes before one whose name is
/// smaller in the alphabet.
pub proof fn discovery_lists_every_process(
    table: Map<u32, ProcessInfo>,
    list: Seq<ProcessIdentity>,
    pid: u32,
)
    requires
        is_discovery(table, list),
    ensures
        table.contains_key(pid) <==> exists|i: int|
            0 <= i < list.len() && (#[trigger] list[i]).pid == pid,
        forall|i: int|
            0 <= i < list.len() ==> {
                let id = #[trigger] list[i];
                &&& id.name@ == table[id.pid].name@
                &&& id.start_time == table[id.pid].start_time
                &&& id.parent_pid == table[id.pid].parent
            },
        forall|i: int, j: int|
            0 <= i < j < list.len() ==> (#[trigger] list[i]).pid != (#[trigger] list[j]).pid
                && chars_le(lower(list[i].name@), lower(list[j].name@)),
{
    let pids = list.map_values(|id: ProcessIdentity| id.pid);
    assert(pids.contains(pid) <==> table.dom().contains(pid));
    if pids.contains(pid) {
        let i = choose|i: int| 0 <= i < pids.len() && pids[i] == pid;
        assert(list[i].pid == pid);
    }
    if exists|i: int| 0 <= i < list.len() && (#[trigger] list[i]).pid == pid {
        let i = choose|i: int| 0 <= i < list.len() && (#[trigger] list[i]).pid == pid;
        assert(pids[i] == pid);
    }
    assert forall|i: int, j: int| 0 <= i < j < list.len() implies (#[trigger] list[i]).pid != (
    #[trigger] list[j]).pid && chars_le(lower(list[i].name@), lower(list[j].name@)) by {
        assert(pids[i] != pids[j]);
        assert(chars_le(lower(list[i].name@), lower(list[j].name@)));
    }
}

} // verus!
