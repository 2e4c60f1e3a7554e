//! The state of the application, and what its window shows of it.
//!
//! The app keeps these pieces of state:
//!
//! * `discovered`: the latest enumeration of running processes, shown as a
//!   searchable checkbox list.
//! * `selected_pids`: the set of pids the user has explicitly ticked.
//! * `filters`: user-authored regex filters.
//! * `histories`: per-process rolling metric histories that feed the plots.
//! * `ended`: the histories of processes whose pid was recycled since.
//! * `groups`: named bundles of pids so the user can plot a group as one
//!   aggregated line.
//!
//! The data pipeline (monitor, histories, plots, CSV) runs without a display:
//! process tables and clock readings come in as arguments.

use regex::Regex;
use std::collections::{HashMap, HashSet};
use vstd::prelude::*;
use vstd::string::*;

use crate::aggregate::{aggregate, is_aggregate, pace, samples_of, Bucket};
use crate::csv_export::{
    all_rows, distinct_histories, equal_rows_give_equal_bytes, is_export,
    order_behind_does_not_matter, renders_alike, sorted_rows, write_csv, ExportError,
};
use crate::metrics::{
    label_of, labelled, pushed, same_process, HistoryView, MetricKind, MetricSample, Number, Point,
    ProcessHistory, ProcessIdentity,
};
use crate::pids::{copy_of, keys_of, lemma_set_of_pushed, lists, members_of, set_of};
use crate::process_filter::{
    case_blind_regex, invalid_regex_text, regex_error_text, FilterError, FilterSet, ProcessFilter,
};
use crate::process_monitor::{
    identities_of, is_discovery, is_pass, matched_by, matched_pids, monus,
    passes_record_the_selection, pids_of, select, selected_processes_run, selection, Clock, MonitorConfig, MonitorView, ProcessInfo, ProcessMonitor, ProcessTable, SampledProcess,
};
use crate::text::{
    all_blank, chars_of, contains_chars, decimal, decimal_chars, decimal_string, has_substring,
    is_blank_text, lower, lower_chars, trim_chars, trimmed, trimmed_is_empty_iff_blank,
    trimming_ignores_case,
};
use crate::tree::{
    descent_ends, distinct_pids, distinct_pids_end_descent, flatten, lemma_positions, positions,
    process_forest,
};

verus! {

broadcast use vstd::std_specs::hash::group_hash_axioms;

/// A named bundle of PIDs whose metrics should be plotted as a single
/// aggregated series.
#[derive(Debug)]
pub struct ProcessGroup {
    pub name: String,
    pub members: HashSet<u32>,
    pub visible: bool,
}

impl Default for ProcessGroup {
    fn default() -> (r: Self)
        ensures
            r.name@ == Seq::<char>::empty(),
            r.members@ == Set::<u32>::empty(),
            !r.visible,
    {
        ProcessGroup { name: String::new(), members: HashSet::new(), visible: false }
    }
}

impl Clone for ProcessGroup {
    fn clone(&self) -> (r: Self)
        ensures
            r.name@ == self.name@,
            r.members@ == self.members@,
            r.visible == self.visible,
    {
        ProcessGroup {
            name: self.name.clone(),
            members: copy_of(&self.members),
            visible: self.visible,
        }
    }
}

/// What the plots should display.
#[derive(Debug, Clone, Copy, PartialEq, Eq, Structural)]
pub enum PlotView {
    /// One line per selected process.
    Individual,
    /// One aggregated line combining every selected process.
    Combined,
    /// One aggregated line per visible group.
    Grouped,
}

impl Default for PlotView {
    fn default() -> (r: Self)
        ensures
            r == PlotView::Individual,
    {
        PlotView::Individual
    }
}

/// Shared state for the zoio application.
pub struct AppState {
    pub monitor: ProcessMonitor,
    pub discovered: Vec<ProcessIdentity>,
    pub selected_pids: HashSet<u32>,
    pub filters: FilterSet,
    pub histories: HashMap<u32, ProcessHistory>,
    /// The histories of processes whose pid another process has taken over, in
    /// the order in which they ended.
    pub ended: Vec<ProcessHistory>,
    pub groups: Vec<ProcessGroup>,
    pub plot_view: PlotView,
    pub search_query: String,
    /// When the last sampling pass was taken, in nanoseconds.
    pub last_sample: Option<u128>,
    /// When the processes were last listed, in nanoseconds.
    pub last_discover: Option<u128>,
    pub status: String,
    pub include_children_for_selection: bool,
    pub pending_filter_pattern: String,
    pub pending_group_name: String,
    pub tree_view: bool,
}

// ---- histories -------------------------------------------------------------

/// What the histories hold.
pub open spec fn history_views(histories: Map<u32, ProcessHistory>) -> Map<u32, HistoryView> {
    histories.map_values(|h: ProcessHistory| h@)
}

/// What has been captured in a session.
#[verifier::ext_equal]
pub struct Captured {
    /// The history of the process that has, or had last, each pid.
    pub live: Map<u32, HistoryView>,
    /// The histories of the processes that had those pids before.
    pub ended: Seq<HistoryView>,
}

/// The history under the pid is of the process with this identity.
pub open spec fn continues(live: Map<u32, HistoryView>, identity: ProcessIdentity) -> bool {
    live.contains_key(identity.pid) && same_process(live[identity.pid].identity, identity)
}

/// The histories once a sample has been recorded: it goes to the end of its
/// process's history, or begins one. A history that stood under the pid but is
/// of another process has ended.
pub open spec fn recorded_one(
    captured: Captured,
    capacity: nat,
    sampled: SampledProcess,
) -> Captured {
    let pid = sampled.identity.pid;
    if continues(captured.live, sampled.identity) {
        let h = captured.live[pid];
        Captured {
            live: captured.live.insert(
                pid,
                HistoryView { samples: pushed(h.samples, h.capacity, sampled.sample), ..h },
            ),
            ended: captured.ended,
        }
    } else {
        Captured {
            live: captured.live.insert(
                pid,
                HistoryView {
                    identity: sampled.identity,
                    samples: seq![sampled.sample],
                    capacity,
                },
            ),
            ended: if captured.live.contains_key(pid) {
                captured.ended.push(captured.live[pid])
            } else {
                captured.ended
            },
        }
    }
}

/// The histories once the samples of a pass have been recorded.
pub open spec fn recorded(
    captured: Captured,
    capacity: nat,
    samples: Seq<SampledProcess>,
) -> Captured
    decreases samples.len(),
{
    if samples.len() == 0 {
        captured
    } else {
        recorded_one(
            recorded(captured, capacity, samples.drop_last()),
            capacity,
            samples.last(),
        )
    }
}

/// Every history is within its capacity and stands under its own pid.
pub open spec fn histories_wf(histories: Map<u32, HistoryView>) -> bool {
    forall|pid: u32| #[trigger]
        histories.contains_key(pid) ==> histories[pid].wf() && histories[pid].identity.pid == pid
}

/// Every history, ended or not, is within its capacity, and every present one
/// stands under its own pid.
pub open spec fn captured_wf(captured: Captured) -> bool {
    &&& histories_wf(captured.live)
    &&& forall|i: int| 0 <= i < captured.ended.len() ==> (#[trigger] captured.ended[i]).wf()
}

/// Recording keeps every history within its capacity and under its own pid.
/// With no capacity for new histories, only processes that have one can be
/// recorded.
pub proof fn histories_stay_bounded(
    captured: Captured,
    capacity: nat,
    samples: Seq<SampledProcess>,
)
    requires
        histories_wf(captured.live),
        forall|k: int|
            0 <= k < samples.len() && capacity == 0 ==> continues(
                captured.live,
                (#[trigger] samples[k]).identity,
            ),
    ensures
        histories_wf(recorded(captured, capacity, samples).live),
        captured_wf(captured) ==> captured_wf(recorded(captured, capacity, samples)),
        capacity == 0 ==> same_owners(captured.live, recorded(captured, capacity, samples).live),
    decreases samples.len(),
{
    if samples.len() > 0 {
        let fewer = samples.drop_last();
        assert forall|k: int| 0 <= k < fewer.len() && capacity == 0 implies continues(
            captured.live,
            (#[trigger] fewer[k]).identity,
        ) by {
            assert(fewer[k] == samples[k]);
        }
        histories_stay_bounded(captured, capacity, fewer);
        let before = recorded(captured, capacity, fewer);
        let after = recorded(captured, capacity, samples);
        let id = samples.last().identity;
        if capacity == 0 {
            assert(continues(captured.live, samples[samples.len() - 1].identity));
            assert(before.live.contains_key(id.pid));
            assert(continues(before.live, id));
        }
        assert forall|p: u32| #[trigger] after.live.contains_key(p) implies after.live[p].wf()
            && after.live[p].identity.pid == p by {
            if p != id.pid {
                assert(before.live.contains_key(p));
            }
        }
        if captured_wf(captured) {
            assert forall|i: int| 0 <= i < after.ended.len() implies (
            #[trigger] after.ended[i]).wf() by {
                if i < before.ended.len() {
                    assert(before.ended[i].wf());
                }
            }
        }
    }
}

/// Every pid that has a history still has it, of the same identity.
pub open spec fn same_owners(
    before: Map<u32, HistoryView>,
    after: Map<u32, HistoryView>,
) -> bool {
    forall|pid: u32| #[trigger]
        before.contains_key(pid) ==> after.contains_key(pid) && after[pid].identity
            == before[pid].identity
}

/// The histories of the listed pids.
pub open spec fn histories_at<'a>(
    histories: Map<u32, ProcessHistory>,
    pids: Seq<u32>,
) -> Seq<&'a ProcessHistory> {
    Seq::new(pids.len(), |i: int| &histories[pids[i]])
}

/// All histories: those that ended, then those of the listed pids.
pub open spec fn all_histories<'a>(
    histories: Map<u32, ProcessHistory>,
    ended: Seq<ProcessHistory>,
    pids: Seq<u32>,
) -> Seq<&'a ProcessHistory> {
    Seq::new(ended.len(), |i: int| &ended[i]) + histories_at(histories, pids)
}

// ---- groups ----------------------------------------------------------------

pub open spec fn names_group(groups: Seq<ProcessGroup>, name: Seq<char>) -> bool {
    exists|i: int| 0 <= i < groups.len() && (#[trigger] groups[i]).name@ == name
}

/// No two groups have the same name.
pub open spec fn distinct_groups(groups: Seq<ProcessGroup>) -> bool {
    forall|i: int, j: int|
        0 <= i < j < groups.len() ==> (#[trigger] groups[i]).name@ != (#[trigger] groups[j]).name@
}

pub open spec fn without_group(groups: Seq<ProcessGroup>, name: Seq<char>) -> Seq<ProcessGroup> {
    groups.filter(|g: ProcessGroup| g.name@ != name)
}

/// Group names stay distinct when a group is removed.
pub proof fn group_names_stay_distinct(groups: Seq<ProcessGroup>, name: Seq<char>)
    ensures
        distinct_groups(groups) ==> distinct_groups(without_group(groups, name)),
        forall|i: int|
            0 <= i < without_group(groups, name).len() ==> names_group(
                groups,
                (#[trigger] without_group(groups, name)[i]).name@,
            ),
    decreases groups.len(),
{
    reveal(Seq::filter);
    if groups.len() > 0 {
        let fewer = groups.drop_last();
        let kept = without_group(fewer, name);
        let now = without_group(groups, name);
        group_names_stay_distinct(fewer, name);
        assert forall|i: int| 0 <= i < now.len() implies names_group(
            groups,
            (#[trigger] now[i]).name@,
        ) by {
            if i < kept.len() {
                assert(names_group(fewer, kept[i].name@));
                let k = choose|k: int|
                    0 <= k < fewer.len() && (#[trigger] fewer[k]).name@ == kept[i].name@;
                assert(groups[k].name@ == now[i].name@);
            } else {
                assert(groups[groups.len() - 1].name@ == now[i].name@);
            }
        }
        if distinct_groups(groups) {
            assert(distinct_groups(fewer)) by {
                assert forall|i: int, j: int| 0 <= i < j < fewer.len() implies (
                #[trigger] fewer[i]).name@ != (#[trigger] fewer[j]).name@ by {
                    assert(groups[i].name@ != groups[j].name@);
                }
            }
            assert forall|i: int, j: int| 0 <= i < j < now.len() implies (#[trigger] now[i]).name@
                != (#[trigger] now[j]).name@ by {
                if j < kept.len() {
                    assert(kept[i].name@ != kept[j].name@);
                } else {
                    assert(names_group(fewer, kept[i].name@));
                    let k = choose|k: int|
                        0 <= k < fewer.len() && (#[trigger] fewer[k]).name@ == kept[i].name@;
                    assert(groups[k].name@ != groups[groups.len() - 1].name@);
                }
            }
        }
    }
}

pub open spec fn group_exists_text(name: Seq<char>) -> Seq<char> {
    "group '"@ + name + "' already exists"@
}

// ---- the process list ------------------------------------------------------

/// The search text that a query stands for.
pub open spec fn needle(query: Seq<char>) -> Seq<char> {
    lower(trimmed(query))
}

/// The process is found by the query: in its name, whatever the letter case,
/// or in its pid. An empty query finds every process.
pub open spec fn is_found(id: ProcessIdentity, query: Seq<char>) -> bool {
    ||| needle(query).len() == 0
    ||| has_substring(lower(id.name@), needle(query))
    ||| has_substring(decimal(id.pid as nat), needle(query))
}

/// The places of the processes that the query finds.
pub open spec fn found(ids: Seq<ProcessIdentity>, query: Seq<char>) -> Seq<int> {
    positions(ids.len() as int, |i: int| is_found(ids[i], query))
}

/// The processes that the query finds, side by side.
pub open spec fn flat_rows(ids: Seq<ProcessIdentity>, query: Seq<char>) -> Seq<(nat, int)> {
    found(ids, query).map_values(|i: int| (0nat, i))
}

/// The rows of the tree view: the process forest or, where a query is active,
/// the processes that it finds, side by side.
pub open spec fn tree_rows(ids: Seq<ProcessIdentity>, query: Seq<char>) -> Seq<(nat, int)> {
    if needle(query).len() > 0 {
        flat_rows(ids, query)
    } else {
        process_forest(ids)
    }
}

/// `rows` are the processes at the given places, each with its depth.
pub open spec fn shows_rows(
    rows: Seq<(usize, &ProcessIdentity)>,
    ids: Seq<ProcessIdentity>,
    listing: Seq<(nat, int)>,
) -> bool {
    &&& rows.len() == listing.len()
    &&& forall|i: int|
        0 <= i < rows.len() ==> (#[trigger] rows[i]).0 == listing[i].0 && *rows[i].1
            == ids[listing[i].1]
}

// ---- requests of the user --------------------------------------------------

/// The answer to adding a filter whose pattern compiles to `outcome`: a blank
/// pattern and one that is no regex are refused, with nothing changed; any
/// other becomes the last filter.
pub open spec fn adds_filter(
    before: AppState,
    pattern: Seq<char>,
    outcome: Result<Regex, regex::Error>,
    after: AppState,
    r: Result<(), String>,
) -> bool {
    if all_blank(pattern) {
        &&& r is Err
        &&& r->Err_0@ == "pattern must not be empty"@
        &&& after == before
    } else {
        match outcome {
            Ok(regex) => {
                &&& r is Ok
                &&& after.filters.filters@ == before.filters.filters@.push(
                    after.filters.filters@.last(),
                )
                &&& after.filters.filters@.last().compiled.pattern() == pattern
                &&& after.filters.filters@.last().compiled.regex() == regex
                &&& after.filters.filters@.last().include_children
                &&& after.filters.filters@.last().enabled
                &&& after == (AppState { filters: after.filters, ..before })
            },
            Err(e) => {
                &&& r is Err
                &&& r->Err_0@ == invalid_regex_text(pattern, regex_error_text(e))
                &&& after == before
            },
        }
    }
}

/// The answer to grouping the ticked processes under a name: a blank name and
/// one that is taken are refused, with nothing changed; any other names the
/// last group.
pub open spec fn adds_group(
    before: AppState,
    name: Seq<char>,
    after: AppState,
    r: Result<(), String>,
) -> bool {
    if all_blank(name) {
        &&& r is Err
        &&& r->Err_0@ == "group name must not be empty"@
        &&& after == before
    } else if names_group(before.groups@, name) {
        &&& r is Err
        &&& r->Err_0@ == group_exists_text(name)
        &&& after == before
    } else {
        &&& r is Ok
        &&& after.groups@ == before.groups@.push(after.groups@.last())
        &&& after.groups@.last().name@ == name
        &&& after.groups@.last().members@ == before.selected_pids@
        &&& after.groups@.last().visible
        &&& after == (AppState { groups: after.groups, ..before })
    }
}

impl AppState {
    /// Every history is within its capacity and under its own pid, no two
    /// groups share a name, and every filter goes by its pattern.
    pub open spec fn wf(self) -> bool {
        &&& captured_wf(self.captured())
        &&& distinct_groups(self.groups@)
        &&& self.filters.wf()
    }

    /// What has been captured so far.
    pub open spec fn captured(self) -> Captured {
        Captured {
            live: history_views(self.histories@),
            ended: self.ended@.map_values(|h: ProcessHistory| h@),
        }
    }

    /// A sampling pass is due: monitoring runs, and the interval has gone by
    /// since the last pass, if there was one.
    pub open spec fn due(self, now_ns: u128) -> bool {
        &&& self.monitor@.running
        &&& match self.last_sample {
            Some(t) => monus(now_ns as int, t as int) >= self.monitor@.config.sample_interval_ns,
            None => true,
        }
    }

    /// The processes that a pass samples.
    pub open spec fn wanted(self, table: Map<u32, ProcessInfo>) -> Set<u32> {
        selection(
            table,
            matched_by(table, self.filters),
            self.selected_pids@,
            self.filters.follows_children() || self.include_children_for_selection,
        )
    }

    /// A sample of each of these processes can be recorded: a new history may
    /// hold something, or none is new.
    pub open spec fn has_room(self, identities: Seq<ProcessIdentity>) -> bool {
        self.monitor@.config.history_capacity > 0 || forall|i: int|
            0 <= i < identities.len() ==> continues(
                history_views(self.histories@),
                #[trigger] identities[i],
            )
    }

    /// A pass over the table can be recorded: a new history may hold something,
    /// or every process that is sampled has its history already.
    pub open spec fn has_room_for(self, table: Map<u32, ProcessInfo>) -> bool {
        self.monitor@.config.history_capacity > 0 || forall|pid: u32| #[trigger]
            self.wanted(table).contains(pid) ==> continues(
                history_views(self.histories@),
                table[pid].identity_at(pid),
            )
    }

    /// `after` is the state after a pass over the table at the given time, in
    /// which `n` processes were sampled.
    pub open spec fn ticked(
        self,
        after: AppState,
        table: Map<u32, ProcessInfo>,
        clock: Clock,
        n: nat,
    ) -> bool {
        &&& exists|samples: Seq<SampledProcess>|
            {
                &&& #[trigger] is_pass(self.monitor@, table, self.wanted(table), clock, samples)
                &&& n == samples.len()
                &&& after.captured() == recorded(
                    self.captured(),
                    self.monitor@.config.history_capacity as nat,
                    samples,
                )
            }
        &&& after.monitor@ == self.monitor@.after_pass(table, self.wanted(table), clock)
        &&& after.last_sample == Some(clock.now_ns)
        &&& after == (AppState {
            monitor: after.monitor,
            histories: after.histories,
            ended: after.ended,
            last_sample: after.last_sample,
            ..self
        })
    }

    pub fn new(config: MonitorConfig) -> (r: Self)
        ensures
            r.wf(),
            r.monitor@ == (MonitorView {
                config,
                started_at: None,
                previous_io: Map::empty(),
                running: false,
            }),
            r.discovered@ == Seq::<ProcessIdentity>::empty(),
            r.selected_pids@ == Set::<u32>::empty(),
            r.filters.filters@ == Seq::<ProcessFilter>::empty(),
            r.histories@ == Map::<u32, ProcessHistory>::empty(),
            r.ended@ == Seq::<ProcessHistory>::empty(),
            r.groups@ == Seq::<ProcessGroup>::empty(),
            r.plot_view == PlotView::Individual,
            r.search_query@ == Seq::<char>::empty(),
            r.last_sample is None,
            r.last_discover is None,
            r.status@ == "idle"@,
            r.include_children_for_selection,
            r.pending_filter_pattern@ == Seq::<char>::empty(),
            r.pending_group_name@ == Seq::<char>::empty(),
            !r.tree_view,
    {
        AppState {
            monitor: ProcessMonitor::new(config),
            discovered: Vec::new(),
            selected_pids: HashSet::new(),
            filters: FilterSet::new(),
            histories: HashMap::new(),
            ended: Vec::new(),
            groups: Vec::new(),
            plot_view: PlotView::Individual,
            search_query: String::new(),
            last_sample: None,
            last_discover: None,
            status: "idle".to_owned(),
            include_children_for_selection: true,
            pending_filter_pattern: String::new(),
            pending_group_name: String::new(),
            tree_view: false,
        }
    }

    /// Refresh the discovered process list.
    pub fn refresh_discovery(&mut self, table: &ProcessTable, now_ns: u128)
        ensures
            is_discovery(table@, final(self).discovered@),
            final(self).last_discover == Some(now_ns),
            *final(self) == (AppState {
                discovered: final(self).discovered,
                last_discover: final(self).last_discover,
                ..*old(self)
            }),
            histories_wf(history_views(old(self).histories@)) ==> histories_wf(
                history_views(final(self).histories@),
            ),
            old(self).wf() ==> final(self).wf(),
    {
        self.discovered = self.monitor.discover(table);
        self.last_discover = Some(now_ns);
    }

    /// Begin a new monitoring session. Clears all prior histories so the
    /// next CSV export only contains samples from *this* session.
    pub fn start_monitoring(&mut self, now_ns: u128)
        ensures
            final(self).histories@ == Map::<u32, ProcessHistory>::empty(),
            final(self).ended@ == Seq::<ProcessHistory>::empty(),
            final(self).monitor@ == (MonitorView {
                started_at: Some(now_ns),
                previous_io: Map::empty(),
                running: true,
                ..old(self).monitor@
            }),
            final(self).last_sample is None,
            final(self).status@ == "monitoring"@,
            *final(self) == (AppState {
                histories: final(self).histories,
                ended: final(self).ended,
                monitor: final(self).monitor,
                last_sample: final(self).last_sample,
                status: final(self).status,
                ..*old(self)
            }),
            histories_wf(history_views(old(self).histories@)) ==> histories_wf(
                history_views(final(self).histories@),
            ),
            old(self).wf() ==> final(self).wf(),
    {
        self.histories.clear();
        self.ended.clear();
        self.monitor.start(now_ns);
        self.last_sample = None;
        self.status = "monitoring".to_owned();
    }

    /// Stop the current monitoring session. Histories are retained so the
    /// user can still inspect plots and export to CSV.
    pub fn stop_monitoring(&mut self)
        ensures
            final(self).monitor@ == (MonitorView { running: false, ..old(self).monitor@ }),
            final(self).status@ == "stopped"@,
            *final(self) == (AppState {
                monitor: final(self).monitor,
                status: final(self).status,
                ..*old(self)
            }),
            histories_wf(history_views(old(self).histories@)) ==> histories_wf(
                history_views(final(self).histories@),
            ),
            old(self).wf() ==> final(self).wf(),
    {
        self.monitor.stop();
        self.status = "stopped".to_owned();
    }

    pub fn is_monitoring(&self) -> (r: bool)
        ensures
            r == self.monitor@.running,
    {
        self.monitor.is_running()
    }

    /// Whether the next call of [`AppState::tick`] would take a pass, so that
    /// the process table is only read when it is needed.
    pub fn is_due(&self, now_ns: u128) -> (r: bool)
        ensures
            r == self.due(now_ns),
    {
        if !self.monitor.is_running() {
            return false;
        }
        match self.last_sample {
            Some(t) => now_ns.saturating_sub(t) >= self.monitor.config().sample_interval_ns,
            None => true,
        }
    }

    /// Append the samples of a pass to the histories. A sample whose pid has a
    /// history of another process begins a history of its own; the other one
    /// is kept among those that ended.
    pub fn record(&mut self, samples: &Vec<SampledProcess>)
        requires
            old(self).has_room(identities_of(samples@)),
        ensures
            final(self).captured() == recorded(
                old(self).captured(),
                old(self).monitor@.config.history_capacity as nat,
                samples@,
            ),
            *final(self) == (AppState {
                histories: final(self).histories,
                ended: final(self).ended,
                ..*old(self)
            }),
            histories_wf(history_views(old(self).histories@)) ==> histories_wf(
                history_views(final(self).histories@),
            ),
            old(self).wf() ==> final(self).wf(),
    {
        let capacity: usize = self.monitor.config().history_capacity;
        let ghost before = self.captured();
        let mut i: usize = 0;
        proof {
            assert(samples@.take(0) =~= Seq::empty());
            assert forall|k: int| 0 <= k < samples@.len() && capacity == 0 implies continues(
                before.live,
                (#[trigger] samples@[k]).identity,
            ) by {
                assert(identities_of(samples@)[k] == samples@[k].identity);
            }
        }
        while i < samples.len()
            invariant
                capacity == self.monitor@.config.history_capacity,
                forall|k: int|
                    0 <= k < samples@.len() && capacity == 0 ==> continues(
                        before.live,
                        (#[trigger] samples@[k]).identity,
                    ),
                capacity == 0 ==> same_owners(before.live, self.captured().live),
                i <= samples@.len(),
                self.captured() == recorded(before, capacity as nat, samples@.take(i as int)),
                *self == (AppState {
                    histories: self.histories,
                    ended: self.ended,
                    ..*old(self)
                }),
            decreases samples@.len() - i,
        {
            let sampled: &SampledProcess = &samples[i];
            let ghost held = self.captured();
            proof {
                if capacity == 0 {
                    assert(continues(before.live, samples@[i as int].identity));
                    assert(held.live.contains_key(sampled.identity.pid));
                    assert(continues(held.live, sampled.identity));
                }
            }
            self.record_one(sampled, capacity);
            proof {
                let now = samples@.take(i + 1);
                assert(now.drop_last() =~= samples@.take(i as int));
                assert(now.last() == *sampled);
                if capacity == 0 {
                    assert forall|p: u32| #[trigger] before.live.contains_key(p) implies {
                        &&& self.captured().live.contains_key(p)
                        &&& self.captured().live[p].identity == before.live[p].identity
                    } by {
                        assert(held.live.contains_key(p));
                    }
                }
            }
            i = i + 1;
        }
        proof {
            assert(samples@.take(i as int) =~= samples@);
            if histories_wf(before.live) {
                histories_stay_bounded(before, capacity as nat, samples@);
            }
        }
    }

    /// Append one sample.
    fn record_one(&mut self, sampled: &SampledProcess, capacity: usize)
        requires
            capacity > 0 || continues(old(self).captured().live, sampled.identity),
        ensures
            final(self).captured() == recorded_one(
                old(self).captured(),
                capacity as nat,
                *sampled,
            ),
            *final(self) == (AppState {
                histories: final(self).histories,
                ended: final(self).ended,
                ..*old(self)
            }),
    {
        let ghost before = self.captured();
        let ghost ended_before = self.ended@;
        let pid: u32 = sampled.identity.pid;
        let mut history: ProcessHistory = match self.histories.remove(&pid) {
            Some(history) => if history.identity().is_same_process(&sampled.identity) {
                history
            } else {
                self.ended.push(history);
                ProcessHistory::new(sampled.identity.clone(), capacity)
            },
            None => ProcessHistory::new(sampled.identity.clone(), capacity),
        };
        history.push(sampled.sample);
        let ghost shown = history@;
        self.histories.insert(pid, history);
        proof {
            let after = recorded_one(before, capacity as nat, *sampled);
            assert(Seq::<MetricSample>::empty().push(sampled.sample) =~= seq![sampled.sample]);
            assert(self.captured().live =~= before.live.insert(pid, shown));
            assert(self.captured().live =~= after.live);
            assert(self.captured().ended =~= after.ended);
        }
    }

    /// Whether a pass over the table can be recorded.
    pub fn can_record(&self, table: &ProcessTable) -> (r: bool)
        ensures
            r == self.has_room_for(table@),
    {
        if self.monitor.config().history_capacity > 0 {
            return true;
        }
        let matched: HashSet<u32> = matched_pids(table, &self.filters);
        let follow: bool = self.filters.wants_children() || self.include_children_for_selection;
        let wanted: HashSet<u32> = select(table, &matched, &self.selected_pids, follow);
        let pids: Vec<u32> = members_of(&wanted);
        let ghost live = history_views(self.histories@);
        let mut i: usize = 0;
        while i < pids.len()
            invariant
                self.monitor@.config.history_capacity == 0,
                live == history_views(self.histories@),
                wanted@ == self.wanted(table@),
                lists(pids@, wanted@),
                i <= pids@.len(),
                forall|k: int|
                    0 <= k < i ==> continues(
                        live,
                        table@[#[trigger] pids@[k]].identity_at(pids@[k]),
                    ),
            decreases pids@.len() - i,
        {
            let pid: u32 = pids[i];
            proof {
                assert(pids@.contains(pids@[i as int]));
                assert(self.wanted(table@).contains(pid));
                selected_processes_run(
                    table@,
                    matched_by(table@, self.filters),
                    self.selected_pids@,
                    self.filters.follows_children() || self.include_children_for_selection,
                    pid,
                );
            }
            let kept: bool = match (table.get(&pid), self.histories.get(&pid)) {
                (Some(info), Some(history)) => history.identity().is_same_process(
                    &info.identity(pid),
                ),
                _ => false,
            };
            assert(kept == continues(live, table@[pid].identity_at(pid)));
            if !kept {
                return false;
            }
            i = i + 1;
        }
        proof {
            assert forall|pid: u32| #[trigger] self.wanted(table@).contains(pid) implies continues(
                live,
                table@[pid].identity_at(pid),
            ) by {
                assert(pids@.contains(pid));
                let k = choose|k: int| 0 <= k < pids@.len() && pids@[k] == pid;
                assert(continues(live, table@[pids@[k]].identity_at(pids@[k])));
            }
        }
        true
    }

    /// Drive one sampling tick. Returns the number of process samples
    /// recorded. No-op if monitoring is not running or the configured
    /// interval has not elapsed.
    pub fn tick(&mut self, table: &ProcessTable, clock: Clock) -> (n: usize)
        requires
            old(self).due(clock.now_ns) ==> old(self).has_room_for(table@),
        ensures
            !old(self).due(clock.now_ns) ==> n == 0 && *final(self) == *old(self),
            old(self).due(clock.now_ns) ==> old(self).ticked(
                *final(self),
                table@,
                clock,
                n as nat,
            ),
            histories_wf(history_views(old(self).histories@)) ==> histories_wf(
                history_views(final(self).histories@),
            ),
            old(self).wf() ==> final(self).wf(),
    {
        if !self.is_due(clock.now_ns) {
            return 0;
        }
        self.last_sample = Some(clock.now_ns);
        let samples: Vec<SampledProcess> = self.monitor.sample(
            table,
            clock,
            &self.filters,
            &self.selected_pids,
            self.include_children_for_selection,
        );
        proof {
            let listed = pids_of(samples@);
            let wanted = old(self).wanted(table@);
            let ids = identities_of(samples@);
            assert forall|i: int|
                0 <= i < ids.len() && old(self).monitor@.config.history_capacity == 0 implies continues(
                history_views(self.histories@),
                #[trigger] ids[i],
            ) by {
                let pid = listed[i];
                assert(listed.contains(pid));
                assert(wanted.contains(pid));
                assert(samples@[i].identity == table@[pid].identity_at(pid));
            }
        }
        self.record(&samples);
        samples.len()
    }

    /// Add a new user-authored filter. Returns an error string for display
    /// if the pattern is invalid.
    pub fn add_filter(&mut self, pattern: &str) -> (r: Result<(), String>)
        ensures
            adds_filter(*old(self), pattern@, case_blind_regex(pattern@), *final(self), r),
            old(self).wf() ==> final(self).wf(),
    {
        if is_blank_text(pattern) {
            return Err("pattern must not be empty".to_owned());
        }
        self.add_made_filter(ProcessFilter::new(pattern))
    }

    /// Add the filter that was made, or say why none was.
    pub fn add_made_filter(&mut self, made: Result<ProcessFilter, FilterError>) -> (r: Result<
        (),
        String,
    >)
        ensures
            made is Ok ==> {
                &&& r is Ok
                &&& final(self).filters.filters@ == old(self).filters.filters@.push(made->Ok_0)
                &&& *final(self) == (AppState { filters: final(self).filters, ..*old(self) })
            },
            made is Err ==> {
                &&& r is Err
                &&& r->Err_0@ == made->Err_0.text()
                &&& *final(self) == *old(self)
            },
            old(self).wf() && (made is Ok ==> made->Ok_0.wf()) ==> final(self).wf(),
    {
        match made {
            Ok(filter) => {
                self.filters.push(filter);
                Ok(())
            },
            Err(e) => Err(e.to_string()),
        }
    }

    /// Export the current histories as CSV: the number of rows, and the bytes
    /// of the table.
    pub fn export_csv<F: Fn(Number, usize) -> String>(&self, render: F) -> (r: Result<
        (usize, Vec<u8>),
        ExportError,
    >)
        requires
            forall|number: Number, decimals: usize| call_requires(render, (number, decimals)),
        ensures
            r is Ok,
            self.exports(render, r->Ok_0.0 as nat, r->Ok_0.1@),
    {
        let pids: Vec<u32> = keys_of(&self.histories);
        let ghost all = all_histories(self.histories@, self.ended@, pids@);
        let mut listed: Vec<&ProcessHistory> = Vec::new();
        let mut e: usize = 0;
        while e < self.ended.len()
            invariant
                all == all_histories(self.histories@, self.ended@, pids@),
                e <= self.ended@.len(),
                listed@ == all.take(e as int),
            decreases self.ended@.len() - e,
        {
            listed.push(&self.ended[e]);
            e = e + 1;
            assert(listed@ =~= all.take(e as int));
        }
        let mut i: usize = 0;
        while i < pids.len()
            invariant
                lists(pids@, self.histories@.dom()),
                all == all_histories(self.histories@, self.ended@, pids@),
                e == self.ended@.len(),
                i <= pids@.len(),
                listed@ == all.take(e + i),
            decreases pids@.len() - i,
        {
            assert(pids@.contains(pids@[i as int]));
            if let Some(history) = self.histories.get(&pids[i]) {
                listed.push(history);
            }
            i = i + 1;
            assert(listed@ =~= all.take(e + i));
        }
        assert(listed@ =~= all);
        write_csv(listed.as_slice(), render)
    }

    /// `bytes` is the table of all histories, with `count` rows, in which
    /// `render` wrote the real numbers.
    pub open spec fn exports<F: Fn(Number, usize) -> String>(
        self,
        render: F,
        count: nat,
        bytes: Seq<u8>,
    ) -> bool {
        exists|pids: Seq<u32>|
            #[trigger] lists(pids, self.histories@.dom()) && is_export(
                render,
                all_histories(self.histories@, self.ended@, pids),
                count,
                bytes,
            )
    }

    /// Create a new group from the currently-selected PIDs.
    pub fn create_group(&mut self, name: &str) -> (r: Result<(), String>)
        ensures
            adds_group(*old(self), name@, *final(self), r),
            old(self).wf() ==> final(self).wf(),
    {
        if is_blank_text(name) {
            return Err("group name must not be empty".to_owned());
        }
        let owned: String = name.to_owned();
        let mut i: usize = 0;
        while i < self.groups.len()
            invariant
                *self == *old(self),
                owned@ == name@,
                !all_blank(name@),
                i <= self.groups@.len(),
                forall|k: int| 0 <= k < i ==> (#[trigger] self.groups@[k]).name@ != name@,
            decreases self.groups@.len() - i,
        {
            if self.groups[i].name == owned {
                let mut message: String = String::new();
                message.append("group '");
                message.append(name);
                message.append("' already exists");
                assert(message@ =~= group_exists_text(name@));
                assert(names_group(self.groups@, name@));
                return Err(message);
            }
            i = i + 1;
        }
        let members: HashSet<u32> = copy_of(&self.selected_pids);
        self.groups.push(ProcessGroup { name: owned, members, visible: true });
        Ok(())
    }

    pub fn remove_group(&mut self, name: &str)
        ensures
            final(self).groups@ == without_group(old(self).groups@, name@),
            *final(self) == (AppState { groups: final(self).groups, ..*old(self) }),
            old(self).wf() ==> final(self).wf(),
    {
        let name: String = name.to_owned();
        let ghost all = self.groups@;
        let ghost keeps = |g: ProcessGroup| g.name@ != name@;
        let ghost mut seen: int = 0;
        let mut i: usize = 0;
        proof {
            reveal(Seq::filter);
            assert(all.take(0).filter(keeps) =~= Seq::empty());
            assert(all.skip(0) =~= all);
        }
        while i < self.groups.len()
            invariant
                *self == (AppState { groups: self.groups, ..*old(self) }),
                keeps == (|g: ProcessGroup| g.name@ != name@),
                0 <= seen <= all.len(),
                i == all.take(seen).filter(keeps).len(),
                self.groups@ == all.take(seen).filter(keeps) + all.skip(seen),
            decreases self.groups@.len() - i,
        {
            proof {
                reveal(Seq::filter);
                assert(seen < all.len());
                assert(self.groups@[i as int] == all[seen]);
                assert(all.take(seen + 1).drop_last() =~= all.take(seen));
                assert(all.take(seen + 1).last() == all[seen]);
            }
            if self.groups[i].name == name {
                self.groups.remove(i);
                assert(self.groups@ =~= all.take(seen + 1).filter(keeps) + all.skip(seen + 1));
            } else {
                i = i + 1;
                assert(self.groups@ =~= all.take(seen + 1).filter(keeps) + all.skip(seen + 1));
            }
            proof {
                seen = seen + 1;
            }
        }
        proof {
            assert(all.skip(seen).len() == 0);
            assert(all.take(seen) =~= all);
            assert(self.groups@ =~= without_group(all, name@));
            group_names_stay_distinct(all, name@);
        }
    }

    /// `buckets` is the combined line of what was recorded under the pids.
    pub open spec fn sums(self, pids: Set<u32>, kind: MetricKind, buckets: Seq<Bucket>) -> bool {
        exists|order: Seq<u32>|
            #[trigger] lists(order, pids) && is_aggregate(
                samples_of(self.histories@, self.ended@, order),
                pace(self.monitor@.config.sample_interval_ns),
                kind,
                buckets,
            )
    }

    /// Compute an aggregated series for a given metric across a set of PIDs.
    /// Samples are bucketed by their time since monitoring start (rounded to
    /// the nearest sampling interval); the value of a bucket is the sum of its
    /// readings.
    pub fn aggregate_series(&self, pids: &HashSet<u32>, kind: MetricKind) -> (r: Vec<Bucket>)
        ensures
            self.sums(pids@, kind, r@),
    {
        let interval: u128 = self.monitor.config().sample_interval_ns;
        aggregate(&self.histories, &self.ended, pids, interval, kind)
    }

    fn search_needle(&self) -> (r: Vec<char>)
        ensures
            r@ == needle(self.search_query@),
    {
        lower_chars(&trim_chars(&chars_of(self.search_query.as_str())))
    }

    /// Return the pid-indexed filtered discovery list honoring the current
    /// search query. Case-insensitive substring match against name or pid.
    pub fn filtered_discovery(&self) -> (r: Vec<&ProcessIdentity>)
        ensures
            r@.len() == found(self.discovered@, self.search_query@).len(),
            forall|k: int|
                0 <= k < r@.len() ==> *(#[trigger] r@[k]) == self.discovered@[found(
                    self.discovered@,
                    self.search_query@,
                )[k]],
    {
        let q: Vec<char> = self.search_needle();
        let ghost ids = self.discovered@;
        let ghost query = self.search_query@;
        let ghost hit = |i: int| is_found(ids[i], query);
        let mut r: Vec<&ProcessIdentity> = Vec::new();
        let mut i: usize = 0;
        while i < self.discovered.len()
            invariant
                ids == self.discovered@,
                query == self.search_query@,
                q@ == needle(query),
                hit == (|i: int| is_found(ids[i], query)),
                i <= ids.len(),
                r@.len() == positions(i as int, hit).len(),
                forall|k: int|
                    0 <= k < r@.len() ==> *(#[trigger] r@[k]) == ids[positions(i as int, hit)[k]],
            decreases ids.len() - i,
        {
            let id: &ProcessIdentity = &self.discovered[i];
            let shown: bool = q.len() == 0 || contains_chars(
                &lower_chars(&chars_of(id.name.as_str())),
                &q,
            ) || contains_chars(&decimal_chars(id.pid as u64), &q);
            assert(shown == hit(i as int));
            if shown {
                r.push(id);
            }
            i = i + 1;
        }
        r
    }

    /// Build a flattened tree representation of the discovered processes.
    ///
    /// Each entry is `(depth, &ProcessIdentity)`. Roots are processes whose
    /// parent is not present in the discovery list (or has no parent).
    /// Children are sorted alphabetically under their parent, matching the
    /// flat list order. When a search query is active, the tree is filtered
    /// to only show matching processes (and the tree degenerates to depth 0
    /// since intermediate ancestors may not match).
    pub fn build_process_tree(&self) -> (rows: Vec<(usize, &ProcessIdentity)>)
        requires
            needle(self.search_query@).len() == 0 ==> descent_ends(self.discovered@),
        ensures
            shows_rows(
                rows@,
                self.discovered@,
                tree_rows(self.discovered@, self.search_query@),
            ),
    {
        let q: Vec<char> = self.search_needle();
        if q.len() == 0 {
            return flatten(&self.discovered);
        }
        // With a search query, fall back to a flat filtered list because
        // showing partial trees with missing ancestors is confusing.
        self.flat_list()
    }

    /// The processes that the query finds, all at depth 0.
    fn flat_list(&self) -> (rows: Vec<(usize, &ProcessIdentity)>)
        ensures
            shows_rows(
                rows@,
                self.discovered@,
                flat_rows(self.discovered@, self.search_query@),
            ),
    {
        let hits: Vec<&ProcessIdentity> = self.filtered_discovery();
        let mut rows: Vec<(usize, &ProcessIdentity)> = Vec::new();
        let mut i: usize = 0;
        while i < hits.len()
            invariant
                i <= hits@.len(),
                rows@.len() == i,
                forall|k: int|
                    0 <= k < i ==> (#[trigger] rows@[k]).0 == 0 && *rows@[k].1 == *hits@[k],
            decreases hits@.len() - i,
        {
            rows.push((0, hits[i]));
            i = i + 1;
        }
        rows
    }

    /// Tick a process, or take its tick away.
    pub fn set_selected(&mut self, pid: u32, checked: bool)
        ensures
            checked ==> final(self).selected_pids@ == old(self).selected_pids@.insert(pid),
            !checked ==> final(self).selected_pids@ == old(self).selected_pids@.remove(pid),
            *final(self) == (AppState {
                selected_pids: final(self).selected_pids,
                ..*old(self)
            }),
            old(self).wf() ==> final(self).wf(),
    {
        if checked {
            self.selected_pids.insert(pid);
        } else {
            self.selected_pids.remove(&pid);
        }
    }
}

// ---- what the window shows -------------------------------------------------

/// So many steps of indentation.
pub open spec fn indent(depth: nat) -> Seq<char>
    decreases depth,
{
    if depth == 0 {
        Seq::empty()
    } else {
        indent((depth - 1) as nat) + "  "@
    }
}

/// The text of a row of the process list.
pub open spec fn row_text(depth: nat, name: Seq<char>, pid: u32) -> Seq<char> {
    if depth == 0 {
        labelled(name, pid)
    } else {
        indent(depth) + "└ "@ + labelled(name, pid)
    }
}

/// The text of a row of the process list.
pub fn row_label(depth: usize, id: &ProcessIdentity) -> (r: String)
    ensures
        r@ == row_text(depth as nat, id.name@, id.pid),
{
    let label: String = id.display_label();
    if depth == 0 {
        return label;
    }
    let mut r: String = String::new();
    let mut i: usize = 0;
    while i < depth
        invariant
            i <= depth,
            r@ == indent(i as nat),
        decreases depth - i,
    {
        r.append("  ");
        i = i + 1;
    }
    r.append("└ ");
    r.append(label.as_str());
    assert(r@ =~= row_text(depth as nat, id.name@, id.pid));
    r
}

/// One line of a plot.
#[derive(Debug)]
pub struct PlotLine {
    pub name: String,
    pub points: LinePoints,
}

#[derive(Debug)]
pub enum LinePoints {
    /// The points of one process.
    Series { points: Vec<Point> },
    /// The combined points of several processes.
    Sums { buckets: Vec<Bucket> },
}

impl ProcessGroup {
    pub open spec fn label_text(self) -> Seq<char> {
        self.name@ + " ("@ + decimal(self.members@.len()) + " pids)"@
    }

    /// The group's name and the number of its members.
    pub fn label(&self) -> (r: String)
        ensures
            r@ == self.label_text(),
    {
        let mut r: String = String::new();
        let digits: String = decimal_string(self.members.len() as u64);
        r.append(self.name.as_str());
        r.append(" (");
        r.append(digits.as_str());
        r.append(" pids)");
        assert(r@ =~= self.label_text());
        r
    }
}

/// The places of the groups that are shown.
pub open spec fn visible_groups(groups: Seq<ProcessGroup>) -> Seq<int> {
    positions(groups.len() as int, |i: int| groups[i].visible)
}

impl AppState {
    /// The rows of the process list, each with its depth.
    pub open spec fn listing(self) -> Seq<(nat, int)> {
        if self.tree_view {
            tree_rows(self.discovered@, self.search_query@)
        } else {
            flat_rows(self.discovered@, self.search_query@)
        }
    }

    /// The rows of the process list: the pid and the text of each.
    pub fn process_rows(&self) -> (r: Vec<(u32, String)>)
        requires
            self.tree_view && needle(self.search_query@).len() == 0 ==> descent_ends(
                self.discovered@,
            ),
        ensures
            r@.len() == self.listing().len(),
            forall|k: int|
                0 <= k < r@.len() ==> {
                    let (depth, at) = self.listing()[k];
                    &&& (#[trigger] r@[k]).0 == self.discovered@[at].pid
                    &&& r@[k].1@ == row_text(
                        depth,
                        self.discovered@[at].name@,
                        self.discovered@[at].pid,
                    )
                },
    {
        let rows: Vec<(usize, &ProcessIdentity)> = if self.tree_view {
            self.build_process_tree()
        } else {
            self.flat_list()
        };
        let mut r: Vec<(u32, String)> = Vec::new();
        let mut i: usize = 0;
        while i < rows.len()
            invariant
                i <= rows@.len(),
                shows_rows(rows@, self.discovered@, self.listing()),
                r@.len() == i,
                forall|k: int|
                    0 <= k < i ==> {
                        let (depth, at) = self.listing()[k];
                        &&& (#[trigger] r@[k]).0 == self.discovered@[at].pid
                        &&& r@[k].1@ == row_text(
                            depth,
                            self.discovered@[at].name@,
                            self.discovered@[at].pid,
                        )
                    },
            decreases rows@.len() - i,
        {
            let (depth, id): (usize, &ProcessIdentity) = rows[i];
            r.push((id.pid, row_label(depth, id)));
            i = i + 1;
        }
        r
    }

    pub open spec fn tracked_text(self) -> Seq<char> {
        "tracked: "@ + decimal(self.histories@.dom().len()) + " processes"@
    }

    /// How many processes are tracked. Those whose pid another process has
    /// taken over are not.
    pub fn tracked_label(&self) -> (r: String)
        ensures
            r@ == self.tracked_text(),
    {
        let mut r: String = String::new();
        let digits: String = decimal_string(self.histories.len() as u64);
        r.append("tracked: ");
        r.append(digits.as_str());
        r.append(" processes");
        assert(r@ =~= self.tracked_text());
        r
    }

    /// `lines` has one line for each history that ended, and one for each of
    /// the listed pids: the name in the history with the pid, and the points
    /// of the metric.
    pub open spec fn shows_each(
        self,
        pids: Seq<u32>,
        kind: MetricKind,
        lines: Seq<PlotLine>,
    ) -> bool {
        let n = self.ended@.len();
        &&& lines.len() == n + pids.len()
        &&& forall|i: int|
            0 <= i < lines.len() ==> shows_history(
                #[trigger] lines[i],
                all_histories(self.histories@, self.ended@, pids)[i],
                if i < n {
                    self.ended@[i]@.identity.pid
                } else {
                    pids[i - n]
                },
                kind,
            )
    }

    /// The pids under which something was recorded.
    pub open spec fn recorded_pids(self) -> Set<u32> {
        self.histories@.dom().union(
            self.ended@.map_values(|h: ProcessHistory| h@.identity.pid).to_set(),
        )
    }

    /// The line shows the sums over the processes.
    pub open spec fn shows_sums(
        self,
        line: PlotLine,
        name: Seq<char>,
        pids: Set<u32>,
        kind: MetricKind,
    ) -> bool {
        &&& line.name@ == name
        &&& line.points is Sums
        &&& self.sums(pids, kind, line.points->buckets@)
    }

    /// `lines` is the plot of a metric.
    pub open spec fn is_plot(self, kind: MetricKind, lines: Seq<PlotLine>) -> bool {
        match self.plot_view {
            PlotView::Individual => exists|pids: Seq<u32>|
                #[trigger] lists(pids, self.histories@.dom()) && self.shows_each(
                    pids,
                    kind,
                    lines,
                ),
            PlotView::Combined => {
                &&& lines.len() == 1
                &&& self.shows_sums(lines[0], "ALL"@, self.recorded_pids(), kind)
            },
            PlotView::Grouped => {
                let shown = visible_groups(self.groups@);
                &&& lines.len() == shown.len()
                &&& forall|i: int|
                    0 <= i < lines.len() ==> self.shows_sums(
                        #[trigger] lines[i],
                        self.groups@[shown[i]].name@,
                        self.groups@[shown[i]].members@,
                        kind,
                    )
            },
        }
    }

    /// The lines of a metric's plot: one per process, one for all of them, or
    /// one per visible group, as the plot view says.
    pub fn plot_lines(&self, kind: MetricKind) -> (lines: Vec<PlotLine>)
        ensures
            self.is_plot(kind, lines@),
    {
        match self.plot_view {
            PlotView::Individual => self.lines_of_each(kind),
            PlotView::Combined => {
                let all: HashSet<u32> = self.pids_on_record();
                let mut lines: Vec<PlotLine> = Vec::new();
                lines.push(
                    PlotLine {
                        name: "ALL".to_owned(),
                        points: LinePoints::Sums { buckets: self.aggregate_series(&all, kind) },
                    },
                );
                lines
            },
            PlotView::Grouped => self.lines_of_groups(kind),
        }
    }

    fn pids_on_record(&self) -> (all: HashSet<u32>)
        ensures
            all@ == self.recorded_pids(),
    {
        let pids: Vec<u32> = keys_of(&self.histories);
        let mut all: HashSet<u32> = set_of(&pids);
        let ghost of_ended = self.ended@.map_values(|h: ProcessHistory| h@.identity.pid);
        let mut i: usize = 0;
        proof {
            assert(pids@.to_set() =~= self.histories@.dom());
            assert(of_ended.take(0).to_set() =~= Set::empty());
            assert(all@ =~= self.histories@.dom().union(of_ended.take(0).to_set()));
        }
        while i < self.ended.len()
            invariant
                of_ended == self.ended@.map_values(|h: ProcessHistory| h@.identity.pid),
                i <= self.ended@.len(),
                all@ == self.histories@.dom().union(of_ended.take(i as int).to_set()),
            decreases self.ended@.len() - i,
        {
            let pid: u32 = self.ended[i].identity().pid;
            all.insert(pid);
            proof {
                let done = of_ended.take(i as int);
                let now = of_ended.take(i + 1);
                assert(now =~= done.push(pid));
                lemma_set_of_pushed(done, pid);
                assert(all@ =~= self.histories@.dom().union(now.to_set()));
            }
            i = i + 1;
        }
        assert(of_ended.take(i as int) =~= of_ended);
        all
    }

    fn lines_of_each(&self, kind: MetricKind) -> (lines: Vec<PlotLine>)
        ensures
            exists|pids: Seq<u32>|
                #[trigger] lists(pids, self.histories@.dom()) && self.shows_each(
                    pids,
                    kind,
                    lines@,
                ),
    {
        let pids: Vec<u32> = keys_of(&self.histories);
        let ghost all = all_histories(self.histories@, self.ended@, pids@);
        let ghost shown = self.ended@.map_values(|h: ProcessHistory| h@.identity.pid) + pids@;
        let mut lines: Vec<PlotLine> = Vec::new();
        let mut e: usize = 0;
        while e < self.ended.len()
            invariant
                all == all_histories(self.histories@, self.ended@, pids@),
                shown == self.ended@.map_values(|h: ProcessHistory| h@.identity.pid) + pids@,
                e <= self.ended@.len(),
                lines@.len() == e,
                forall|k: int|
                    0 <= k < e ==> shows_history(#[trigger] lines@[k], all[k], shown[k], kind),
            decreases self.ended@.len() - e,
        {
            let history: &ProcessHistory = &self.ended[e];
            lines.push(line_of(history, history.identity().pid, kind));
            e = e + 1;
        }
        let mut i: usize = 0;
        while i < pids.len()
            invariant
                lists(pids@, self.histories@.dom()),
                all == all_histories(self.histories@, self.ended@, pids@),
                shown == self.ended@.map_values(|h: ProcessHistory| h@.identity.pid) + pids@,
                e == self.ended@.len(),
                i <= pids@.len(),
                lines@.len() == e + i,
                forall|k: int|
                    0 <= k < e + i ==> shows_history(#[trigger] lines@[k], all[k], shown[k], kind),
            decreases pids@.len() - i,
        {
            assert(pids@.contains(pids@[i as int]));
            if let Some(history) = self.histories.get(&pids[i]) {
                lines.push(line_of(history, pids[i], kind));
            }
            i = i + 1;
        }
        assert(self.shows_each(pids@, kind, lines@));
        lines
    }

    fn lines_of_groups(&self, kind: MetricKind) -> (lines: Vec<PlotLine>)
        ensures
            lines@.len() == visible_groups(self.groups@).len(),
            forall|i: int|
                0 <= i < lines@.len() ==> self.shows_sums(
                    #[trigger] lines@[i],
                    self.groups@[visible_groups(self.groups@)[i]].name@,
                    self.groups@[visible_groups(self.groups@)[i]].members@,
                    kind,
                ),
    {
        let ghost groups = self.groups@;
        let ghost shown = |i: int| groups[i].visible;
        let mut lines: Vec<PlotLine> = Vec::new();
        let mut i: usize = 0;
        while i < self.groups.len()
            invariant
                groups == self.groups@,
                shown == (|i: int| groups[i].visible),
                i <= groups.len(),
                lines@.len() == positions(i as int, shown).len(),
                forall|k: int|
                    0 <= k < lines@.len() ==> self.shows_sums(
                        #[trigger] lines@[k],
                        groups[positions(i as int, shown)[k]].name@,
                        groups[positions(i as int, shown)[k]].members@,
                        kind,
                    ),
            decreases groups.len() - i,
        {
            let group: &ProcessGroup = &self.groups[i];
            assert(group.visible == shown(i as int));
            if group.visible {
                lines.push(
                    PlotLine {
                        name: group.name.clone(),
                        points: LinePoints::Sums {
                            buckets: self.aggregate_series(&group.members, kind),
                        },
                    },
                );
            }
            i = i + 1;
        }
        lines
    }
}

/// The line is of the history: its name with the given pid, and its points.
pub open spec fn shows_history(
    line: PlotLine,
    history: &ProcessHistory,
    pid: u32,
    kind: MetricKind,
) -> bool {
    &&& line.name@ == labelled(history@.identity.name@, pid)
    &&& line.points is Series
    &&& line.points->points@ == history.points(kind)
}

fn line_of(history: &ProcessHistory, pid: u32, kind: MetricKind) -> (line: PlotLine)
    ensures
        shows_history(line, history, pid, kind),
{
    PlotLine {
        name: label_of(history.identity().name.as_str(), pid),
        points: LinePoints::Series { points: history.series(kind) },
    }
}

/// The identifier of a metric's plot.
pub fn plot_id(kind: MetricKind) -> (r: String)
    ensures
        r@ == "plot_"@ + kind.short_text(),
{
    let mut r: String = String::new();
    r.append("plot_");
    r.append(kind.short_name());
    assert(r@ =~= "plot_"@ + kind.short_text());
    r
}

/// The application: the shared state, and what only the window needs.
pub struct ZoioApp {
    pub state: AppState,
    /// Auto-refresh interval for the discovery list, in nanoseconds.
    pub discovery_interval_ns: u128,
    /// Last filter-error message to display in a popup-style label.
    pub last_error: Option<String>,
}

/// What the application says of an export that failed.
pub open spec fn export_failed_text(reason: Seq<char>) -> Seq<char> {
    "export failed: "@ + reason
}

/// What the application says of an export that worked.
pub open spec fn exported_text(rows: nat) -> Seq<char> {
    "exported "@ + decimal(rows) + " rows"@
}

impl ZoioApp {
    pub fn new(config: MonitorConfig, table: &ProcessTable, now_ns: u128) -> (r: Self)
        ensures
            r.state.wf(),
            is_discovery(table@, r.state.discovered@),
            r.state.last_discover == Some(now_ns),
            r.state.monitor@ == (MonitorView {
                config,
                started_at: None,
                previous_io: Map::empty(),
                running: false,
            }),
            r.state.selected_pids@ == Set::<u32>::empty(),
            r.state.filters.filters@ == Seq::<ProcessFilter>::empty(),
            r.state.histories@ == Map::<u32, ProcessHistory>::empty(),
            r.state.ended@ == Seq::<ProcessHistory>::empty(),
            r.state.groups@ == Seq::<ProcessGroup>::empty(),
            r.state.plot_view == PlotView::Individual,
            r.state.search_query@ == Seq::<char>::empty(),
            r.state.last_sample is None,
            r.state.status@ == "idle"@,
            r.state.include_children_for_selection,
            r.state.pending_filter_pattern@ == Seq::<char>::empty(),
            r.state.pending_group_name@ == Seq::<char>::empty(),
            !r.state.tree_view,
            r.discovery_interval_ns == 3_000_000_000,
            r.last_error is None,
    {
        let mut state: AppState = AppState::new(config);
        state.refresh_discovery(table, now_ns);
        ZoioApp { state, discovery_interval_ns: 3_000_000_000, last_error: None }
    }

    /// Whether the discovery list is to be refreshed: its interval has gone
    /// by, or there was no refresh yet.
    pub fn discovery_due(&self, now_ns: u128) -> (r: bool)
        ensures
            r == match self.state.last_discover {
                Some(t) => monus(now_ns as int, t as int) >= self.discovery_interval_ns,
                None => true,
            },
    {
        match self.state.last_discover {
            Some(t) => now_ns.saturating_sub(t) >= self.discovery_interval_ns,
            None => true,
        }
    }

    /// Add the filter whose pattern was typed in. Where that works, the input
    /// is cleared, and the last error too; else the error is shown.
    pub fn add_pending_filter(&mut self)
        ensures
            exists|added: AppState, r: Result<(), String>|
                {
                    &&& #[trigger] adds_filter(
                        old(self).state,
                        old(self).state.pending_filter_pattern@,
                        case_blind_regex(old(self).state.pending_filter_pattern@),
                        added,
                        r,
                    )
                    &&& final(self).answers(*old(self), r)
                    &&& r is Ok ==> {
                        &&& final(self).state.pending_filter_pattern@ == Seq::<char>::empty()
                        &&& final(self).state == (AppState {
                            pending_filter_pattern: final(self).state.pending_filter_pattern,
                            ..added
                        })
                    }
                    &&& r is Err ==> final(self).state == added
                },
            old(self).state.wf() ==> final(self).state.wf(),
    {
        let pattern: String = self.state.pending_filter_pattern.clone();
        let r: Result<(), String> = self.state.add_filter(pattern.as_str());
        let ghost added = self.state;
        let ghost answer = r;
        match r {
            Ok(_) => {
                self.state.pending_filter_pattern = String::new();
                self.last_error = None;
            },
            Err(e) => {
                self.last_error = Some(e);
            },
        }
        assert(adds_filter(
            old(self).state,
            old(self).state.pending_filter_pattern@,
            case_blind_regex(old(self).state.pending_filter_pattern@),
            added,
            answer,
        ));
    }

    /// The last error is what the request came back with, if it failed.
    pub open spec fn answers(self, before: ZoioApp, r: Result<(), String>) -> bool {
        &&& r is Ok ==> self.last_error is None
        &&& r is Err ==> self.last_error == Some(r->Err_0)
        &&& self.discovery_interval_ns == before.discovery_interval_ns
    }

    /// Group the ticked processes under the name that was typed in. Where that
    /// works, the input is cleared, and the last error too; else the error is
    /// shown.
    pub fn create_pending_group(&mut self)
        ensures
            exists|added: AppState, r: Result<(), String>|
                {
                    &&& #[trigger] adds_group(
                        old(self).state,
                        old(self).state.pending_group_name@,
                        added,
                        r,
                    )
                    &&& final(self).answers(*old(self), r)
                    &&& r is Ok ==> {
                        &&& final(self).state.pending_group_name@ == Seq::<char>::empty()
                        &&& final(self).state == (AppState {
                            pending_group_name: final(self).state.pending_group_name,
                            ..added
                        })
                    }
                    &&& r is Err ==> final(self).state == added
                },
            old(self).state.wf() ==> final(self).state.wf(),
    {
        let name: String = self.state.pending_group_name.clone();
        let r: Result<(), String> = self.state.create_group(name.as_str());
        let ghost added = self.state;
        let ghost answer = r;
        match r {
            Ok(_) => {
                self.state.pending_group_name = String::new();
                self.last_error = None;
            },
            Err(e) => {
                self.last_error = Some(e);
            },
        }
        assert(adds_group(
            old(self).state,
            old(self).state.pending_group_name@,
            added,
            answer,
        ));
    }

    /// Say how an export went: the number of rows, or why it failed.
    pub fn finish_export(&mut self, outcome: Result<usize, String>)
        ensures
            outcome is Ok ==> {
                &&& final(self).state.status@ == exported_text(outcome->Ok_0 as nat)
                &&& final(self).state == (AppState {
                    status: final(self).state.status,
                    ..old(self).state
                })
                &&& final(self).last_error is None
            },
            outcome is Err ==> {
                &&& final(self).state == old(self).state
                &&& final(self).last_error is Some
                &&& final(self).last_error->0@ == export_failed_text(outcome->Err_0@)
            },
            final(self).discovery_interval_ns == old(self).discovery_interval_ns,
            old(self).state.wf() ==> final(self).state.wf(),
    {
        match outcome {
            Ok(n) => {
                let digits: String = decimal_string(n as u64);
                let mut status: String = String::new();
                status.append("exported ");
                status.append(digits.as_str());
                status.append(" rows");
                assert(status@ =~= exported_text(n as nat));
                self.state.status = status;
                self.last_error = None;
            },
            Err(reason) => {
                let mut message: String = String::new();
                message.append("export failed: ");
                message.append(reason.as_str());
                assert(message@ =~= export_failed_text(reason@));
                self.last_error = Some(message);
            },
        }
    }
}

// ---- what holds of the application -----------------------------------------

/// A pass adds its sample to the end of each sampled process's history, or
/// begins one with it, and leaves all other histories as they are. What ended
/// stays, and what stood under a pid that another process has now is kept with
/// it.
pub proof fn recording_touches_the_sampled_only(
    captured: Captured,
    capacity: nat,
    samples: Seq<SampledProcess>,
    pid: u32,
)
    requires
        pids_of(samples).no_duplicates(),
    ensures
        ({
            let after = recorded(captured, capacity, samples);
            &&& !pids_of(samples).contains(pid) ==> {
                &&& after.live.contains_key(pid) == captured.live.contains_key(pid)
                &&& after.live[pid] == captured.live[pid]
            }
            &&& forall|i: int|
                0 <= i < samples.len() && (#[trigger] samples[i]).identity.pid == pid ==> {
                    &&& after.live.contains_key(pid)
                    &&& after.live[pid] == recorded_one(captured, capacity, samples[i]).live[pid]
                    &&& captured.live.contains_key(pid) && !continues(
                        captured.live,
                        samples[i].identity,
                    ) ==> after.ended.contains(captured.live[pid])
                }
            &&& captured.ended.is_prefix_of(after.ended)
        }),
    decreases samples.len(),
{
    if samples.len() > 0 {
        let fewer = samples.drop_last();
        let last = samples.last().identity.pid;
        let listed = pids_of(samples);
        let before = recorded(captured, capacity, fewer);
        let after = recorded(captured, capacity, samples);
        assert(pids_of(fewer) =~= listed.drop_last());
        assert(pids_of(fewer).no_duplicates()) by {
            assert forall|i: int, j: int|
                0 <= i < fewer.len() && 0 <= j < fewer.len() && i != j implies pids_of(fewer)[i]
                != pids_of(fewer)[j] by {
                assert(listed[i] != listed[j]);
            }
        }
        recording_touches_the_sampled_only(captured, capacity, fewer, pid);
        assert(listed[samples.len() - 1] == last);
        assert(listed.contains(last));
        if pids_of(fewer).contains(pid) {
            let k = choose|k: int| 0 <= k < fewer.len() && pids_of(fewer)[k] == pid;
            assert(listed[k] == pid);
            assert(listed[k] != listed[samples.len() - 1]);
        }
        assert(before.ended.is_prefix_of(after.ended));
        assert forall|h: HistoryView| before.ended.contains(h) implies after.ended.contains(h) by {
            let k = choose|k: int| 0 <= k < before.ended.len() && before.ended[k] == h;
            assert(after.ended[k] == h);
        }
        assert forall|i: int|
            0 <= i < samples.len() && (#[trigger] samples[i]).identity.pid == pid implies {
            &&& after.live.contains_key(pid)
            &&& after.live[pid] == recorded_one(captured, capacity, samples[i]).live[pid]
            &&& captured.live.contains_key(pid) && !continues(
                captured.live,
                samples[i].identity,
            ) ==> after.ended.contains(captured.live[pid])
        } by {
            assert(listed[i] == pid);
            if i < fewer.len() {
                assert(fewer[i] == samples[i]);
                assert(pids_of(fewer)[i] == pid);
                assert(pids_of(fewer).contains(pid));
            } else {
                if pids_of(fewer).contains(pid) {
                    let k = choose|k: int| 0 <= k < fewer.len() && pids_of(fewer)[k] == pid;
                    assert(listed[k] != listed[i]);
                }
                if captured.live.contains_key(pid) && !continues(
                    captured.live,
                    samples[i].identity,
                ) {
                    assert(after.ended[before.ended.len() as int] == captured.live[pid]);
                }
            }
        }
    }
}

/// The samples of a tick: one for each wanted process, as the monitor takes
/// it.
proof fn lemma_ticked_samples(
    before: AppState,
    after: AppState,
    table: Map<u32, ProcessInfo>,
    clock: Clock,
    n: nat,
) -> (samples: Seq<SampledProcess>)
    requires
        before.ticked(after, table, clock, n),
    ensures
        after.captured() == recorded(
            before.captured(),
            before.monitor@.config.history_capacity as nat,
            samples,
        ),
        pids_of(samples).no_duplicates(),
        n == before.wanted(table).len(),
        forall|p: u32| #[trigger]
            pids_of(samples).contains(p) <==> before.wanted(table).contains(p),
        forall|i: int|
            0 <= i < samples.len() ==> {
                let pid = (#[trigger] samples[i]).identity.pid;
                &&& samples[i].identity == table[pid].identity_at(pid)
                &&& samples[i].sample == before.monitor@.sample_of(pid, table[pid], clock)
            },
{
    let wanted = before.wanted(table);
    let capacity = before.monitor@.config.history_capacity as nat;
    let samples = choose|samples: Seq<SampledProcess>|
        {
            &&& #[trigger] is_pass(before.monitor@, table, wanted, clock, samples)
            &&& n == samples.len()
            &&& after.captured() == recorded(before.captured(), capacity, samples)
        };
    let listed = pids_of(samples);
    let matched = matched_by(table, before.filters);
    let follow = before.filters.follows_children() || before.include_children_for_selection;
    assert forall|p: u32| #[trigger] listed.contains(p) <==> wanted.contains(p) by {
        passes_record_the_selection(
            before.monitor@,
            table,
            matched,
            before.selected_pids@,
            follow,
            clock,
            samples,
            p,
        );
    }
    listed.unique_seq_to_set();
    assert(listed.to_set() =~= wanted);
    samples
}

/// A tick counts the processes that are wanted and run, ends the history of
/// each with its new sample, and leaves the histories of all others alone.
pub proof fn tick_samples_what_is_wanted(
    before: AppState,
    after: AppState,
    table: Map<u32, ProcessInfo>,
    clock: Clock,
    n: nat,
    pid: u32,
)
    requires
        before.ticked(after, table, clock, n),
    ensures
        n == before.wanted(table).len(),
        before.wanted(table).contains(pid) ==> {
            &&& after.histories@.contains_key(pid)
            &&& after.histories@[pid]@.samples.len() > 0
            &&& after.histories@[pid]@.samples.last() == before.monitor@.sample_of(
                pid,
                table[pid],
                clock,
            )
        },
        !before.wanted(table).contains(pid) ==> {
            &&& after.histories@.contains_key(pid) == before.histories@.contains_key(pid)
            &&& before.histories@.contains_key(pid) ==> after.histories@[pid]@
                == before.histories@[pid]@
        },
        before.captured().ended.is_prefix_of(after.captured().ended),
{
    let capacity = before.monitor@.config.history_capacity as nat;
    let samples = lemma_ticked_samples(before, after, table, clock, n);
    let listed = pids_of(samples);
    let live = after.captured().live;
    recording_touches_the_sampled_only(before.captured(), capacity, samples, pid);
    if before.wanted(table).contains(pid) {
        assert(listed.contains(pid));
        let i = choose|i: int| 0 <= i < listed.len() && listed[i] == pid;
        assert(samples[i].identity.pid == pid);
        assert(live.contains_key(pid));
        assert(live[pid].samples.last() == samples[i].sample);
    } else {
        assert(!listed.contains(pid));
        assert(live.contains_key(pid) == before.captured().live.contains_key(pid));
    }
}

/// A history is of a single process. After a tick, the history under each
/// sampled pid is of the process that was sampled. Where it was so before, the
/// sample was added to it; where another process had the pid before, the
/// history of that one is kept as it was, and the new one holds the new sample
/// alone.
pub proof fn histories_stay_with_their_process(
    before: AppState,
    after: AppState,
    table: Map<u32, ProcessInfo>,
    clock: Clock,
    n: nat,
    pid: u32,
)
    requires
        before.ticked(after, table, clock, n),
        before.wanted(table).contains(pid),
    ensures
        ({
            let identity = table[pid].identity_at(pid);
            let sample = before.monitor@.sample_of(pid, table[pid], clock);
            let was = before.captured().live;
            let now = after.captured();
            &&& continues(now.live, identity)
            &&& continues(was, identity) ==> now.live[pid] == (HistoryView {
                samples: pushed(was[pid].samples, was[pid].capacity, sample),
                ..was[pid]
            })
            &&& !continues(was, identity) ==> {
                &&& now.live[pid].identity == identity
                &&& now.live[pid].samples == seq![sample]
            }
            &&& was.contains_key(pid) && !continues(was, identity) ==> now.ended.contains(was[pid])
        }),
{
    let capacity = before.monitor@.config.history_capacity as nat;
    let samples = lemma_ticked_samples(before, after, table, clock, n);
    let listed = pids_of(samples);
    recording_touches_the_sampled_only(before.captured(), capacity, samples, pid);
    assert(listed.contains(pid));
    let i = choose|i: int| 0 <= i < listed.len() && listed[i] == pid;
    assert(samples[i].identity.pid == pid);
}

/// After a tick, no other is due until the sampling interval has gone by.
pub proof fn ticks_keep_their_distance(
    before: AppState,
    after: AppState,
    table: Map<u32, ProcessInfo>,
    clock: Clock,
    n: nat,
    later_ns: u128,
)
    requires
        before.ticked(after, table, clock, n),
        clock.now_ns <= later_ns,
        later_ns - clock.now_ns < before.monitor@.config.sample_interval_ns,
    ensures
        !after.due(later_ns),
{
}

/// Search does not tell capitals from small letters, neither in the query nor
/// in the name.
pub proof fn search_ignores_case(
    a: ProcessIdentity,
    b: ProcessIdentity,
    a_query: Seq<char>,
    b_query: Seq<char>,
)
    requires
        a.pid == b.pid,
        lower(a.name@) == lower(b.name@),
        lower(a_query) == lower(b_query),
    ensures
        is_found(a, a_query) == is_found(b, b_query),
{
    trimming_ignores_case(a_query, b_query);
}

/// The process list shows the processes that the query finds, each once, in
/// the order of discovery. A blank query finds all.
pub proof fn search_shows_what_it_finds(ids: Seq<ProcessIdentity>, query: Seq<char>)
    ensures
        forall|i: int|
            #[trigger] found(ids, query).contains(i) <==> 0 <= i < ids.len() && is_found(
                ids[i],
                query,
            ),
        forall|a: int, b: int|
            0 <= a < b < found(ids, query).len() ==> found(ids, query)[a] < found(ids, query)[b],
        all_blank(query) ==> found(ids, query).len() == ids.len(),
{
    let hit = |i: int| is_found(ids[i], query);
    let at = found(ids, query);
    lemma_positions(ids.len() as int, hit);
    assert forall|i: int|
        #[trigger] at.contains(i) <==> 0 <= i < ids.len() && is_found(ids[i], query) by {
        if at.contains(i) {
            let k = choose|k: int| 0 <= k < at.len() && at[k] == i;
            assert(hit(at[k]));
        }
        if 0 <= i < ids.len() && is_found(ids[i], query) {
            assert(hit(i));
        }
    }
    if all_blank(query) {
        trimmed_is_empty_iff_blank(query);
        lemma_all_positions(ids.len() as int, hit);
    }
}

proof fn lemma_all_positions(n: int, f: spec_fn(int) -> bool)
    requires
        0 <= n,
        forall|i: int| 0 <= i < n ==> #[trigger] f(i),
    ensures
        positions(n, f).len() == n,
    decreases n,
{
    if n > 0 {
        lemma_all_positions(n - 1, f);
        assert(f(n - 1));
    }
}

/// Removing a group that was just created gives back the groups as they were.
pub proof fn removing_a_new_group_undoes_creating_it(
    groups: Seq<ProcessGroup>,
    group: ProcessGroup,
)
    requires
        !names_group(groups, group.name@),
    ensures
        without_group(groups.push(group), group.name@) == groups,
{
    reveal(Seq::filter);
    assert(groups.push(group).drop_last() =~= groups);
    lemma_removing_an_unknown_group(groups, group.name@);
}

proof fn lemma_removing_an_unknown_group(groups: Seq<ProcessGroup>, name: Seq<char>)
    requires
        !names_group(groups, name),
    ensures
        without_group(groups, name) == groups,
    decreases groups.len(),
{
    reveal(Seq::filter);
    if groups.len() > 0 {
        let fewer = groups.drop_last();
        assert(!names_group(fewer, name)) by {
            assert forall|i: int| 0 <= i < fewer.len() implies (#[trigger] fewer[i]).name@
                != name by {
                assert(groups[i].name@ != name);
            }
        }
        lemma_removing_an_unknown_group(fewer, name);
        assert(groups[groups.len() - 1].name@ != name);
        assert(fewer.push(groups.last()) =~= groups);
    }
}

/// No group has the name once it was removed.
pub proof fn removed_groups_are_gone(groups: Seq<ProcessGroup>, name: Seq<char>)
    ensures
        !names_group(without_group(groups, name), name),
    decreases groups.len(),
{
    reveal(Seq::filter);
    if groups.len() > 0 {
        let fewer = groups.drop_last();
        let kept = without_group(fewer, name);
        let now = without_group(groups, name);
        removed_groups_are_gone(fewer, name);
        assert forall|i: int| 0 <= i < now.len() implies (#[trigger] now[i]).name@ != name by {
            if i < kept.len() {
                assert(kept[i].name@ != name);
            }
        }
    }
}

/// A discovery list names no pid twice, so that its tree can be built.
pub proof fn discovered_processes_form_a_forest(
    table: Map<u32, ProcessInfo>,
    list: Seq<ProcessIdentity>,
)
    requires
        is_discovery(table, list),
    ensures
        distinct_pids(list),
        descent_ends(list),
{
    let pids = list.map_values(|id: ProcessIdentity| id.pid);
    assert forall|i: int, j: int| 0 <= i < j < list.len() implies (#[trigger] list[i]).pid != (
    #[trigger] list[j]).pid by {
        assert(pids[i] != pids[j]);
    }
    distinct_pids_end_descent(list);
}

/// The rows of an export do not depend on the order in which the histories
/// are walked.
pub proof fn export_rows_agree(
    histories: Map<u32, ProcessHistory>,
    ended: Seq<ProcessHistory>,
    a: Seq<u32>,
    b: Seq<u32>,
)
    requires
        histories_wf(history_views(histories)),
        lists(a, histories.dom()),
        lists(b, histories.dom()),
    ensures
        sorted_rows(all_rows(all_histories(histories, ended, a))) == sorted_rows(
            all_rows(all_histories(histories, ended, b)),
        ),
{
    lemma_histories_at(histories, a);
    lemma_histories_at(histories, b);
    let x = histories_at(histories, a);
    let y = histories_at(histories, b);
    assert forall|h: &ProcessHistory| #[trigger] x.contains(h) <==> y.contains(h) by {
        if x.contains(h) {
            let i = choose|i: int| 0 <= i < x.len() && x[i] == h;
            assert(a.contains(a[i]));
            assert(b.contains(a[i]));
            let j = choose|j: int| 0 <= j < b.len() && b[j] == a[i];
            assert(y[j] == h);
        }
        if y.contains(h) {
            let i = choose|i: int| 0 <= i < y.len() && y[i] == h;
            assert(b.contains(b[i]));
            assert(a.contains(b[i]));
            let j = choose|j: int| 0 <= j < a.len() && a[j] == b[i];
            assert(x[j] == h);
        }
    }
    order_behind_does_not_matter(Seq::new(ended.len(), |i: int| &ended[i]), x, y);
}

/// Two exports of one state have the same count and the same bytes, in
/// whichever order the histories are walked.
pub proof fn exports_agree<F: Fn(Number, usize) -> String>(
    state: AppState,
    render: F,
    a_count: nat,
    a_bytes: Seq<u8>,
    b_count: nat,
    b_bytes: Seq<u8>,
)
    requires
        histories_wf(history_views(state.histories@)),
        renders_alike(render),
        state.exports(render, a_count, a_bytes),
        state.exports(render, b_count, b_bytes),
    ensures
        a_count == b_count,
        a_bytes == b_bytes,
{
    let (histories, ended) = (state.histories@, state.ended@);
    let a = choose|pids: Seq<u32>|
        #[trigger] lists(pids, histories.dom()) && is_export(
            render,
            all_histories(histories, ended, pids),
            a_count,
            a_bytes,
        );
    let b = choose|pids: Seq<u32>|
        #[trigger] lists(pids, histories.dom()) && is_export(
            render,
            all_histories(histories, ended, pids),
            b_count,
            b_bytes,
        );
    export_rows_agree(histories, ended, a, b);
    equal_rows_give_equal_bytes(
        render,
        all_histories(histories, ended, a),
        all_histories(histories, ended, b),
        a_count,
        a_bytes,
        b_count,
        b_bytes,
    );
}

proof fn lemma_histories_at(histories: Map<u32, ProcessHistory>, pids: Seq<u32>)
    requires
        histories_wf(history_views(histories)),
        lists(pids, histories.dom()),
    ensures
        distinct_histories(histories_at(histories, pids)),
{
    let list = histories_at(histories, pids);
    let views = history_views(histories);
    assert forall|i: int, j: int| 0 <= i < j < list.len() implies (
    #[trigger] list[i])@.identity.pid != (#[trigger] list[j])@.identity.pid by {
        assert(pids.contains(pids[i]) && pids.contains(pids[j]));
        assert(views.contains_key(pids[i]) && views.contains_key(pids[j]));
        assert(views[pids[i]].identity.pid == pids[i]);
        assert(views[pids[j]].identity.pid == pids[j]);
    }
}

/// With no histories, as right after the start of a session, an export has no
/// rows.
pub proof fn fresh_session_exports_nothing<F: Fn(Number, usize) -> String>(
    state: AppState,
    render: F,
    count: nat,
    bytes: Seq<u8>,
)
    requires
        state.histories@ == Map::<u32, ProcessHistory>::empty(),
        state.ended@ == Seq::<ProcessHistory>::empty(),
        state.exports(render, count, bytes),
    ensures
        count == 0,
{
    let pids = choose|pids: Seq<u32>|
        #[trigger] lists(pids, state.histories@.dom()) && is_export(
            render,
            all_histories(state.histories@, state.ended@, pids),
            count,
            bytes,
        );
    if pids.len() > 0 {
        assert(pids.contains(pids[0]));
    }
    assert(all_histories(state.histories@, state.ended@, pids) =~= Seq::empty());
}

} // verus!
