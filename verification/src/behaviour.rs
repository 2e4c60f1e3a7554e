//! What holds of the application as a whole, said of what goes into it and
//! what comes out.

use regex::Regex;
use vstd::prelude::*;
use vstd::string::*;

use crate::aggregate::{
    combined_line_shows_every_sample, combined_line_shows_nothing_else,
    every_sample_is_counted_once, is_aggregate, pace, pace_is_in_whole_milliseconds, samples_of,
    total_readings, Bucket,
};
use crate::app::{
    adds_filter, adds_group, all_histories, continues, export_failed_text, exported_text, found,
    group_exists_text, histories_stay_with_their_process, history_views, indent, is_found,
    recorded, row_text, search_shows_what_it_finds, shows_rows, tick_samples_what_is_wanted,
    tree_rows, visible_groups, without_group, AppState, Captured, PlotLine, PlotView, ProcessGroup,
    ZoioApp,
};
use crate::csv_export::is_export;
use crate::metrics::{
    labels_show_name_and_pid, pushed, MetricKind, Number, ProcessHistory, ProcessIdentity,
};
use crate::pids::lists;
use crate::process_filter::{
    any_filter_speaks_for_the_set, regex_error_text, regex_is_match, set_speaks_through_its_filters,
};
use crate::process_monitor::{
    joined, matched_by, selected_processes_have_a_reason, selection_goes_down_the_tree,
    selection_without_children, wanted_processes_are_selected, Clock, ProcessInfo, SampledProcess,
};
use crate::text::{
    all_blank, decimal, decimal_reads_back, has_substring, lower,
    substring_stands_between_two_texts, text_occurs_between_any_others, trimmed,
    trimmed_is_empty_iff_blank, value_of_digits,
};
use crate::tree::{lemma_positions, process_forest, shows_forest};

verus! {

// ---- the search ------------------------------------------------------------

/// A process is shown whenever its name is some text, then the query without
/// the blanks at its ends, then some text, whatever the letter case.
pub proof fn names_are_found_by_any_part(
    ids: Seq<ProcessIdentity>,
    query: Seq<char>,
    i: int,
    a: Seq<char>,
    b: Seq<char>,
)
    requires
        0 <= i < ids.len(),
        lower(ids[i].name@) == a + lower(trimmed(query)) + b,
    ensures
        found(ids, query).contains(i),
{
    text_occurs_between_any_others(a, lower(trimmed(query)), b);
    search_shows_what_it_finds(ids, query);
    assert(is_found(ids[i], query));
}

/// A process is shown whenever the digits of its pid are some text, then the
/// query without the blanks at its ends, then some text.
pub proof fn pids_are_found_by_any_part(
    ids: Seq<ProcessIdentity>,
    query: Seq<char>,
    i: int,
    a: Seq<char>,
    b: Seq<char>,
)
    requires
        0 <= i < ids.len(),
        decimal(ids[i].pid as nat) == a + lower(trimmed(query)) + b,
    ensures
        found(ids, query).contains(i),
{
    text_occurs_between_any_others(a, lower(trimmed(query)), b);
    search_shows_what_it_finds(ids, query);
    assert(is_found(ids[i], query));
}

/// A process that is shown has the query, without the blanks at its ends,
/// somewhere in its name, whatever the letter case, or in the digits of its
/// pid.
///
/// The result is what stands before it there and what stands behind it.
pub proof fn shown_processes_hold_the_query(
    ids: Seq<ProcessIdentity>,
    query: Seq<char>,
    i: int,
) -> (sides: (Seq<char>, Seq<char>))
    requires
        found(ids, query).contains(i),
    ensures
        0 <= i < ids.len(),
        lower(ids[i].name@) == sides.0 + lower(trimmed(query)) + sides.1 || decimal(
            ids[i].pid as nat,
        ) == sides.0 + lower(trimmed(query)) + sides.1,
{
    search_shows_what_it_finds(ids, query);
    let q = lower(trimmed(query));
    let name = lower(ids[i].name@);
    let digits = decimal(ids[i].pid as nat);
    if q.len() == 0 {
        let none = Seq::<char>::empty();
        assert(name =~= name + q + none);
        (name, none)
    } else if has_substring(name, q) {
        substring_stands_between_two_texts(name, q)
    } else {
        substring_stands_between_two_texts(digits, q)
    }
}

/// Each process stands in the list once, and the list keeps the order of
/// discovery.
pub proof fn search_keeps_the_order(ids: Seq<ProcessIdentity>, query: Seq<char>, a: int, b: int)
    requires
        0 <= a < b < found(ids, query).len(),
    ensures
        0 <= found(ids, query)[a] < found(ids, query)[b] < ids.len(),
{
    search_shows_what_it_finds(ids, query);
    assert(found(ids, query).contains(found(ids, query)[a]));
    assert(found(ids, query).contains(found(ids, query)[b]));
}

/// The rows of the tree view under a query: the processes that it finds, each
/// at the top, in the order of discovery.
pub proof fn searched_trees_are_flat(
    rows: Seq<(usize, &ProcessIdentity)>,
    ids: Seq<ProcessIdentity>,
    query: Seq<char>,
    k: int,
)
    requires
        shows_rows(rows, ids, tree_rows(ids, query)),
        !all_blank(query),
    ensures
        rows.len() == found(ids, query).len(),
        0 <= k < rows.len() ==> rows[k].0 == 0 && *rows[k].1 == ids[found(ids, query)[k]],
{
    trimmed_is_empty_iff_blank(query);
}

/// The rows of the tree view without a query are those of the process forest.
pub proof fn trees_without_a_query_are_forests(
    rows: Seq<(usize, &ProcessIdentity)>,
    ids: Seq<ProcessIdentity>,
    query: Seq<char>,
)
    requires
        shows_rows(rows, ids, tree_rows(ids, query)),
        all_blank(query),
    ensures
        shows_forest(rows, ids),
{
    trimmed_is_empty_iff_blank(query);
}

/// The rows of the list: where a query was typed in, or the tree view is off,
/// the processes that it finds, side by side; else the process forest.
pub proof fn rows_are_a_list_or_a_forest(state: AppState, k: int)
    ensures
        state.tree_view && all_blank(state.search_query@) ==> state.listing() == process_forest(
            state.discovered@,
        ),
        !state.tree_view || !all_blank(state.search_query@) ==> {
            let hits = found(state.discovered@, state.search_query@);
            &&& state.listing().len() == hits.len()
            &&& 0 <= k < hits.len() ==> state.listing()[k].0 == 0 && state.listing()[k].1
                == hits[k]
        },
{
    trimmed_is_empty_iff_blank(state.search_query@);
}

// ---- passes ----------------------------------------------------------------

/// A pass is due exactly while monitoring runs and, since the last pass if
/// there was one, the sampling interval has gone by.
pub proof fn passes_are_due_by_the_clock(state: AppState, now_ns: u128)
    ensures
        !state.monitor@.running ==> !state.due(now_ns),
        state.monitor@.running && state.last_sample is None ==> state.due(now_ns),
        state.monitor@.running && state.last_sample is Some ==> {
            let gone = now_ns - state.last_sample->0;
            state.due(now_ns) <==> gone >= state.monitor@.config.sample_interval_ns
                || state.monitor@.config.sample_interval_ns == 0
        },
{
}

/// Every running process that is ticked is sampled.
pub proof fn ticked_processes_are_sampled(
    state: AppState,
    table: Map<u32, ProcessInfo>,
    pid: u32,
)
    requires
        table.contains_key(pid),
        state.selected_pids@.contains(pid),
    ensures
        state.wanted(table).contains(pid),
{
    wanted_processes_are_selected(
        table,
        matched_by(table, state.filters),
        state.selected_pids@,
        state.filters.follows_children() || state.include_children_for_selection,
        pid,
    );
}

/// Every running process is sampled of which an active filter, at whatever
/// place, has a match in the name or in the command line.
pub proof fn matching_processes_are_sampled(
    state: AppState,
    table: Map<u32, ProcessInfo>,
    pid: u32,
    i: int,
)
    requires
        table.contains_key(pid),
        0 <= i < state.filters.filters@.len(),
        state.filters.filters@[i].enabled,
        regex_is_match(state.filters.filters@[i].compiled.regex(), table[pid].name@)
            || regex_is_match(
            state.filters.filters@[i].compiled.regex(),
            joined(table[pid].cmd@),
        ),
    ensures
        state.wanted(table).contains(pid),
{
    any_filter_speaks_for_the_set(
        state.filters,
        i,
        table[pid].name@,
        joined(table[pid].cmd@),
    );
    wanted_processes_are_selected(
        table,
        matched_by(table, state.filters),
        state.selected_pids@,
        state.filters.follows_children() || state.include_children_for_selection,
        pid,
    );
}

/// Where children are asked for, by the switch or by any one active filter,
/// every running process is sampled whose parent is.
pub proof fn children_are_sampled(
    state: AppState,
    table: Map<u32, ProcessInfo>,
    parent: u32,
    child: u32,
    i: int,
)
    requires
        state.include_children_for_selection || (0 <= i < state.filters.filters@.len()
            && state.filters.filters@[i].enabled && state.filters.filters@[i].include_children),
        state.wanted(table).contains(parent),
        table.contains_key(child),
        table[child].parent == Some(parent),
    ensures
        state.wanted(table).contains(child),
{
    if !state.include_children_for_selection {
        any_filter_speaks_for_the_set(state.filters, i, Seq::empty(), Seq::empty());
    }
    selection_goes_down_the_tree(
        table,
        matched_by(table, state.filters),
        state.selected_pids@,
        parent,
        child,
    );
}

/// No process is sampled without a reason: it runs, and it is ticked, an
/// active filter has a match in it, or its parent is sampled and children are
/// asked for.
pub proof fn sampled_processes_are_asked_for(
    state: AppState,
    table: Map<u32, ProcessInfo>,
    pid: u32,
)
    requires
        state.wanted(table).contains(pid),
    ensures
        table.contains_key(pid),
        ({
            ||| state.selected_pids@.contains(pid)
            ||| exists|i: int|
                0 <= i < state.filters.filters@.len() && (#[trigger] state.filters.filters@[i]).enabled
                    && (regex_is_match(
                    state.filters.filters@[i].compiled.regex(),
                    table[pid].name@,
                ) || regex_is_match(
                    state.filters.filters@[i].compiled.regex(),
                    joined(table[pid].cmd@),
                ))
            ||| {
                &&& table[pid].parent is Some
                &&& state.wanted(table).contains(table[pid].parent->0)
                &&& state.include_children_for_selection || exists|i: int|
                    0 <= i < state.filters.filters@.len() && (
                    #[trigger] state.filters.filters@[i]).enabled
                        && state.filters.filters@[i].include_children
            }
        }),
{
    let matched = matched_by(table, state.filters);
    set_speaks_through_its_filters(
        state.filters,
        table[pid].name@,
        joined(table[pid].cmd@),
    );
    if state.filters.follows_children() || state.include_children_for_selection {
        selected_processes_have_a_reason(table, matched, state.selected_pids@, pid);
    } else {
        selection_without_children(table, matched, state.selected_pids@, pid);
    }
}

/// What a tick adds for a process is what the table and the clock say of it.
pub proof fn ticks_record_the_table(
    before: AppState,
    after: AppState,
    table: Map<u32, ProcessInfo>,
    clock: Clock,
    n: nat,
    pid: u32,
)
    requires
        before.ticked(after, table, clock, n),
        before.wanted(table).contains(pid),
    ensures
        after.histories@.contains_key(pid),
        after.histories@[pid]@.samples.len() > 0,
        after.histories@[pid]@.identity.pid == pid,
        after.histories@[pid]@.identity.name@ == table[pid].name@,
        after.histories@[pid]@.identity.start_time == table[pid].start_time,
        ({
            let s = after.histories@[pid]@.samples.last();
            let start = before.monitor@.started_at;
            let known = before.monitor@.previous_io;
            let was = known[pid];
            let read = table[pid].disk_read_bytes - was.counters.disk_read_bytes;
            let written = table[pid].disk_written_bytes - was.counters.disk_written_bytes;
            let span = clock.now_ns - was.counters.at_ns;
            &&& s.memory_bytes == table[pid].memory_bytes
            &&& s.cpu_percent_bits == table[pid].cpu_percent_bits
            &&& s.wall_clock_ms == clock.wall_clock_ms
            &&& start is None ==> s.elapsed_ns == 0
            &&& start is Some ==> s.elapsed_ns == (if clock.now_ns >= start->0 {
                clock.now_ns - start->0
            } else {
                0
            })
            &&& s.net.bytes == 0
            &&& known.contains_key(pid) && was.identity.pid == pid && was.identity.name@
                == table[pid].name@ && was.identity.start_time == table[pid].start_time ==> {
                &&& s.disk.bytes == (if read > 0 { read } else { 0 }) + (if written > 0 {
                    written
                } else {
                    0
                })
                &&& s.disk.over_ns == (if span > 1000 { span } else { 1000 })
            }
            &&& !known.contains_key(pid) || was.identity.pid != pid || was.identity.name@
                != table[pid].name@ || was.identity.start_time != table[pid].start_time
                ==> s.disk.bytes == 0
        }),
{
    tick_samples_what_is_wanted(before, after, table, clock, n, pid);
    histories_stay_with_their_process(before, after, table, clock, n, pid);
    assert(after.captured().live.contains_key(pid));
    assert(after.captured().live[pid] == after.histories@[pid]@);
}

/// A tick goes on with the history of a process: what was there stays in
/// front of the new sample, but for the oldest one where the history is full.
pub proof fn ticks_continue_histories(
    before: AppState,
    after: AppState,
    table: Map<u32, ProcessInfo>,
    clock: Clock,
    n: nat,
    pid: u32,
)
    requires
        before.ticked(after, table, clock, n),
        before.wanted(table).contains(pid),
        before.histories@.contains_key(pid),
        before.histories@[pid]@.wf(),
        before.histories@[pid]@.identity.pid == pid,
        before.histories@[pid]@.identity.name@ == table[pid].name@,
        before.histories@[pid]@.identity.start_time == table[pid].start_time,
    ensures
        ({
            let was = before.histories@[pid]@;
            let now = after.histories@[pid]@;
            let full = was.samples.len() == was.capacity;
            &&& now.identity == was.identity
            &&& now.capacity == was.capacity
            &&& !full ==> now.samples.drop_last() == was.samples
            &&& full ==> now.samples.drop_last() == was.samples.drop_first()
        }),
{
    histories_stay_with_their_process(before, after, table, clock, n, pid);
    assert(after.captured().live.contains_key(pid));
    let was = before.histories@[pid]@;
    let now = after.histories@[pid]@;
    let full = was.samples.len() == was.capacity;
    assert(before.captured().live[pid] == was);
    if full {
        assert(now.samples.drop_last() =~= was.samples.drop_first());
    } else {
        assert(now.samples.drop_last() =~= was.samples);
    }
}

/// A tick begins a history where the process has none: its only sample is the
/// new one. The history of a process that had the pid before is kept among
/// those that ended.
pub proof fn ticks_begin_histories(
    before: AppState,
    after: AppState,
    table: Map<u32, ProcessInfo>,
    clock: Clock,
    n: nat,
    pid: u32,
)
    requires
        before.ticked(after, table, clock, n),
        before.wanted(table).contains(pid),
        !before.histories@.contains_key(pid) || before.histories@[pid]@.identity.pid != pid
            || before.histories@[pid]@.identity.name@ != table[pid].name@
            || before.histories@[pid]@.identity.start_time != table[pid].start_time,
    ensures
        after.histories@[pid]@.samples.len() == 1,
        after.histories@[pid]@.identity.pid == pid,
        after.histories@[pid]@.identity.parent_pid == table[pid].parent,
        before.histories@.contains_key(pid) ==> exists|i: int|
            0 <= i < after.ended@.len() && (#[trigger] after.ended@[i])@
                == before.histories@[pid]@,
{
    histories_stay_with_their_process(before, after, table, clock, n, pid);
    assert(after.captured().live.contains_key(pid));
    if before.histories@.contains_key(pid) {
        let was = before.histories@[pid]@;
        assert(before.captured().live[pid] == was);
        let gone = after.captured().ended;
        let i = choose|i: int| 0 <= i < gone.len() && gone[i] == was;
        assert(after.ended@[i]@ == was);
    }
}

/// A tick leaves everything else as it is: the histories of the processes that
/// it does not sample, those that ended, the session, and what the user has
/// set.
pub proof fn ticks_leave_the_rest(
    before: AppState,
    after: AppState,
    table: Map<u32, ProcessInfo>,
    clock: Clock,
    n: nat,
    pid: u32,
)
    requires
        before.ticked(after, table, clock, n),
    ensures
        !before.wanted(table).contains(pid) ==> {
            &&& after.histories@.contains_key(pid) == before.histories@.contains_key(pid)
            &&& before.histories@.contains_key(pid) ==> after.histories@[pid]@
                == before.histories@[pid]@
        },
        before.ended@.len() <= after.ended@.len(),
        forall|i: int|
            0 <= i < before.ended@.len() ==> (#[trigger] after.ended@[i])@ == before.ended@[i]@,
        after.last_sample == Some(clock.now_ns),
        after.monitor@.config == before.monitor@.config,
        after.monitor@.started_at == before.monitor@.started_at,
        after.monitor@.running == before.monitor@.running,
        after.discovered == before.discovered,
        after.selected_pids == before.selected_pids,
        after.filters == before.filters,
        after.groups == before.groups,
        after.plot_view == before.plot_view,
        after.search_query == before.search_query,
        after.last_discover == before.last_discover,
        after.status == before.status,
        after.include_children_for_selection == before.include_children_for_selection,
        after.pending_filter_pattern == before.pending_filter_pattern,
        after.pending_group_name == before.pending_group_name,
        after.tree_view == before.tree_view,
{
    tick_samples_what_is_wanted(before, after, table, clock, n, pid);
    let was = before.captured().ended;
    let now = after.captured().ended;
    assert forall|i: int| 0 <= i < before.ended@.len() implies (#[trigger] after.ended@[i])@
        == before.ended@[i]@ by {
        assert(now[i] == was[i]);
    }
}

/// Recording one more sample: it goes to the history of its process or begins
/// one, and a history of another process under the pid ends. Nothing else
/// changes.
pub proof fn recording_goes_sample_by_sample(
    captured: Captured,
    capacity: nat,
    samples: Seq<SampledProcess>,
    sampled: SampledProcess,
    other: u32,
)
    ensures
        recorded(captured, capacity, Seq::empty()) == captured,
        ({
            let was = recorded(captured, capacity, samples);
            let now = recorded(captured, capacity, samples.push(sampled));
            let id = sampled.identity;
            let had = was.live[id.pid];
            let same = was.live.contains_key(id.pid) && had.identity.pid == id.pid
                && had.identity.name@ == id.name@ && had.identity.start_time == id.start_time;
            &&& other != id.pid ==> now.live.contains_key(other) == was.live.contains_key(other)
                && now.live[other] == was.live[other]
            &&& now.live.contains_key(id.pid)
            &&& same ==> {
                &&& now.ended == was.ended
                &&& now.live[id.pid].identity == had.identity
                &&& now.live[id.pid].capacity == had.capacity
                &&& now.live[id.pid].samples == pushed(had.samples, had.capacity, sampled.sample)
            }
            &&& !same ==> {
                &&& now.live[id.pid].identity == id
                &&& now.live[id.pid].capacity == capacity
                &&& now.live[id.pid].samples == seq![sampled.sample]
            }
            &&& !same && was.live.contains_key(id.pid) ==> now.ended == was.ended.push(had)
            &&& !was.live.contains_key(id.pid) ==> now.ended == was.ended
        }),
{
    assert(samples.push(sampled).drop_last() =~= samples);
    assert(samples.push(sampled).last() == sampled);
}

/// A pass can be recorded exactly where new histories may hold something, or
/// every process that it takes has its own history already.
pub proof fn room_is_for_new_histories(state: AppState, table: Map<u32, ProcessInfo>)
    ensures
        state.has_room_for(table) <==> (state.monitor@.config.history_capacity > 0 || forall|pid: u32|
            #[trigger]
            state.wanted(table).contains(pid) ==> {
                &&& state.histories@.contains_key(pid)
                &&& state.histories@[pid]@.identity.pid == pid
                &&& state.histories@[pid]@.identity.name@ == table[pid].name@
                &&& state.histories@[pid]@.identity.start_time == table[pid].start_time
            }),
{
    let live = history_views(state.histories@);
    if state.has_room_for(table) && state.monitor@.config.history_capacity == 0 {
        assert forall|pid: u32| #[trigger] state.wanted(table).contains(pid) implies {
            &&& state.histories@.contains_key(pid)
            &&& state.histories@[pid]@.identity.pid == pid
            &&& state.histories@[pid]@.identity.name@ == table[pid].name@
            &&& state.histories@[pid]@.identity.start_time == table[pid].start_time
        } by {
            assert(continues(live, table[pid].identity_at(pid)));
        }
    }
    if forall|pid: u32| #[trigger]
        state.wanted(table).contains(pid) ==> {
            &&& state.histories@.contains_key(pid)
            &&& state.histories@[pid]@.identity.pid == pid
            &&& state.histories@[pid]@.identity.name@ == table[pid].name@
            &&& state.histories@[pid]@.identity.start_time == table[pid].start_time
        } {
        assert forall|pid: u32| #[trigger] state.wanted(table).contains(pid) implies continues(
            live,
            table[pid].identity_at(pid),
        ) by {
            assert(live.contains_key(pid));
        }
    }
}

/// Samples can be recorded exactly where new histories may hold something, or
/// each sample is of a process that has its own history already.
pub proof fn room_is_for_new_samples(state: AppState, identities: Seq<ProcessIdentity>)
    ensures
        state.has_room(identities) <==> (state.monitor@.config.history_capacity > 0 || forall|i: int|
            0 <= i < identities.len() ==> {
                let id = #[trigger] identities[i];
                &&& state.histories@.contains_key(id.pid)
                &&& state.histories@[id.pid]@.identity.pid == id.pid
                &&& state.histories@[id.pid]@.identity.name@ == id.name@
                &&& state.histories@[id.pid]@.identity.start_time == id.start_time
            }),
{
    let live = history_views(state.histories@);
    assert forall|i: int| 0 <= i < identities.len() implies (continues(
        live,
        #[trigger] identities[i],
    ) <==> {
        let id = identities[i];
        &&& state.histories@.contains_key(id.pid)
        &&& state.histories@[id.pid]@.identity.pid == id.pid
        &&& state.histories@[id.pid]@.identity.name@ == id.name@
        &&& state.histories@[id.pid]@.identity.start_time == id.start_time
    }) by {}
}

// ---- requests of the user --------------------------------------------------

/// A filter is added exactly where the pattern is not blank and compiles. It
/// comes last, active, with the pattern and the regex, and follows children.
/// Nothing else changes, and nothing at all where the pattern is refused.
pub proof fn filters_are_added_at_the_end(
    before: AppState,
    pattern: Seq<char>,
    outcome: Result<Regex, regex::Error>,
    after: AppState,
    r: Result<(), String>,
)
    requires
        adds_filter(before, pattern, outcome, after, r),
    ensures
        r is Ok <==> !all_blank(pattern) && outcome is Ok,
        r is Err ==> after == before,
        all_blank(pattern) ==> r->Err_0@ == "pattern must not be empty"@,
        !all_blank(pattern) && outcome is Err ==> r->Err_0@ == "invalid regex '"@ + pattern
            + "': "@ + regex_error_text(outcome->Err_0),
        r is Ok ==> {
            let had = before.filters.filters@;
            let has = after.filters.filters@;
            &&& has.len() == had.len() + 1
            &&& forall|i: int| 0 <= i < had.len() ==> #[trigger] has[i] == had[i]
            &&& has[had.len() as int].enabled
            &&& has[had.len() as int].include_children
            &&& has[had.len() as int].compiled.pattern() == pattern
            &&& has[had.len() as int].compiled.regex() == outcome->Ok_0
            &&& after.histories == before.histories
            &&& after.ended == before.ended
            &&& after.monitor == before.monitor
            &&& after.discovered == before.discovered
            &&& after.selected_pids == before.selected_pids
            &&& after.groups == before.groups
            &&& after.last_sample == before.last_sample
            &&& after.last_discover == before.last_discover
            &&& after.status == before.status
            &&& after.search_query == before.search_query
            &&& after.plot_view == before.plot_view
            &&& after.tree_view == before.tree_view
            &&& after.include_children_for_selection == before.include_children_for_selection
            &&& after.pending_filter_pattern == before.pending_filter_pattern
            &&& after.pending_group_name == before.pending_group_name
        },
{
}

/// A group is made exactly where its name is not blank and none of the groups
/// has it. It comes last, visible, with the ticked processes as its members.
/// Nothing else changes, and nothing at all where the name is refused.
pub proof fn groups_are_added_at_the_end(
    before: AppState,
    name: Seq<char>,
    after: AppState,
    r: Result<(), String>,
)
    requires
        adds_group(before, name, after, r),
    ensures
        r is Ok <==> !all_blank(name) && forall|i: int|
            0 <= i < before.groups@.len() ==> (#[trigger] before.groups@[i]).name@ != name,
        r is Err ==> after == before,
        all_blank(name) ==> r->Err_0@ == "group name must not be empty"@,
        r is Err && !all_blank(name) ==> r->Err_0@ == "group '"@ + name + "' already exists"@,
        r is Ok ==> {
            let had = before.groups@;
            let has = after.groups@;
            &&& has.len() == had.len() + 1
            &&& forall|i: int| 0 <= i < had.len() ==> #[trigger] has[i] == had[i]
            &&& has[had.len() as int].name@ == name
            &&& has[had.len() as int].visible
            &&& has[had.len() as int].members@ == before.selected_pids@
            &&& after.histories == before.histories
            &&& after.ended == before.ended
            &&& after.monitor == before.monitor
            &&& after.discovered == before.discovered
            &&& after.selected_pids == before.selected_pids
            &&& after.filters == before.filters
            &&& after.last_sample == before.last_sample
            &&& after.last_discover == before.last_discover
            &&& after.status == before.status
            &&& after.search_query == before.search_query
            &&& after.plot_view == before.plot_view
            &&& after.tree_view == before.tree_view
            &&& after.include_children_for_selection == before.include_children_for_selection
            &&& after.pending_filter_pattern == before.pending_filter_pattern
            &&& after.pending_group_name == before.pending_group_name
        },
{
}

/// Removing a group takes out those with the name and leaves all others, in
/// their order.
pub proof fn removing_goes_group_by_group(
    groups: Seq<ProcessGroup>,
    last: ProcessGroup,
    name: Seq<char>,
)
    ensures
        without_group(Seq::empty(), name) == Seq::<ProcessGroup>::empty(),
        last.name@ == name ==> without_group(groups.push(last), name) == without_group(
            groups,
            name,
        ),
        last.name@ != name ==> without_group(groups.push(last), name) == without_group(
            groups,
            name,
        ).push(last),
{
    reveal(Seq::filter);
    assert(groups.push(last).drop_last() =~= groups);
    assert(groups.push(last).last() == last);
}

/// What a request came back with is what the window shows: its error, or none.
pub proof fn answers_show_the_error(app: ZoioApp, before: ZoioApp, r: Result<(), String>)
    requires
        app.answers(before, r),
    ensures
        r is Ok <==> app.last_error is None,
        r is Err ==> app.last_error->0@ == r->Err_0@,
        app.discovery_interval_ns == before.discovery_interval_ns,
{
}

// ---- exports ---------------------------------------------------------------

/// An export is of every history: of each that ended, and of the present one
/// of each pid, each once.
///
/// The result lists the histories, and the pids of those that have not ended.
pub proof fn exports_take_every_history<F: Fn(Number, usize) -> String>(
    state: AppState,
    render: F,
    count: nat,
    bytes: Seq<u8>,
) -> (listed: (Seq<&'static ProcessHistory>, Seq<u32>))
    requires
        state.exports(render, count, bytes),
    ensures
        is_export(render, listed.0, count, bytes),
        listed.0.len() == state.ended@.len() + listed.1.len(),
        forall|i: int|
            0 <= i < state.ended@.len() ==> *(#[trigger] listed.0[i]) == state.ended@[i],
        forall|i: int|
            0 <= i < listed.1.len() ==> state.histories@.contains_key(#[trigger] listed.1[i])
                && *listed.0[state.ended@.len() + i] == state.histories@[listed.1[i]],
        forall|i: int, j: int| 0 <= i < j < listed.1.len() ==> listed.1[i] != listed.1[j],
        forall|pid: u32| #[trigger]
            state.histories@.contains_key(pid) ==> listed.1.contains(pid),
{
    let pids = choose|pids: Seq<u32>|
        #[trigger] lists(pids, state.histories@.dom()) && is_export(
            render,
            all_histories(state.histories@, state.ended@, pids),
            count,
            bytes,
        );
    assert forall|i: int| 0 <= i < pids.len() implies state.histories@.contains_key(
        #[trigger] pids[i],
    ) by {
        assert(pids.contains(pids[i]));
    }
    assert forall|pid: u32| #[trigger] state.histories@.contains_key(pid) implies pids.contains(
        pid,
    ) by {
        assert(state.histories@.dom().contains(pid));
    }
    (all_histories(state.histories@, state.ended@, pids), pids)
}

// ---- plots -----------------------------------------------------------------

/// A plot of single processes has a line for each history that ended, in their
/// order, and then one for the present history of each pid. A line has the name
/// and the pid of the process, and a point for each sample: the time since
/// monitoring start and the sample's figure for the metric.
///
/// The result lists the pids of the histories that have not ended.
pub proof fn single_lines_show_each_history(
    state: AppState,
    kind: MetricKind,
    lines: Seq<PlotLine>,
) -> (pids: Seq<u32>)
    requires
        state.plot_view == PlotView::Individual,
        state.is_plot(kind, lines),
    ensures
        lines.len() == state.ended@.len() + pids.len(),
        forall|i: int, j: int| 0 <= i < j < pids.len() ==> pids[i] != pids[j],
        forall|pid: u32| #[trigger] state.histories@.contains_key(pid) ==> pids.contains(pid),
        forall|i: int|
            0 <= i < pids.len() ==> state.histories@.contains_key(#[trigger] pids[i]),
        forall|i: int|
            0 <= i < lines.len() ==> {
                let n = state.ended@.len();
                let history = if i < n {
                    state.ended@[i]@
                } else {
                    state.histories@[pids[i - n]]@
                };
                let pid = if i < n {
                    history.identity.pid
                } else {
                    pids[i - n]
                };
                &&& (#[trigger] lines[i]).name@ == history.identity.name@ + " (pid "@ + decimal(
                    pid as nat,
                ) + ")"@
                &&& lines[i].points is Series
                &&& lines[i].points->points@.len() == history.samples.len()
                &&& forall|k: int|
                    0 <= k < history.samples.len() ==> {
                        let s = history.samples[k];
                        let p = #[trigger] lines[i].points->points@[k];
                        &&& p.elapsed_ns == s.elapsed_ns
                        &&& match kind {
                            MetricKind::Cpu => p.value.number == (Number::Percent {
                                bits: s.cpu_percent_bits,
                            }) && p.value.unit == 1,
                            MetricKind::Memory => p.value.number == (Number::Bytes {
                                bytes: s.memory_bytes,
                            }) && p.value.unit == 1_048_576,
                            MetricKind::Disk => p.value.number == (Number::PerSecond {
                                rate: s.disk,
                            }) && p.value.unit == 1024,
                            MetricKind::Network => p.value.number == (Number::PerSecond {
                                rate: s.net,
                            }) && p.value.unit == 1024,
                        }
                    }
            },
{
    let pids = choose|pids: Seq<u32>|
        #[trigger] lists(pids, state.histories@.dom()) && state.shows_each(pids, kind, lines);
    assert forall|i: int| 0 <= i < pids.len() implies state.histories@.contains_key(
        #[trigger] pids[i],
    ) by {
        assert(pids.contains(pids[i]));
    }
    assert forall|pid: u32| #[trigger] state.histories@.contains_key(pid) implies pids.contains(
        pid,
    ) by {
        assert(state.histories@.dom().contains(pid));
    }
    pids
}

/// A combined line shows every sample that was recorded under one of its pids,
/// in a present history or in one that ended: in the bucket of its time stands
/// its figure for the metric.
///
/// The result is the place of that bucket and of the reading in it.
pub proof fn sums_take_every_sample(
    state: AppState,
    pids: Set<u32>,
    kind: MetricKind,
    buckets: Seq<Bucket>,
    history: ProcessHistory,
    k: int,
) -> (at: (int, int))
    requires
        state.sums(pids, kind, buckets),
        pids.contains(history@.identity.pid),
        state.ended@.contains(history) || (state.histories@.contains_key(history@.identity.pid)
            && state.histories@[history@.identity.pid] == history),
        0 <= k < history@.samples.len(),
    ensures
        0 <= at.0 < buckets.len(),
        0 <= at.1 < buckets[at.0].readings@.len(),
        ({
            let interval = pace(state.monitor@.config.sample_interval_ns);
            let shown = buckets[at.0].readings@[at.1];
            let s = history@.samples[k];
            &&& -interval <= 2 * (s.elapsed_ns - buckets[at.0].slot * interval) < interval
            &&& match kind {
                MetricKind::Cpu => shown.number == (Number::Percent { bits: s.cpu_percent_bits })
                    && shown.unit == 1,
                MetricKind::Memory => shown.number == (Number::Bytes { bytes: s.memory_bytes })
                    && shown.unit == 1_048_576,
                MetricKind::Disk => shown.number == (Number::PerSecond { rate: s.disk })
                    && shown.unit == 1024,
                MetricKind::Network => shown.number == (Number::PerSecond { rate: s.net })
                    && shown.unit == 1024,
            }
        }),
{
    let interval = pace(state.monitor@.config.sample_interval_ns);
    pace_is_in_whole_milliseconds(state.monitor@.config.sample_interval_ns);
    let order = choose|order: Seq<u32>|
        #[trigger] lists(order, pids) && is_aggregate(
            samples_of(state.histories@, state.ended@, order),
            interval,
            kind,
            buckets,
        );
    assert(order.contains(history@.identity.pid));
    combined_line_shows_every_sample(
        state.histories@,
        state.ended@,
        order,
        interval,
        kind,
        buckets,
        history,
        k,
    )
}

/// A combined line shows nothing but what was recorded under its pids: every
/// reading is the figure of a sample of one of their histories, in the bucket
/// of its time.
///
/// The result is the pid, the history and the place of the sample in it.
pub proof fn sums_take_nothing_else(
    state: AppState,
    pids: Set<u32>,
    kind: MetricKind,
    buckets: Seq<Bucket>,
    b: int,
    r: int,
) -> (from: (u32, ProcessHistory, int))
    requires
        state.sums(pids, kind, buckets),
        0 <= b < buckets.len(),
        0 <= r < buckets[b].readings@.len(),
    ensures
        pids.contains(from.0),
        (state.histories@.contains_key(from.0) && state.histories@[from.0] == from.1) || (
        state.ended@.contains(from.1) && from.1@.identity.pid == from.0),
        0 <= from.2 < from.1@.samples.len(),
        ({
            let interval = pace(state.monitor@.config.sample_interval_ns);
            let shown = buckets[b].readings@[r];
            let s = from.1@.samples[from.2];
            &&& -interval <= 2 * (s.elapsed_ns - buckets[b].slot * interval) < interval
            &&& match kind {
                MetricKind::Cpu => shown.number == (Number::Percent { bits: s.cpu_percent_bits }),
                MetricKind::Memory => shown.number == (Number::Bytes { bytes: s.memory_bytes }),
                MetricKind::Disk => shown.number == (Number::PerSecond { rate: s.disk }),
                MetricKind::Network => shown.number == (Number::PerSecond { rate: s.net }),
            }
        }),
{
    let interval = pace(state.monitor@.config.sample_interval_ns);
    pace_is_in_whole_milliseconds(state.monitor@.config.sample_interval_ns);
    let order = choose|order: Seq<u32>|
        #[trigger] lists(order, pids) && is_aggregate(
            samples_of(state.histories@, state.ended@, order),
            interval,
            kind,
            buckets,
        );
    let from = combined_line_shows_nothing_else(
        state.histories@,
        state.ended@,
        order,
        interval,
        kind,
        buckets,
        b,
        r,
    );
    assert(order.contains(from.0));
    from
}

/// A combined line has as many readings as there are samples under its pids:
/// each pid counts once.
///
/// The result lists the pids.
pub proof fn sums_count_each_pid_once(
    state: AppState,
    pids: Set<u32>,
    kind: MetricKind,
    buckets: Seq<Bucket>,
) -> (order: Seq<u32>)
    requires
        state.sums(pids, kind, buckets),
    ensures
        forall|i: int, j: int| 0 <= i < j < order.len() ==> order[i] != order[j],
        forall|pid: u32| #[trigger] order.contains(pid) <==> pids.contains(pid),
        total_readings(buckets) == samples_of(state.histories@, state.ended@, order).len(),
        forall|a: int, b: int|
            0 <= a < b < buckets.len() ==> (#[trigger] buckets[a]).slot < (
            #[trigger] buckets[b]).slot,
        forall|a: int| 0 <= a < buckets.len() ==> (#[trigger] buckets[a]).readings@.len() > 0,
{
    let interval = pace(state.monitor@.config.sample_interval_ns);
    let order = choose|order: Seq<u32>|
        #[trigger] lists(order, pids) && is_aggregate(
            samples_of(state.histories@, state.ended@, order),
            interval,
            kind,
            buckets,
        );
    every_sample_is_counted_once(
        samples_of(state.histories@, state.ended@, order),
        interval,
        kind,
        buckets,
    );
    order
}

/// The combined plot is one line, `ALL`, of every pid that something was
/// recorded under.
pub proof fn combined_plot_is_of_all(state: AppState, kind: MetricKind, lines: Seq<PlotLine>)
    requires
        state.plot_view == PlotView::Combined,
        state.is_plot(kind, lines),
    ensures
        lines.len() == 1,
        lines[0].name@ == "ALL"@,
        lines[0].points is Sums,
        state.sums(state.recorded_pids(), kind, lines[0].points->buckets@),
        forall|pid: u32| #[trigger]
            state.recorded_pids().contains(pid) <==> state.histories@.contains_key(pid) || exists|
                i: int,
            |
                0 <= i < state.ended@.len() && (#[trigger] state.ended@[i])@.identity.pid == pid,
{
    let gone = state.ended@.map_values(|h: ProcessHistory| h@.identity.pid);
    assert forall|pid: u32| #[trigger]
        state.recorded_pids().contains(pid) <==> state.histories@.contains_key(pid) || exists|
            i: int,
        |
            0 <= i < state.ended@.len() && (#[trigger] state.ended@[i])@.identity.pid == pid by {
        if gone.contains(pid) {
            let i = choose|i: int| 0 <= i < gone.len() && gone[i] == pid;
            assert(state.ended@[i]@.identity.pid == pid);
        }
        if exists|i: int|
            0 <= i < state.ended@.len() && (#[trigger] state.ended@[i])@.identity.pid == pid {
            let i = choose|i: int|
                0 <= i < state.ended@.len() && (#[trigger] state.ended@[i])@.identity.pid == pid;
            assert(gone[i] == pid);
        }
    }
}

/// The plot of groups has a line for each visible group, in the order of the
/// groups, with its name, of its members.
///
/// The result lists the places of these groups.
pub proof fn group_lines_are_of_visible_groups(
    state: AppState,
    kind: MetricKind,
    lines: Seq<PlotLine>,
) -> (shown: Seq<int>)
    requires
        state.plot_view == PlotView::Grouped,
        state.is_plot(kind, lines),
    ensures
        shown.len() == lines.len(),
        forall|i: int, j: int| 0 <= i < j < shown.len() ==> shown[i] < shown[j],
        forall|i: int|
            0 <= i < shown.len() ==> 0 <= #[trigger] shown[i] < state.groups@.len()
                && state.groups@[shown[i]].visible,
        forall|g: int|
            0 <= g < state.groups@.len() && state.groups@[g].visible ==> #[trigger] shown.contains(
                g,
            ),
        forall|i: int|
            0 <= i < lines.len() ==> {
                let group = state.groups@[shown[i]];
                &&& (#[trigger] lines[i]).name@ == group.name@
                &&& lines[i].points is Sums
                &&& state.sums(group.members@, kind, lines[i].points->buckets@)
            },
{
    let f = |i: int| state.groups@[i].visible;
    lemma_positions(state.groups@.len() as int, f);
    let shown = visible_groups(state.groups@);
    assert forall|i: int| 0 <= i < shown.len() implies 0 <= #[trigger] shown[i]
        < state.groups@.len() && state.groups@[shown[i]].visible by {
        assert(f(shown[i]));
    }
    assert forall|g: int| 0 <= g < state.groups@.len() && state.groups@[g].visible implies #[trigger] shown.contains(
        g,
    ) by {
        assert(f(g));
    }
    shown
}

// ---- texts -----------------------------------------------------------------

/// The texts that tell a number tell it in digits that read back as the number.
///
/// The results are the digits.
pub proof fn texts_tell_their_numbers(state: AppState, group: ProcessGroup, rows: nat) -> (digits: (
    Seq<char>,
    Seq<char>,
    Seq<char>,
))
    ensures
        exported_text(rows) == "exported "@ + digits.0 + " rows"@,
        value_of_digits(digits.0) == rows,
        state.tracked_text() == "tracked: "@ + digits.1 + " processes"@,
        value_of_digits(digits.1) == state.histories@.dom().len(),
        group.label_text() == group.name@ + " ("@ + digits.2 + " pids)"@,
        value_of_digits(digits.2) == group.members@.len(),
{
    decimal_reads_back(rows);
    decimal_reads_back(state.histories@.dom().len());
    decimal_reads_back(group.members@.len());
    (decimal(rows), decimal(state.histories@.dom().len()), decimal(group.members@.len()))
}

/// The texts of what went wrong hold the reason and the name.
pub proof fn texts_tell_what_went_wrong(reason: Seq<char>, name: Seq<char>)
    ensures
        export_failed_text(reason) == "export failed: "@ + reason,
        group_exists_text(name) == "group '"@ + name + "' already exists"@,
{
}

proof fn lemma_indent(depth: nat)
    ensures
        indent(depth).len() == 2 * depth,
        forall|i: int| 0 <= i < indent(depth).len() ==> #[trigger] indent(depth)[i] == ' ',
    decreases depth,
{
    reveal_strlit("  ");
    if depth > 0 {
        lemma_indent((depth - 1) as nat);
        assert(indent(depth) =~= indent((depth - 1) as nat) + "  "@);
    }
}

/// A row at the top is the label of its process. A row below is two spaces for
/// each level, then a corner and a space, then the label.
///
/// The result is the digits of the pid in the label.
pub proof fn rows_are_indented_by_depth(depth: nat, name: Seq<char>, pid: u32) -> (digits: Seq<
    char,
>)
    ensures
        value_of_digits(digits) == pid,
        depth == 0 ==> row_text(depth, name, pid) == name + " (pid "@ + digits + ")"@,
        depth > 0 ==> ({
            let text = row_text(depth, name, pid);
            &&& text.len() > 2 * depth
            &&& forall|i: int| 0 <= i < 2 * depth ==> #[trigger] text[i] == ' '
            &&& text.skip(2 * depth as int) == "└ "@ + (name + " (pid "@ + digits + ")"@)
        }),
{
    let digits = labels_show_name_and_pid(name, pid);
    if depth > 0 {
        reveal_strlit("└ ");
        lemma_indent(depth);
        let text = row_text(depth, name, pid);
        assert(text.skip(2 * depth as int) =~= "└ "@ + (name + " (pid "@ + digits + ")"@));
    }
    digits
}

} // verus!
