use std::collections::{HashMap, HashSet};
use std::time::Duration;

use sysinfo::{ProcessRefreshKind, ProcessesToUpdate, RefreshKind, System};
use zoio::aggregate::{pace_ms, slot_of, Bucket};
use zoio::app::{
    plot_id, row_label, AppState, LinePoints, PlotView, ProcessGroup, ZoioApp,
};
use zoio::metrics::{
    MetricKind, MetricSample, Number, ProcessHistory, ProcessIdentity, Rate, Reading,
};
use zoio::process_filter::ProcessFilter;
use zoio::process_monitor::{Clock, MonitorConfig, ProcessInfo, ProcessTable};

fn live_table() -> ProcessTable {
    let refresh = RefreshKind::new().with_processes(ProcessRefreshKind::everything());
    let mut system = System::new_with_specifics(refresh);
    system.refresh_processes(ProcessesToUpdate::All, true);
    let mut table = ProcessTable::new();
    for (pid, p) in system.processes() {
        let io = p.disk_usage();
        table.insert(
            pid.as_u32(),
            ProcessInfo {
                name: p.name().to_string_lossy().to_string(),
                cmd: p.cmd().iter().map(|s| s.to_string_lossy().to_string()).collect(),
                parent: p.parent().map(|p| p.as_u32()),
                start_time: p.start_time(),
                cpu_percent_bits: p.cpu_usage().to_bits(),
                memory_bytes: p.memory(),
                disk_read_bytes: io.total_read_bytes,
                disk_written_bytes: io.total_written_bytes,
            },
        );
    }
    table
}

fn info(name: &str, parent: Option<u32>) -> ProcessInfo {
    ProcessInfo {
        name: name.to_string(),
        cmd: vec![],
        parent,
        start_time: 0,
        cpu_percent_bits: 1.5f32.to_bits(),
        memory_bytes: 1024 * 1024,
        disk_read_bytes: 0,
        disk_written_bytes: 0,
    }
}

fn at(ms: u128) -> Clock {
    Clock { now_ns: ms * 1_000_000, wall_clock_ms: ms as i64 }
}

fn number(n: Number) -> f64 {
    match n {
        Number::Seconds { ns } => ns as f64 / 1e9,
        Number::Percent { bits } => f32::from_bits(bits) as f64,
        Number::Bytes { bytes } => bytes as f64,
        Number::PerSecond { rate } => rate.bytes as f64 / (rate.over_ns as f64 / 1e9),
    }
}

fn reading(r: &Reading) -> f64 {
    number(r.number) / r.unit as f64
}

fn render(n: Number, decimals: usize) -> String {
    format!("{:.*}", decimals, number(n))
}

fn sum(b: &Bucket) -> f64 {
    b.readings.iter().map(reading).sum()
}

fn push_sample(state: &mut AppState, pid: u32, name: &str, t: f64, v: f32) {
    let id = ProcessIdentity::new(pid, name, 0);
    let cap = state.monitor.config().history_capacity;
    let h = state
        .histories
        .entry(pid)
        .or_insert_with(|| ProcessHistory::new(id, cap));
    h.push(MetricSample {
        elapsed_ns: (t * 1e9) as u128,
        wall_clock_ms: (t * 1000.0) as i64,
        cpu_percent_bits: v.to_bits(),
        memory_bytes: 1024 * 1024,
        disk: Rate::zero(),
        net: Rate::zero(),
    });
}

fn every(ms: u64, history_capacity: usize) -> MonitorConfig {
    MonitorConfig { sample_interval_ns: Duration::from_millis(ms).as_nanos(), history_capacity }
}

#[test]
fn new_state_is_idle_and_empty() {
    let s = AppState::new(MonitorConfig::default());
    assert!(!s.is_monitoring());
    assert!(s.selected_pids.is_empty());
    assert!(s.histories.is_empty());
    assert!(s.groups.is_empty());
    assert_eq!(s.status, "idle");
    assert_eq!(s.plot_view, PlotView::Individual);
}

#[test]
fn new_state_has_its_defaults() {
    let s = AppState::new(every(250, 7));
    assert_eq!(s.monitor.config().history_capacity, 7);
    assert_eq!(s.monitor.config().sample_interval_ns, 250_000_000);
    assert!(s.include_children_for_selection);
    assert!(s.discovered.is_empty());
    assert!(s.filters.filters.is_empty());
    assert_eq!(s.search_query, "");
    assert_eq!(s.pending_filter_pattern, "");
    assert_eq!(s.pending_group_name, "");
    assert_eq!(s.last_sample, None);
    assert_eq!(PlotView::default(), PlotView::Individual);
    let g = ProcessGroup::default();
    assert!(g.name.is_empty() && g.members.is_empty() && !g.visible);
}

#[test]
fn start_then_stop_transitions_state() {
    let mut s = AppState::new(MonitorConfig::default());
    s.start_monitoring(0);
    assert!(s.is_monitoring());
    assert_eq!(s.status, "monitoring");
    s.stop_monitoring();
    assert!(!s.is_monitoring());
    assert_eq!(s.status, "stopped");
}

#[test]
fn start_clears_old_histories_for_a_fresh_session() {
    let mut s = AppState::new(MonitorConfig::default());
    push_sample(&mut s, 1, "a", 0.0, 10.0);
    assert_eq!(s.histories.len(), 1);
    s.start_monitoring(0);
    assert!(s.histories.is_empty());
    assert_eq!(s.export_csv(render).unwrap().0, 0);
}

#[test]
fn stop_retains_histories_for_later_export() {
    let mut s = AppState::new(MonitorConfig::default());
    s.start_monitoring(0);
    push_sample(&mut s, 1, "a", 0.0, 10.0);
    s.stop_monitoring();
    assert_eq!(s.histories.len(), 1);
}

#[test]
fn add_filter_rejects_empty_and_invalid() {
    let mut s = AppState::new(MonitorConfig::default());
    assert!(s.add_filter("   ").is_err());
    assert!(s.add_filter("(unclosed").is_err());
    assert!(s.filters.filters.is_empty());
    assert!(s.add_filter("python").is_ok());
    assert_eq!(s.filters.filters.len(), 1);
}

#[test]
fn add_filter_says_why_it_refused() {
    let mut s = AppState::new(MonitorConfig::default());
    for blank in ["", "  ", "\t\n", "\u{3000}\u{a0}"] {
        assert_eq!(s.add_filter(blank).unwrap_err(), "pattern must not be empty");
    }
    let reason = regex::Regex::new("a[").unwrap_err().to_string();
    assert_eq!(s.add_filter("a[").unwrap_err(), format!("invalid regex 'a[': {reason}"));
    s.add_filter(" x ").unwrap();
    assert_eq!(s.filters.filters[0].pattern(), " x ");
    assert!(s.add_made_filter(ProcessFilter::new("y")).is_ok());
    assert!(s.add_made_filter(ProcessFilter::new("*")).is_err());
    assert_eq!(s.filters.filters.len(), 2);
}

#[test]
fn create_group_requires_non_empty_unique_name() {
    let mut s = AppState::new(MonitorConfig::default());
    s.selected_pids.insert(1);
    assert!(s.create_group("  ").is_err());
    assert!(s.create_group("workers").is_ok());
    assert!(s.create_group("workers").is_err(), "duplicate not allowed");
    assert_eq!(s.groups.len(), 1);
    assert_eq!(s.groups[0].members.len(), 1);
}

#[test]
fn create_group_says_why_it_refused() {
    let mut s = AppState::new(MonitorConfig::default());
    s.selected_pids.insert(3);
    s.selected_pids.insert(4);
    assert_eq!(s.create_group("\t").unwrap_err(), "group name must not be empty");
    s.create_group("web").unwrap();
    assert_eq!(s.create_group("web").unwrap_err(), "group 'web' already exists");
    // Names are told apart by every character.
    s.create_group("Web").unwrap();
    s.create_group(" web").unwrap();
    assert_eq!(s.groups.len(), 3);
    assert!(s.groups[0].visible);
    assert_eq!(s.groups[0].members, s.selected_pids);
    assert_eq!(s.groups[0].label(), "web (2 pids)");
    let copy = s.groups[0].clone();
    assert_eq!(copy.name, "web");
    assert_eq!(copy.members, s.groups[0].members);
    assert!(copy.visible);
}

#[test]
fn remove_group_removes_matching_name_only() {
    let mut s = AppState::new(MonitorConfig::default());
    s.selected_pids.insert(1);
    s.create_group("a").unwrap();
    s.create_group("b").unwrap();
    s.remove_group("a");
    assert_eq!(s.groups.len(), 1);
    assert_eq!(s.groups[0].name, "b");
}

#[test]
fn removing_a_new_group_restores_the_list() {
    let mut s = AppState::new(MonitorConfig::default());
    s.create_group("a").unwrap();
    s.create_group("b").unwrap();
    s.create_group("c").unwrap();
    s.remove_group("c");
    s.remove_group("unknown");
    let names: Vec<&str> = s.groups.iter().map(|g| g.name.as_str()).collect();
    assert_eq!(names, vec!["a", "b"]);
}

#[test]
fn aggregate_series_sums_buckets_across_pids() {
    let mut s = AppState::new(every(1000, 100));
    push_sample(&mut s, 1, "a", 0.0, 10.0);
    push_sample(&mut s, 1, "a", 1.0, 20.0);
    push_sample(&mut s, 2, "b", 0.0, 30.0);
    push_sample(&mut s, 2, "b", 1.0, 40.0);

    let mut pids = HashSet::new();
    pids.insert(1);
    pids.insert(2);
    let series = s.aggregate_series(&pids, MetricKind::Cpu);
    assert_eq!(series.len(), 2);
    assert!((sum(&series[0]) - 40.0).abs() < 1e-6, "bucket 0 = 10+30");
    assert!((sum(&series[1]) - 60.0).abs() < 1e-6, "bucket 1 = 20+40");
}

#[test]
fn aggregate_series_empty_when_no_matching_pids() {
    let s = AppState::new(MonitorConfig::default());
    let mut pids = HashSet::new();
    pids.insert(9_999);
    let series = s.aggregate_series(&pids, MetricKind::Cpu);
    assert!(series.is_empty());
}

#[test]
fn aggregate_rounds_to_the_nearest_interval() {
    let mut s = AppState::new(every(1000, 100));
    for t in [0.2, 1.4, 1.6, 2.5, 9.0] {
        push_sample(&mut s, 1, "a", t, 1.0);
    }
    let series = s.aggregate_series(&HashSet::from([1, 2]), MetricKind::Memory);
    let slots: Vec<(u128, usize)> = series.iter().map(|b| (b.slot, b.readings.len())).collect();
    assert_eq!(slots, vec![(0, 1), (1, 1), (2, 1), (3, 1), (9, 1)]);
    assert!((sum(&series[0]) - 1.0).abs() < 1e-9);
}

#[test]
fn aggregate_counts_every_sample_once() {
    let mut s = AppState::new(every(100, 100));
    for k in 0..50 {
        push_sample(&mut s, 1, "a", k as f64 * 0.13, 1.0);
        push_sample(&mut s, 2, "b", k as f64 * 0.07, 1.0);
    }
    let series = s.aggregate_series(&HashSet::from([1, 2]), MetricKind::Cpu);
    let total: usize = series.iter().map(|b| b.readings.len()).sum();
    assert_eq!(total, 100);
    assert!(series.windows(2).all(|w| w[0].slot < w[1].slot));
}

#[test]
fn slots_and_pace() {
    assert_eq!(pace_ms(1_000_000_000), 1000);
    assert_eq!(pace_ms(1_999_999), 1);
    assert_eq!(pace_ms(0), 1);
    assert_eq!(slot_of(0, 1_000_000), 0);
    assert_eq!(slot_of(499_999, 1_000_000), 0);
    assert_eq!(slot_of(500_000, 1_000_000), 1);
    assert_eq!(slot_of(1_499_999, 1_000_000), 1);
    assert_eq!(slot_of(u128::MAX, 1_000_000), u128::MAX / 1_000_000);
    assert_eq!(slot_of(u128::MAX, u128::MAX), 1);
}

#[test]
fn export_csv_writes_rows() {
    let mut s = AppState::new(MonitorConfig::default());
    push_sample(&mut s, 1, "a", 0.0, 10.0);
    push_sample(&mut s, 1, "a", 1.0, 20.0);
    let (n, bytes) = s.export_csv(render).unwrap();
    assert_eq!(n, 2);
    let contents = String::from_utf8(bytes).unwrap();
    assert!(contents.contains("timestamp_ms"));
    assert_eq!(
        contents.lines().nth(2).unwrap(),
        "1000,1.000000,1,a,,20.0000,1048576,0.00,0.00"
    );
}

#[test]
fn export_is_the_same_however_histories_are_walked() {
    let mut a = AppState::new(MonitorConfig::default());
    let mut b = AppState::new(MonitorConfig::default());
    for pid in 0..40 {
        push_sample(&mut a, pid, "p", 1.0, pid as f32);
        push_sample(&mut b, 39 - pid, "p", 1.0, (39 - pid) as f32);
    }
    assert_eq!(a.export_csv(render).unwrap(), b.export_csv(render).unwrap());
}

#[test]
fn tick_is_noop_when_not_running() {
    let mut s = AppState::new(MonitorConfig::default());
    s.selected_pids.insert(1);
    let table = ProcessTable::from([(1, info("a", None))]);
    assert!(!s.is_due(0));
    assert_eq!(s.tick(&table, at(0)), 0);
    assert!(s.histories.is_empty());
}

#[test]
fn tick_is_noop_inside_interval() {
    let mut s = AppState::new(every(60_000, 100));
    s.start_monitoring(0);
    s.selected_pids.insert(1);
    let table = ProcessTable::from([(1, info("a", None))]);
    s.last_sample = Some(0); // just sampled
    assert_eq!(s.tick(&table, at(1)), 0);
    assert_eq!(s.tick(&table, at(59_999)), 0);
    assert!(s.is_due(60_000_000_000));
    assert_eq!(s.tick(&table, at(60_000)), 1);
}

#[test]
fn tick_records_the_wanted_processes() {
    let mut s = AppState::new(every(1000, 2));
    let mut table = ProcessTable::from([
        (1, info("a", None)),
        (2, info("b", Some(1))),
        (3, info("c", None)),
    ]);
    s.selected_pids.insert(1);
    s.start_monitoring(500_000_000);
    assert_eq!(s.tick(&table, at(1000)), 2);
    assert_eq!(s.last_sample, Some(1_000_000_000));
    assert_eq!(s.histories.len(), 2);
    assert_eq!(s.histories[&2].identity.name, "b");
    assert_eq!(s.histories[&1].latest().unwrap().elapsed_ns, 500_000_000);
    assert_eq!(s.histories[&1].capacity(), 2);

    // A new parent makes no new process, and the history stays bounded.
    table.get_mut(&1).unwrap().parent = Some(3);
    table.remove(&2);
    assert_eq!(s.tick(&table, at(2000)), 1);
    assert_eq!(s.tick(&table, at(3000)), 1);
    assert_eq!(s.histories[&1].identity.name, "a");
    assert_eq!(s.histories[&1].len(), 2);
    assert!(s.ended.is_empty());
    assert_eq!(s.histories[&2].len(), 1);
    assert_eq!(s.histories[&1].latest().unwrap().wall_clock_ms, 3000);
}

/// A state in which pid 1 was process "a" for two passes and is "b" since.
fn recycled() -> AppState {
    let mut s = AppState::new(every(1000, 10));
    let mut table = ProcessTable::from([(1, info("a", None))]);
    s.selected_pids.insert(1);
    s.start_monitoring(0);
    s.tick(&table, at(0));
    s.tick(&table, at(1000));
    table.get_mut(&1).unwrap().start_time = 99;
    table.get_mut(&1).unwrap().name = "b".to_string();
    assert_eq!(s.tick(&table, at(2000)), 1);
    s
}

#[test]
fn recycled_pid_begins_a_history_of_its_own() {
    let s = recycled();
    assert_eq!(s.histories[&1].identity.name, "b");
    assert_eq!(s.histories[&1].identity.start_time, 99);
    assert_eq!(s.histories[&1].len(), 1);
    assert_eq!(s.histories[&1].latest().unwrap().wall_clock_ms, 2000);
    assert_eq!(s.ended.len(), 1);
    assert_eq!(s.ended[0].identity.name, "a");
    assert_eq!(s.ended[0].len(), 2);
}

#[test]
fn start_time_or_name_alone_tells_processes_apart() {
    let mut s = AppState::new(every(1000, 10));
    let mut table = ProcessTable::from([(1, info("a", None))]);
    s.selected_pids.insert(1);
    s.start_monitoring(0);
    s.tick(&table, at(0));
    table.get_mut(&1).unwrap().start_time = 1;
    s.tick(&table, at(1000));
    table.get_mut(&1).unwrap().name = "c".to_string();
    s.tick(&table, at(2000));
    assert_eq!(s.histories[&1].len(), 1);
    let gone: Vec<(&str, u64)> =
        s.ended.iter().map(|h| (h.identity.name.as_str(), h.identity.start_time)).collect();
    assert_eq!(gone, vec![("a", 0), ("a", 1)]);
}

#[test]
fn ended_histories_stay_in_plots_and_export() {
    let mut s = recycled();
    s.stop_monitoring();
    let (n, bytes) = s.export_csv(render).unwrap();
    assert_eq!(n, 3);
    let contents = String::from_utf8(bytes).unwrap();
    let names: Vec<&str> =
        contents.lines().skip(1).map(|l| l.split(',').nth(3).unwrap()).collect();
    assert_eq!(names, vec!["a", "a", "b"]);

    let names: Vec<String> =
        s.plot_lines(MetricKind::Cpu).into_iter().map(|l| l.name).collect();
    assert_eq!(names, vec!["a (pid 1)", "b (pid 1)"]);

    let series = s.aggregate_series(&HashSet::from([1]), MetricKind::Cpu);
    assert_eq!(series.len(), 3);
    s.plot_view = PlotView::Combined;
    match &s.plot_lines(MetricKind::Cpu)[0].points {
        LinePoints::Sums { buckets } => assert_eq!(buckets.len(), 3),
        LinePoints::Series { .. } => panic!("a sum is expected"),
    }

    s.start_monitoring(0);
    assert!(s.ended.is_empty());
    assert_eq!(s.export_csv(render).unwrap().0, 0);
}

#[test]
fn room_is_needed_for_new_processes_only() {
    let mut s = AppState::new(every(1000, 10));
    let mut table = ProcessTable::from([(1, info("a", None))]);
    s.selected_pids.insert(1);
    s.start_monitoring(0);
    s.tick(&table, at(0));
    s.monitor.set_config(every(1000, 0));
    assert!(s.can_record(&table));
    assert_eq!(s.tick(&table, at(1000)), 1);
    table.get_mut(&1).unwrap().start_time = 5;
    assert!(!s.can_record(&table));
    s.monitor.set_config(every(1000, 1));
    assert!(s.can_record(&table));
}

#[test]
fn histories_stay_bounded_over_many_ticks() {
    let mut s = AppState::new(every(1, 3));
    let mut table = ProcessTable::from([(1, info("a", None)), (2, info("b", None))]);
    s.selected_pids.insert(1);
    s.selected_pids.insert(2);
    s.start_monitoring(0);
    for k in 0..20 {
        table.get_mut(&2).unwrap().start_time = k / 7;
        s.tick(&table, at(k as u128));
        for (pid, h) in &s.histories {
            assert_eq!(h.identity.pid, *pid);
            assert!(h.len() <= h.capacity() && h.capacity() > 0);
        }
    }
    assert!(s.ended.iter().all(|h| h.len() <= 3));
    assert_eq!(s.ended.len(), 2);
}

#[test]
fn tick_with_nothing_wanted_records_nothing() {
    let mut s = AppState::new(every(1000, 0));
    s.start_monitoring(0);
    let table = ProcessTable::from([(1, info("a", None))]);
    assert_eq!(s.tick(&table, at(0)), 0);
    assert_eq!(s.last_sample, Some(0));
    assert_eq!(s.tracked_label(), "tracked: 0 processes");
}

#[test]
fn filtered_discovery_matches_name_and_pid_substring() {
    let mut s = AppState::new(MonitorConfig::default());
    s.discovered = vec![
        ProcessIdentity::new(1, "alpha", 0),
        ProcessIdentity::new(22, "beta", 0),
        ProcessIdentity::new(333, "gamma", 0),
    ];
    s.search_query = "bet".to_string();
    let r = s.filtered_discovery();
    assert_eq!(r.len(), 1);
    assert_eq!(r[0].pid, 22);

    s.search_query = "33".to_string();
    let r = s.filtered_discovery();
    assert_eq!(r.len(), 1);
    assert_eq!(r[0].pid, 333);

    s.search_query = "".to_string();
    let r = s.filtered_discovery();
    assert_eq!(r.len(), 3);
}

#[test]
fn filtered_discovery_is_case_insensitive() {
    let mut s = AppState::new(MonitorConfig::default());
    s.discovered = vec![ProcessIdentity::new(1, "MyApp", 0)];
    s.search_query = "myapp".to_string();
    assert_eq!(s.filtered_discovery().len(), 1);
    s.search_query = "MYAPP".to_string();
    assert_eq!(s.filtered_discovery().len(), 1);
}

#[test]
fn filtered_discovery_trims_the_query() {
    let mut s = AppState::new(MonitorConfig::default());
    s.discovered = vec![
        ProcessIdentity::new(1, "a b", 0),
        ProcessIdentity::new(2, "ab", 0),
        ProcessIdentity::new(3, "É", 0),
    ];
    s.search_query = "  A B\n".to_string();
    let pids: Vec<u32> = s.filtered_discovery().iter().map(|i| i.pid).collect();
    assert_eq!(pids, vec![1]);
    s.search_query = " \u{2003} ".to_string();
    assert_eq!(s.filtered_discovery().len(), 3);
    // Only ASCII letters are folded.
    s.search_query = "é".to_string();
    assert!(s.filtered_discovery().is_empty());
}

#[test]
fn refresh_discovery_populates_list_and_updates_timestamp() {
    let mut s = AppState::new(MonitorConfig::default());
    assert!(s.discovered.is_empty());
    assert!(s.last_discover.is_none());
    s.refresh_discovery(&live_table(), 17);
    assert!(!s.discovered.is_empty(), "discovery should find at least one process");
    assert!(s.last_discover.is_some());
    assert_eq!(s.last_discover, Some(17));
}

#[test]
fn refresh_discovery_updates_list_with_current_processes() {
    let mut s = AppState::new(MonitorConfig::default());
    s.refresh_discovery(&live_table(), 0);
    let self_pid = sysinfo::get_current_pid().unwrap().as_u32();
    assert!(
        s.discovered.iter().any(|p| p.pid == self_pid),
        "refresh should include the test process itself"
    );
}

#[test]
fn repeated_refresh_updates_timestamp() {
    let mut s = AppState::new(MonitorConfig::default());
    let table = live_table();
    s.refresh_discovery(&table, 0);
    let first = s.last_discover.unwrap();
    s.refresh_discovery(&table, Duration::from_millis(10).as_nanos());
    let second = s.last_discover.unwrap();
    assert!(second > first, "second refresh should have a later timestamp");
}

fn make_tree_state() -> AppState {
    let mut s = AppState::new(MonitorConfig::default());
    // Build a small tree:
    //   init (pid 1)
    //   ├── bash (pid 10, parent 1)
    //   │   └── python (pid 100, parent 10)
    //   └── cron (pid 20, parent 1)
    //   systemd (pid 2), a root with no children
    s.discovered = vec![
        ProcessIdentity::new(1, "init", 0),
        ProcessIdentity::new(10, "bash", 0).with_parent(Some(1)),
        ProcessIdentity::new(100, "python", 0).with_parent(Some(10)),
        ProcessIdentity::new(20, "cron", 0).with_parent(Some(1)),
        ProcessIdentity::new(2, "systemd", 0),
    ];
    s
}

#[test]
fn tree_view_defaults_to_off() {
    let s = AppState::new(MonitorConfig::default());
    assert!(!s.tree_view);
}

#[test]
fn build_process_tree_roots_have_depth_zero() {
    let s = make_tree_state();
    let tree = s.build_process_tree();
    let roots: Vec<_> = tree.iter().filter(|(d, _)| *d == 0).collect();
    let root_pids: HashSet<u32> = roots.iter().map(|(_, id)| id.pid).collect();
    assert!(root_pids.contains(&1), "init should be a root");
    assert!(root_pids.contains(&2), "systemd should be a root");
    assert!(!root_pids.contains(&10), "bash is a child, not a root");
}

#[test]
fn build_process_tree_children_have_correct_depth() {
    let s = make_tree_state();
    let tree = s.build_process_tree();
    let bash = tree.iter().find(|(_, id)| id.pid == 10).unwrap();
    assert_eq!(bash.0, 1, "bash should be at depth 1");
    let python = tree.iter().find(|(_, id)| id.pid == 100).unwrap();
    assert_eq!(python.0, 2, "python should be at depth 2");
    let cron = tree.iter().find(|(_, id)| id.pid == 20).unwrap();
    assert_eq!(cron.0, 1, "cron should be at depth 1");
}

#[test]
fn build_process_tree_contains_all_discovered() {
    let s = make_tree_state();
    let tree = s.build_process_tree();
    assert_eq!(tree.len(), s.discovered.len());
    let tree_pids: HashSet<u32> = tree.iter().map(|(_, id)| id.pid).collect();
    for d in &s.discovered {
        assert!(tree_pids.contains(&d.pid));
    }
}

#[test]
fn build_process_tree_parent_appears_before_children() {
    let s = make_tree_state();
    let tree = s.build_process_tree();
    let positions: HashMap<u32, usize> = tree
        .iter()
        .enumerate()
        .map(|(i, (_, id))| (id.pid, i))
        .collect();
    // init (1) before bash (10) before python (100)
    assert!(positions[&1] < positions[&10]);
    assert!(positions[&10] < positions[&100]);
    // init (1) before cron (20)
    assert!(positions[&1] < positions[&20]);
}

#[test]
fn build_process_tree_with_search_falls_back_to_flat() {
    let mut s = make_tree_state();
    s.search_query = "python".to_string();
    let tree = s.build_process_tree();
    assert_eq!(tree.len(), 1);
    assert_eq!(tree[0].0, 0, "filtered results should be at depth 0");
    assert_eq!(tree[0].1.pid, 100);
}

#[test]
fn build_process_tree_empty_discovery_returns_empty() {
    let s = AppState::new(MonitorConfig::default());
    let tree = s.build_process_tree();
    assert!(tree.is_empty());
}

#[test]
fn build_process_tree_orphan_parent_becomes_root() {
    let mut s = AppState::new(MonitorConfig::default());
    // Parent pid 999 is not in the discovery list.
    s.discovered = vec![ProcessIdentity::new(5, "orphan", 0).with_parent(Some(999))];
    let tree = s.build_process_tree();
    assert_eq!(tree.len(), 1);
    assert_eq!(tree[0].0, 0, "orphan with missing parent should be a root");
}

#[test]
fn build_process_tree_children_sorted_alphabetically() {
    let mut s = AppState::new(MonitorConfig::default());
    s.discovered = vec![
        ProcessIdentity::new(1, "parent", 0),
        ProcessIdentity::new(3, "zebra", 0).with_parent(Some(1)),
        ProcessIdentity::new(2, "alpha", 0).with_parent(Some(1)),
    ];
    let tree = s.build_process_tree();
    let children: Vec<&str> = tree
        .iter()
        .filter(|(d, _)| *d == 1)
        .map(|(_, id)| id.name.as_str())
        .collect();
    assert_eq!(children, vec!["alpha", "zebra"]);
}

#[test]
fn build_process_tree_order_is_depth_first() {
    let s = make_tree_state();
    let rows: Vec<(usize, u32)> =
        s.build_process_tree().iter().map(|(d, id)| (*d, id.pid)).collect();
    assert_eq!(rows, vec![(0, 1), (1, 10), (2, 100), (1, 20), (0, 2)]);
}

#[test]
fn siblings_are_alphabetical_and_parents_are_nearest() {
    let mut s = AppState::new(MonitorConfig::default());
    let id = |pid: u32, name: &str, parent: Option<u32>| {
        ProcessIdentity::new(pid, name, 0).with_parent(parent)
    };
    s.discovered = vec![
        id(5, "zeta", None),
        id(6, "Beta", Some(5)),
        id(7, "alpha", Some(5)),
        id(8, "x", Some(6)),
        id(9, "eta", None),
        id(10, "y", Some(7)),
    ];
    let rows: Vec<(usize, u32)> =
        s.build_process_tree().iter().map(|(d, id)| (*d, id.pid)).collect();
    assert_eq!(rows, vec![(0, 5), (1, 7), (2, 10), (1, 6), (2, 8), (0, 9)]);
    for x in 0..rows.len() {
        if rows[x].0 > 0 {
            let y = (0..x).rev().find(|y| rows[*y].0 + 1 == rows[x].0).unwrap();
            let child = s.discovered.iter().find(|i| i.pid == rows[x].1).unwrap();
            assert_eq!(child.parent_pid, Some(rows[y].1));
        }
    }
}

#[test]
fn process_that_is_its_own_parent_has_no_row() {
    let mut s = AppState::new(MonitorConfig::default());
    s.discovered = vec![
        ProcessIdentity::new(7, "self", 0).with_parent(Some(7)),
        ProcessIdentity::new(8, "root", 0),
    ];
    let rows: Vec<u32> = s.build_process_tree().iter().map(|(_, id)| id.pid).collect();
    assert_eq!(rows, vec![8]);
}

#[test]
fn process_rows_follow_the_view() {
    let mut s = make_tree_state();
    let rows = s.process_rows();
    let pids: Vec<u32> = rows.iter().map(|r| r.0).collect();
    assert_eq!(pids, vec![1, 10, 100, 20, 2]);
    assert_eq!(rows[2].1, "python (pid 100)");

    s.tree_view = true;
    let texts: Vec<String> = s.process_rows().into_iter().map(|r| r.1).collect();
    assert_eq!(
        texts,
        vec![
            "init (pid 1)",
            "  └ bash (pid 10)",
            "    └ python (pid 100)",
            "  └ cron (pid 20)",
            "systemd (pid 2)",
        ]
    );

    s.search_query = "c".to_string();
    let texts: Vec<String> = s.process_rows().into_iter().map(|r| r.1).collect();
    assert_eq!(texts, vec!["cron (pid 20)"]);
    assert_eq!(row_label(0, &s.discovered[0]), "init (pid 1)");
}

#[test]
fn ticking_and_unticking() {
    let mut s = AppState::new(MonitorConfig::default());
    s.set_selected(5, true);
    s.set_selected(6, true);
    s.set_selected(5, false);
    s.set_selected(9, false);
    assert_eq!(s.selected_pids, HashSet::from([6]));
}

#[test]
fn individual_plot_has_a_line_per_process() {
    let mut s = AppState::new(MonitorConfig::default());
    push_sample(&mut s, 1, "a", 0.0, 10.0);
    push_sample(&mut s, 1, "a", 1.0, 12.0);
    push_sample(&mut s, 2, "b", 0.0, 20.0);
    let mut lines = s.plot_lines(MetricKind::Cpu);
    lines.sort_by(|x, y| x.name.cmp(&y.name));
    let names: Vec<&str> = lines.iter().map(|l| l.name.as_str()).collect();
    assert_eq!(names, vec!["a (pid 1)", "b (pid 2)"]);
    match &lines[0].points {
        LinePoints::Series { points } => {
            assert_eq!(points.len(), 2);
            assert_eq!(reading(&points[1].value), 12.0);
            assert_eq!(points[1].elapsed_ns, 1_000_000_000);
        }
        LinePoints::Sums { .. } => panic!("one process is no sum"),
    }
}

#[test]
fn combined_plot_has_one_line() {
    let mut s = AppState::new(MonitorConfig::default());
    s.plot_view = PlotView::Combined;
    push_sample(&mut s, 1, "a", 0.0, 10.0);
    push_sample(&mut s, 2, "b", 0.0, 20.0);
    let lines = s.plot_lines(MetricKind::Cpu);
    assert_eq!(lines.len(), 1);
    assert_eq!(lines[0].name, "ALL");
    match &lines[0].points {
        LinePoints::Sums { buckets } => assert_eq!(sum(&buckets[0]), 30.0),
        LinePoints::Series { .. } => panic!("a sum is expected"),
    }
    let empty = AppState { histories: HashMap::new(), ..s };
    assert_eq!(empty.plot_lines(MetricKind::Cpu).len(), 1);
}

#[test]
fn grouped_plot_shows_visible_groups() {
    let mut s = AppState::new(MonitorConfig::default());
    s.plot_view = PlotView::Grouped;
    push_sample(&mut s, 1, "a", 0.0, 10.0);
    push_sample(&mut s, 2, "b", 0.0, 20.0);
    s.set_selected(1, true);
    s.create_group("one").unwrap();
    s.create_group("hidden").unwrap();
    s.set_selected(2, true);
    s.create_group("both").unwrap();
    s.groups[1].visible = false;
    let lines = s.plot_lines(MetricKind::Cpu);
    let shown: Vec<(&str, f64)> = lines
        .iter()
        .map(|l| match &l.points {
            LinePoints::Sums { buckets } => (l.name.as_str(), sum(&buckets[0])),
            LinePoints::Series { .. } => panic!("a sum is expected"),
        })
        .collect();
    assert_eq!(shown, vec![("one", 10.0), ("both", 30.0)]);
}

#[test]
fn plot_ids_name_the_metric() {
    assert_eq!(plot_id(MetricKind::Cpu), "plot_cpu");
    assert_eq!(plot_id(MetricKind::Network), "plot_network");
}

#[test]
fn tracked_label_counts_histories() {
    let mut s = AppState::new(MonitorConfig::default());
    push_sample(&mut s, 1, "a", 0.0, 10.0);
    push_sample(&mut s, 2, "b", 0.0, 20.0);
    assert_eq!(s.tracked_label(), "tracked: 2 processes");
}

#[test]
fn new_app_lists_the_processes() {
    let table = ProcessTable::from([(1, info("a", None)), (2, info("B", Some(1)))]);
    let app = ZoioApp::new(MonitorConfig::default(), &table, 5);
    let names: Vec<&str> = app.state.discovered.iter().map(|i| i.name.as_str()).collect();
    assert_eq!(names, vec!["a", "B"]);
    assert_eq!(app.state.last_discover, Some(5));
    assert_eq!(app.discovery_interval_ns, Duration::from_secs(3).as_nanos());
    assert!(app.last_error.is_none());
}

#[test]
fn discovery_is_due_after_its_interval() {
    let mut app = ZoioApp::new(MonitorConfig::default(), &ProcessTable::new(), 0);
    assert!(!app.discovery_due(2_999_999_999));
    assert!(app.discovery_due(3_000_000_000));
    app.state.last_discover = None;
    assert!(app.discovery_due(0));
}

#[test]
fn pending_filter_is_added_or_refused() {
    let mut app = ZoioApp::new(MonitorConfig::default(), &ProcessTable::new(), 0);
    app.state.pending_filter_pattern = " ".to_string();
    app.add_pending_filter();
    assert_eq!(app.last_error.as_deref(), Some("pattern must not be empty"));
    assert_eq!(app.state.pending_filter_pattern, " ");
    app.state.pending_filter_pattern = "node".to_string();
    app.add_pending_filter();
    assert_eq!(app.last_error, None);
    assert_eq!(app.state.pending_filter_pattern, "");
    assert_eq!(app.state.filters.filters[0].pattern(), "node");
}

#[test]
fn pending_group_is_created_or_refused() {
    let mut app = ZoioApp::new(MonitorConfig::default(), &ProcessTable::new(), 0);
    app.state.set_selected(4, true);
    app.state.pending_group_name = "g".to_string();
    app.create_pending_group();
    assert_eq!(app.last_error, None);
    assert_eq!(app.state.pending_group_name, "");
    assert_eq!(app.state.groups.len(), 1);
    app.state.pending_group_name = "g".to_string();
    app.create_pending_group();
    assert_eq!(app.last_error.as_deref(), Some("group 'g' already exists"));
    assert_eq!(app.state.pending_group_name, "g");
    assert_eq!(app.state.groups.len(), 1);
}

#[test]
fn export_outcome_is_shown() {
    let mut app = ZoioApp::new(MonitorConfig::default(), &ProcessTable::new(), 0);
    app.finish_export(Err("disk full".to_string()));
    assert_eq!(app.last_error.as_deref(), Some("export failed: disk full"));
    assert_eq!(app.state.status, "idle");
    app.finish_export(Ok(12));
    assert_eq!(app.state.status, "exported 12 rows");
    assert_eq!(app.last_error, None);
}
