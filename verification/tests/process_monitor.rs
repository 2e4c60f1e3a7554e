use std::collections::HashSet;
use std::time::Duration;

use sysinfo::{ProcessRefreshKind, ProcessesToUpdate, RefreshKind, System};
use zoio::metrics::Rate;
use zoio::process_filter::{FilterSet, ProcessFilter};
use zoio::process_monitor::{
    matched_pids, rate_between, select, Clock, IoCounters, MonitorConfig, ProcessInfo,
    ProcessMonitor, ProcessTable,
};

/// The processes that run now.
fn live_table() -> ProcessTable {
    let refresh = RefreshKind::new().with_processes(ProcessRefreshKind::everything());
    let mut system = System::new_with_specifics(refresh);
    system.refresh_processes(ProcessesToUpdate::All, true);
    let mut table = ProcessTable::new();
    for (pid, p) in system.processes() {
        let io = p.disk_usage();
        table.insert(
            pid.as_u32(),
            ProcessInfo {
                name: p.name().to_string_lossy().to_string(),
                cmd: p.cmd().iter().map(|s| s.to_string_lossy().to_string()).collect(),
                parent: p.parent().map(|p| p.as_u32()),
                start_time: p.start_time(),
                cpu_percent_bits: p.cpu_usage().to_bits(),
                memory_bytes: p.memory(),
                disk_read_bytes: io.total_read_bytes,
                disk_written_bytes: io.total_written_bytes,
            },
        );
    }
    table
}

fn self_pid() -> u32 {
    sysinfo::get_current_pid().unwrap().as_u32()
}

fn at(ms: u128) -> Clock {
    Clock { now_ns: ms * 1_000_000, wall_clock_ms: 1_700_000_000_000 + ms as i64 }
}

fn info(name: &str, cmd: &[&str], parent: Option<u32>) -> ProcessInfo {
    ProcessInfo {
        name: name.to_string(),
        cmd: cmd.iter().map(|s| s.to_string()).collect(),
        parent,
        start_time: 11,
        cpu_percent_bits: 2.5f32.to_bits(),
        memory_bytes: 4096,
        disk_read_bytes: 0,
        disk_written_bytes: 0,
    }
}

/// A small family: 1 -> 10 -> 100, 1 -> 20, and 2 alone.
fn family() -> ProcessTable {
    let mut table = ProcessTable::new();
    table.insert(1, info("init", &["/sbin/init"], None));
    table.insert(10, info("bash", &["bash", "-l"], Some(1)));
    table.insert(100, info("python3", &["python3", "run.py", "--fast"], Some(10)));
    table.insert(20, info("Cron", &["cron"], Some(1)));
    table.insert(2, info("kthreadd", &[], None));
    table
}

fn set(pids: &[u32]) -> HashSet<u32> {
    pids.iter().copied().collect()
}

#[test]
fn monitor_config_defaults_are_sensible() {
    let c = MonitorConfig::default();
    assert!(c.sample_interval_ns >= Duration::from_millis(100).as_nanos());
    assert!(c.history_capacity >= 60);
}

#[test]
fn monitor_config_default_values() {
    let c = MonitorConfig::default();
    assert_eq!(c.sample_interval_ns, Duration::from_millis(1000).as_nanos());
    assert_eq!(c.history_capacity, 3600);
}

#[test]
fn start_and_stop_toggle_running_flag() {
    let mut m = ProcessMonitor::new(MonitorConfig::default());
    assert!(!m.is_running());
    m.start(0);
    assert!(m.is_running());
    m.stop();
    assert!(!m.is_running());
}

#[test]
fn discover_returns_at_least_the_current_process() {
    let m = ProcessMonitor::new(MonitorConfig::default());
    let ids = m.discover(&live_table());
    assert!(!ids.is_empty(), "process list should not be empty");
    let self_pid = self_pid();
    assert!(
        ids.iter().any(|i| i.pid == self_pid),
        "discovery should include the test process itself (pid {self_pid})"
    );
}

#[test]
fn discover_results_sorted_by_name() {
    let m = ProcessMonitor::new(MonitorConfig::default());
    for table in [live_table(), family()] {
        let ids = m.discover(&table);
        let names: Vec<String> = ids.iter().map(|i| i.name.to_ascii_lowercase()).collect();
        let mut sorted = names.clone();
        sorted.sort();
        assert_eq!(names, sorted, "discover() must return name-sorted list");
    }
}

#[test]
fn discover_lists_each_process_once() {
    let m = ProcessMonitor::new(MonitorConfig::default());
    let ids = m.discover(&family());
    let listed: Vec<(u32, &str, Option<u32>, u64)> =
        ids.iter().map(|i| (i.pid, i.name.as_str(), i.parent_pid, i.start_time)).collect();
    assert_eq!(
        listed,
        vec![
            (10, "bash", Some(1), 11),
            (20, "Cron", Some(1), 11),
            (1, "init", None, 11),
            (2, "kthreadd", None, 11),
            (100, "python3", Some(10), 11),
        ]
    );
    assert!(m.discover(&ProcessTable::new()).is_empty());
}

#[test]
fn sample_returns_only_explicitly_selected_pid_with_no_filters() {
    let mut m = ProcessMonitor::new(MonitorConfig::default());
    m.start(0);
    let self_pid = self_pid();
    let mut explicit = HashSet::new();
    explicit.insert(self_pid);
    let filters = FilterSet::new();
    let result = m.sample(&live_table(), at(0), &filters, &explicit, false);
    assert!(!result.is_empty(), "sample should return at least self");
    assert!(result.iter().any(|s| s.identity.pid == self_pid));
    assert_eq!(result.len(), 1);
}

#[test]
fn sample_uses_filters_to_select_processes() {
    let mut m = ProcessMonitor::new(MonitorConfig::default());
    m.start(0);
    let table = live_table();
    // First, discover a real process name to build a matching filter.
    let ids = m.discover(&table);
    let self_pid = self_pid();
    let self_name = ids
        .iter()
        .find(|i| i.pid == self_pid)
        .map(|i| i.name.clone())
        .expect("self must be discoverable");

    // Build a regex that matches the self process by an anchored name.
    let mut fs = FilterSet::new();
    let escaped = regex::escape(&self_name);
    let mut filt = ProcessFilter::new(&format!("^{escaped}$")).unwrap();
    filt.include_children = false;
    fs.push(filt);

    let result = m.sample(&table, at(0), &fs, &HashSet::new(), false);
    assert!(
        result.iter().any(|s| s.identity.pid == self_pid),
        "filtering by self process name must include self; got {} results",
        result.len()
    );
}

#[test]
fn disk_rate_is_zero_on_first_sample() {
    let mut m = ProcessMonitor::new(MonitorConfig::default());
    m.start(0);
    let mut explicit = HashSet::new();
    explicit.insert(self_pid());
    let r = m.sample(&live_table(), at(0), &FilterSet::new(), &explicit, false);
    let s = r.iter().find(|p| p.identity.pid == self_pid()).unwrap();
    assert_eq!(s.sample.disk.bytes, 0, "first sample cannot compute a rate");
    assert!(s.sample.disk.over_ns > 0);
}

#[test]
fn sampling_without_start_still_works_with_zero_elapsed() {
    let mut m = ProcessMonitor::new(MonitorConfig::default());
    // Not started: elapsed should be 0.
    let mut explicit = HashSet::new();
    explicit.insert(self_pid());
    let r = m.sample(&live_table(), at(5000), &FilterSet::new(), &explicit, false);
    let s = r.iter().find(|p| p.identity.pid == self_pid()).unwrap();
    assert_eq!(s.sample.elapsed_ns, 0);
}

#[test]
fn sample_ignores_nonexistent_explicit_pids() {
    let mut m = ProcessMonitor::new(MonitorConfig::default());
    m.start(0);
    let mut explicit = HashSet::new();
    // A PID that almost certainly does not exist.
    explicit.insert(u32::MAX - 1);
    let r = m.sample(&live_table(), at(0), &FilterSet::new(), &explicit, false);
    assert!(r.is_empty(), "nonexistent pid must be filtered out");
}

#[test]
fn set_config_replaces_config() {
    let mut m = ProcessMonitor::new(MonitorConfig::default());
    let new_cfg = MonitorConfig {
        sample_interval_ns: Duration::from_millis(500).as_nanos(),
        history_capacity: 120,
    };
    m.set_config(new_cfg.clone());
    assert_eq!(m.config().sample_interval_ns, new_cfg.sample_interval_ns);
    assert_eq!(m.config().history_capacity, new_cfg.history_capacity);
}

#[test]
fn selection_follows_children_only_when_asked() {
    let table = family();
    let none = set(&[]);
    assert_eq!(select(&table, &none, &set(&[1]), false), set(&[1]));
    assert_eq!(select(&table, &none, &set(&[1]), true), set(&[1, 10, 20, 100]));
    assert_eq!(select(&table, &set(&[10]), &set(&[2]), true), set(&[2, 10, 100]));
    assert_eq!(select(&table, &set(&[10]), &set(&[2]), false), set(&[2, 10]));
    assert_eq!(select(&table, &set(&[100]), &none, true), set(&[100]));
    assert_eq!(select(&table, &none, &none, true), none);
    assert_eq!(select(&table, &set(&[999]), &set(&[998]), true), none);
}

#[test]
fn selection_copes_with_parents_in_a_circle() {
    let mut table = ProcessTable::new();
    table.insert(1, info("a", &[], Some(2)));
    table.insert(2, info("b", &[], Some(1)));
    table.insert(3, info("c", &[], Some(3)));
    table.insert(4, info("d", &[], Some(2)));
    assert_eq!(select(&table, &set(&[]), &set(&[1]), true), set(&[1, 2, 4]));
    assert_eq!(select(&table, &set(&[]), &set(&[3]), true), set(&[3]));
}

#[test]
fn selection_is_closed_under_children() {
    let table = family();
    for seed in [1u32, 2, 10, 20, 100] {
        let chosen = select(&table, &set(&[seed]), &set(&[]), true);
        assert!(chosen.contains(&seed));
        for (pid, p) in &table {
            if let Some(parent) = p.parent {
                assert!(!chosen.contains(&parent) || chosen.contains(pid));
            }
        }
    }
}

#[test]
fn filters_match_name_and_joined_command_line() {
    let table = family();
    let mut filters = FilterSet::new();
    filters.push(ProcessFilter::new("^python3 run\\.py --fast$").unwrap());
    assert_eq!(matched_pids(&table, &filters), set(&[100]));
    filters.push(ProcessFilter::new("^CRON$").unwrap());
    assert_eq!(matched_pids(&table, &filters), set(&[20, 100]));
    assert_eq!(matched_pids(&table, &FilterSet::new()), set(&[]));
    assert_eq!(table[&100].cmdline(), "python3 run.py --fast");
    assert_eq!(table[&2].cmdline(), "");
    assert_eq!(table[&20].cmdline(), "cron");
}

#[test]
fn sampled_fields_come_from_the_table() {
    let mut m = ProcessMonitor::new(MonitorConfig::default());
    m.start(1_000_000);
    let r = m.sample(&family(), at(1500), &FilterSet::new(), &set(&[100, 10]), false);
    let pids: Vec<u32> = r.iter().map(|s| s.identity.pid).collect();
    assert_eq!(pids, vec![10, 100]);
    let s = &r[1];
    assert_eq!(s.identity.name, "python3");
    assert_eq!(s.identity.parent_pid, Some(10));
    assert_eq!(s.identity.start_time, 11);
    assert_eq!(s.cmdline, "python3 run.py --fast");
    assert_eq!(s.sample.elapsed_ns, 1_499_000_000);
    assert_eq!(s.sample.wall_clock_ms, 1_700_000_001_500);
    assert_eq!(f32::from_bits(s.sample.cpu_percent_bits), 2.5);
    assert_eq!(s.sample.memory_bytes, 4096);
    assert_eq!(s.sample.net, Rate::zero());
}

#[test]
fn either_a_filter_or_the_flag_brings_in_children() {
    let table = family();
    let mut filters = FilterSet::new();
    let mut f = ProcessFilter::new("^bash$").unwrap();
    f.include_children = false;
    filters.push(f);
    let mut m = ProcessMonitor::new(MonitorConfig::default());
    let pids = |r: Vec<zoio::process_monitor::SampledProcess>| -> Vec<u32> {
        r.iter().map(|s| s.identity.pid).collect()
    };
    assert_eq!(pids(m.sample(&table, at(0), &filters, &set(&[]), false)), vec![10]);
    assert_eq!(pids(m.sample(&table, at(0), &filters, &set(&[]), true)), vec![10, 100]);
    filters.filters[0].include_children = true;
    // A filter that wants children brings in those of ticked processes too.
    assert_eq!(
        pids(m.sample(&table, at(0), &filters, &set(&[1]), false)),
        vec![1, 10, 20, 100]
    );
}

#[test]
fn disk_rate_is_growth_over_time() {
    let mut m = ProcessMonitor::new(MonitorConfig::default());
    m.start(0);
    let mut table = family();
    m.sample(&table, at(1000), &FilterSet::new(), &set(&[10]), false);
    let p = table.get_mut(&10).unwrap();
    p.disk_read_bytes = 3000;
    p.disk_written_bytes = 1096;
    let r = m.sample(&table, at(3000), &FilterSet::new(), &set(&[10]), false);
    assert_eq!(r[0].sample.disk, Rate { bytes: 4096, over_ns: 2_000_000_000 });
    // The counters of the last pass count, not those of the first.
    let r = m.sample(&table, at(4000), &FilterSet::new(), &set(&[10]), false);
    assert_eq!(r[0].sample.disk, Rate { bytes: 0, over_ns: 1_000_000_000 });
}

#[test]
fn rates_between_counters() {
    let c = |read: u64, written: u64, ns: u128| IoCounters {
        disk_read_bytes: read,
        disk_written_bytes: written,
        at_ns: ns,
    };
    assert_eq!(rate_between(None, c(5, 5, 5)), Rate::zero());
    // A counter that fell counts as no growth.
    assert_eq!(
        rate_between(Some(c(100, 10, 0)), c(50, 30, 1_000_000)),
        Rate { bytes: 20, over_ns: 1_000_000 }
    );
    // No less than a microsecond goes by.
    assert_eq!(rate_between(Some(c(0, 0, 7)), c(9, 0, 7)), Rate { bytes: 9, over_ns: 1000 });
    assert_eq!(rate_between(Some(c(0, 0, 0)), c(9, 0, 999)).over_ns, 1000);
    assert_eq!(rate_between(Some(c(0, 0, 0)), c(9, 0, 1001)).over_ns, 1001);
    assert_eq!(
        rate_between(Some(c(0, 0, 0)), c(u64::MAX, u64::MAX, 5000)).bytes,
        2 * (u64::MAX as u128)
    );
}

#[test]
fn processes_left_out_of_a_pass_are_forgotten() {
    let mut m = ProcessMonitor::new(MonitorConfig::default());
    m.start(0);
    let mut table = family();
    m.sample(&table, at(0), &FilterSet::new(), &set(&[10]), false);
    m.sample(&table, at(1000), &FilterSet::new(), &set(&[20]), false);
    table.get_mut(&10).unwrap().disk_read_bytes = 77;
    let r = m.sample(&table, at(2000), &FilterSet::new(), &set(&[10]), false);
    assert_eq!(r[0].sample.disk, Rate::zero());
}

#[test]
fn recycled_pid_is_not_measured_against_another_process() {
    let mut m = ProcessMonitor::new(MonitorConfig::default());
    m.start(0);
    let mut table = family();
    table.get_mut(&10).unwrap().disk_read_bytes = 1000;
    m.sample(&table, at(0), &FilterSet::new(), &set(&[10]), false);
    let p = table.get_mut(&10).unwrap();
    p.start_time = 12;
    p.disk_read_bytes = 5000;
    let r = m.sample(&table, at(1000), &FilterSet::new(), &set(&[10]), false);
    assert_eq!(r[0].sample.disk, Rate::zero());
    assert_eq!(r[0].identity.start_time, 12);
    // From then on it is measured against itself; its parent does not matter.
    let p = table.get_mut(&10).unwrap();
    p.disk_read_bytes = 5600;
    p.parent = Some(2);
    let r = m.sample(&table, at(2000), &FilterSet::new(), &set(&[10]), false);
    assert_eq!(r[0].sample.disk, Rate { bytes: 600, over_ns: 1_000_000_000 });
}

#[test]
fn restarting_forgets_the_counters_and_the_time() {
    let mut m = ProcessMonitor::new(MonitorConfig::default());
    m.start(0);
    let mut table = family();
    m.sample(&table, at(1000), &FilterSet::new(), &set(&[10]), false);
    m.start(2_000_000_000);
    table.get_mut(&10).unwrap().disk_read_bytes = 77;
    let r = m.sample(&table, at(2500), &FilterSet::new(), &set(&[10]), false);
    assert_eq!(r[0].sample.disk, Rate::zero());
    assert_eq!(r[0].sample.elapsed_ns, 500_000_000);
}

#[test]
fn elapsed_time_does_not_go_below_zero() {
    let mut m = ProcessMonitor::new(MonitorConfig::default());
    m.start(9_000_000_000);
    let r = m.sample(&family(), at(1), &FilterSet::new(), &set(&[1]), false);
    assert_eq!(r[0].sample.elapsed_ns, 0);
}

#[test]
fn elapsed_time_grows_between_passes() {
    let mut m = ProcessMonitor::new(MonitorConfig::default());
    m.start(0);
    let mut last = 0;
    for ms in [10u128, 10, 250, 251] {
        let r = m.sample(&family(), at(ms), &FilterSet::new(), &set(&[2]), false);
        assert!(r[0].sample.elapsed_ns >= last);
        last = r[0].sample.elapsed_ns;
    }
    assert_eq!(last, 251_000_000);
}

#[test]
fn passes_over_the_same_table_agree() {
    let pass = || {
        let mut m = ProcessMonitor::new(MonitorConfig::default());
        m.start(0);
        m.sample(&family(), at(500), &FilterSet::new(), &set(&[1, 2]), true)
    };
    let (a, b) = (pass(), pass());
    assert_eq!(a.len(), 5);
    assert_eq!(b.len(), 5);
    for (x, y) in a.iter().zip(&b) {
        let x = x.clone();
        assert_eq!(x.identity, y.identity);
        assert_eq!(x.sample, y.sample);
        assert_eq!(x.cmdline, y.cmdline);
    }
}
