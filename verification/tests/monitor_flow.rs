//! End-to-end tests driving the monitor -> history -> CSV pipeline with a
//! process table in which sleepers run.

use std::collections::HashSet;
use std::time::Duration;

use zoio::app::AppState;
use zoio::metrics::{MetricKind, Number, Reading};
use zoio::process_filter::ProcessFilter;
use zoio::process_monitor::{Clock, MonitorConfig, ProcessInfo, ProcessTable};

fn sleeper(secs: u64) -> ProcessInfo {
    ProcessInfo {
        name: "sleep".to_string(),
        cmd: vec!["sleep".to_string(), secs.to_string()],
        parent: Some(1),
        start_time: 1_700_000_000,
        cpu_percent_bits: 0.0f32.to_bits(),
        memory_bytes: 1_900_544,
        disk_read_bytes: 0,
        disk_written_bytes: 0,
    }
}

fn shell() -> ProcessInfo {
    ProcessInfo { name: "sh".to_string(), cmd: vec!["sh".to_string()], parent: None, ..sleeper(0) }
}

fn config(ms: u64) -> MonitorConfig {
    MonitorConfig {
        sample_interval_ns: Duration::from_millis(ms).as_nanos(),
        history_capacity: 60,
    }
}

/// Drive several ticks, 120 ms apart.
fn drive(state: &mut AppState, table: &ProcessTable, ticks: u64) {
    for k in 0..ticks {
        state.last_sample = None; // let the tick through
        let ms = 120 * k;
        state.tick(
            table,
            Clock {
                now_ns: Duration::from_millis(ms).as_nanos(),
                wall_clock_ms: 1_700_000_000_000 + ms as i64,
            },
        );
    }
}

fn number(n: Number) -> f64 {
    match n {
        Number::Seconds { ns } => ns as f64 / 1e9,
        Number::Percent { bits } => f32::from_bits(bits) as f64,
        Number::Bytes { bytes } => bytes as f64,
        Number::PerSecond { rate } => rate.bytes as f64 / (rate.over_ns as f64 / 1e9),
    }
}

fn reading(r: &Reading) -> f64 {
    number(r.number) / r.unit as f64
}

fn render(n: Number, decimals: usize) -> String {
    format!("{:.*}", decimals, number(n))
}

#[test]
fn discovery_finds_spawned_child_by_pid() {
    let target_pid = 4242;
    let table = ProcessTable::from([(1, shell()), (target_pid, sleeper(5))]);
    let mut state = AppState::new(config(250));
    state.refresh_discovery(&table, 0);
    assert!(
        state.discovered.iter().any(|p| p.pid == target_pid),
        "spawned pid {target_pid} must appear in discovery list"
    );
}

#[test]
fn explicit_selection_records_samples_for_target() {
    let target_pid = 4242;
    let table = ProcessTable::from([(1, shell()), (target_pid, sleeper(5))]);
    let mut state = AppState::new(config(100));
    state.refresh_discovery(&table, 0);
    state.selected_pids.insert(target_pid);
    state.start_monitoring(0);
    drive(&mut state, &table, 5);
    state.stop_monitoring();

    let hist = state
        .histories
        .get(&target_pid)
        .expect("target process must have a history entry");
    assert!(hist.len() >= 2, "expected at least 2 samples for target, got {}", hist.len());
    assert_eq!(hist.len(), 5);
}

#[test]
fn regex_filter_selects_by_process_name() {
    let target_pid = 4242;
    let table = ProcessTable::from([(1, shell()), (target_pid, sleeper(5))]);
    let mut state = AppState::new(config(100));
    state.filters.push(ProcessFilter::new("^sleep$").unwrap());
    state.start_monitoring(0);
    drive(&mut state, &table, 5);
    state.stop_monitoring();

    assert!(
        state.histories.contains_key(&target_pid),
        "regex filter should have picked up the spawned child (pid {target_pid})"
    );
    assert_eq!(state.histories.len(), 1);
}

#[test]
fn end_to_end_monitor_then_csv_export() {
    let target_pid = 4242;
    let table = ProcessTable::from([(1, shell()), (target_pid, sleeper(5))]);
    let mut state = AppState::new(config(100));
    state.selected_pids.insert(target_pid);
    state.start_monitoring(0);
    drive(&mut state, &table, 4);
    state.stop_monitoring();

    let (rows, bytes) = state.export_csv(render).unwrap();
    assert!(rows >= 2);

    let contents = String::from_utf8(bytes).unwrap();
    let lines: Vec<&str> = contents.lines().collect();
    assert!(lines[0].starts_with("timestamp_ms,"));
    // Every data line should reference the target pid in column 3.
    let target_str = target_pid.to_string();
    let matches = lines
        .iter()
        .skip(1)
        .filter(|l| l.split(',').nth(2) == Some(target_str.as_str()))
        .count();
    assert!(matches >= 2, "expected >=2 rows for target pid {target_pid}, found {matches}");
    assert_eq!(matches, rows);
}

#[test]
fn combined_aggregate_series_has_one_point_per_bucket() {
    let (pid1, pid2) = (4242, 4243);
    let table = ProcessTable::from([(1, shell()), (pid1, sleeper(5)), (pid2, sleeper(5))]);
    let mut state = AppState::new(config(100));
    state.selected_pids.insert(pid1);
    state.selected_pids.insert(pid2);
    state.start_monitoring(0);
    drive(&mut state, &table, 4);
    state.stop_monitoring();

    let mut pids = HashSet::new();
    pids.insert(pid1);
    pids.insert(pid2);
    let mem = state.aggregate_series(&pids, MetricKind::Memory);
    assert!(!mem.is_empty());
    // Aggregated memory must be >= each individual history's last point.
    let last: f64 = mem.last().unwrap().readings.iter().map(reading).sum();
    assert!(last >= 0.0);
    assert_eq!(mem.len(), 4);
    assert_eq!(last, 2.0 * 1_900_544.0 / 1_048_576.0);
}

#[test]
fn stopping_preserves_histories_and_allows_export() {
    let pid = 4242;
    let table = ProcessTable::from([(1, shell()), (pid, sleeper(5))]);
    let mut state = AppState::new(config(100));
    state.selected_pids.insert(pid);
    state.start_monitoring(0);
    drive(&mut state, &table, 3);
    let before = state.histories.get(&pid).unwrap().len();
    state.stop_monitoring();
    let after = state.histories.get(&pid).unwrap().len();
    assert_eq!(before, after, "stop_monitoring must not drop already-captured samples");

    let (rows, _) = state.export_csv(render).unwrap();
    assert_eq!(rows, after);
}

#[test]
fn restarting_session_clears_previous_histories() {
    let pid = 4242;
    let table = ProcessTable::from([(1, shell()), (pid, sleeper(5))]);
    let mut state = AppState::new(config(100));
    state.selected_pids.insert(pid);
    state.start_monitoring(0);
    drive(&mut state, &table, 2);
    assert!(!state.histories.get(&pid).unwrap().is_empty());
    state.stop_monitoring();
    state.start_monitoring(Duration::from_secs(1).as_nanos());
    assert!(state.histories.is_empty(), "new session must start clean");
}
