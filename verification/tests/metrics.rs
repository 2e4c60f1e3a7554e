use zoio::metrics::{
    label_of, MetricKind, MetricSample, Number, Point, ProcessHistory, ProcessIdentity, Rate,
    Reading,
};

fn per_second(bytes: f64) -> Rate {
    Rate { bytes: bytes as u128, over_ns: 1_000_000_000 }
}

fn sample(t: f64, cpu: f32, mem: u64, disk: f64, net: f64) -> MetricSample {
    MetricSample {
        elapsed_ns: (t * 1e9) as u128,
        wall_clock_ms: (t * 1000.0) as i64,
        cpu_percent_bits: cpu.to_bits(),
        memory_bytes: mem,
        disk: per_second(disk),
        net: per_second(net),
    }
}

fn number(n: Number) -> f64 {
    match n {
        Number::Seconds { ns } => ns as f64 / 1e9,
        Number::Percent { bits } => f32::from_bits(bits) as f64,
        Number::Bytes { bytes } => bytes as f64,
        Number::PerSecond { rate } => rate.bytes as f64 / (rate.over_ns as f64 / 1e9),
    }
}

fn reading(r: Reading) -> f64 {
    number(r.number) / r.unit as f64
}

fn xy(p: &Point) -> [f64; 2] {
    [p.elapsed_ns as f64 / 1e9, reading(p.value)]
}

#[test]
fn metric_kind_labels_are_non_empty_and_unique() {
    let labels: Vec<&str> = MetricKind::ALL.iter().map(|k| k.label()).collect();
    let shorts: Vec<&str> = MetricKind::ALL.iter().map(|k| k.short_name()).collect();
    for l in &labels {
        assert!(!l.is_empty());
    }
    let mut dedup = labels.clone();
    dedup.sort();
    dedup.dedup();
    assert_eq!(dedup.len(), labels.len(), "labels must be unique");
    let mut dedup_short = shorts.clone();
    dedup_short.sort();
    dedup_short.dedup();
    assert_eq!(dedup_short.len(), shorts.len(), "short names must be unique");
}

#[test]
fn metric_kind_all_contains_every_variant() {
    assert_eq!(MetricKind::ALL.len(), 4);
    assert!(MetricKind::ALL.contains(&MetricKind::Cpu));
    assert!(MetricKind::ALL.contains(&MetricKind::Memory));
    assert!(MetricKind::ALL.contains(&MetricKind::Disk));
    assert!(MetricKind::ALL.contains(&MetricKind::Network));
}

#[test]
fn metric_kind_texts() {
    let labels: Vec<&str> = MetricKind::ALL.iter().map(|k| k.label()).collect();
    assert_eq!(
        labels,
        vec!["CPU (%)", "Memory (MiB)", "Disk I/O (KiB/s)", "Network I/O (KiB/s)"]
    );
    let shorts: Vec<&str> = MetricKind::ALL.iter().map(|k| k.short_name()).collect();
    assert_eq!(shorts, vec!["cpu", "memory", "disk", "network"]);
}

#[test]
fn process_identity_display_label_includes_pid_and_name() {
    let id = ProcessIdentity::new(42, "target", 1_700_000_000);
    let label = id.display_label();
    assert!(label.contains("target"));
    assert!(label.contains("42"));
}

#[test]
fn display_label_is_name_and_pid() {
    assert_eq!(ProcessIdentity::new(42, "target", 0).display_label(), "target (pid 42)");
    assert_eq!(ProcessIdentity::new(0, "", 0).display_label(), " (pid 0)");
    assert_eq!(label_of("é", u32::MAX), "é (pid 4294967295)");
}

#[test]
fn with_parent_sets_parent_pid() {
    let id = ProcessIdentity::new(2, "child", 0).with_parent(Some(1));
    assert_eq!(id.parent_pid, Some(1));
}

#[test]
fn new_identity_has_no_parent() {
    let id = ProcessIdentity::new(2, "child", 7);
    assert_eq!(id.pid, 2);
    assert_eq!(id.name, "child");
    assert_eq!(id.start_time, 7);
    assert_eq!(id.parent_pid, None);
    assert_eq!(id.with_parent(Some(1)).with_parent(None).clone().parent_pid, None);
}

#[test]
fn identity_is_pid_name_and_start_time() {
    let a = ProcessIdentity::new(1, "p", 5);
    assert!(a.is_same_process(&ProcessIdentity::new(1, "p", 5).with_parent(Some(9))));
    assert!(!a.is_same_process(&ProcessIdentity::new(2, "p", 5)));
    assert!(!a.is_same_process(&ProcessIdentity::new(1, "q", 5)));
    assert!(!a.is_same_process(&ProcessIdentity::new(1, "p", 6)));
}

#[test]
fn metric_sample_value_for_converts_units() {
    let s = sample(1.0, 12.5, 2 * 1024 * 1024, 4096.0, 8192.0);
    assert!((reading(s.value_for(MetricKind::Cpu)) - 12.5).abs() < 1e-6);
    assert!((reading(s.value_for(MetricKind::Memory)) - 2.0).abs() < 1e-6);
    assert!((reading(s.value_for(MetricKind::Disk)) - 4.0).abs() < 1e-6);
    assert!((reading(s.value_for(MetricKind::Network)) - 8.0).abs() < 1e-6);
}

#[test]
fn history_bounded_by_capacity() {
    let id = ProcessIdentity::new(1, "p", 0);
    let mut h = ProcessHistory::new(id, 3);
    for i in 0..10 {
        h.push(sample(i as f64, i as f32, i as u64, 0.0, 0.0));
    }
    assert_eq!(h.len(), 3);
    // Oldest retained sample should be at 7 seconds (10 - 3)
    assert_eq!(h.samples.front().unwrap().elapsed_ns, 7_000_000_000);
    assert_eq!(h.latest().unwrap().elapsed_ns, 9_000_000_000);
}

#[test]
fn history_keeps_newest_samples_in_order() {
    let mut h = ProcessHistory::new(ProcessIdentity::new(1, "p", 0), 2);
    assert_eq!(h.capacity(), 2);
    for i in 0..5u64 {
        h.push(sample(i as f64, 0.0, i, 0.0, 0.0));
        assert!(h.len() <= 2);
    }
    let kept: Vec<u64> = h.samples.iter().map(|s| s.memory_bytes).collect();
    assert_eq!(kept, vec![3, 4]);
    let copy = h.clone();
    assert_eq!(copy.identity, h.identity);
    assert_eq!(copy.len(), 2);
    assert_eq!(copy.capacity(), 2);
    assert_eq!(copy.latest(), h.latest());
}

#[test]
fn large_capacity_history_is_not_cut_short() {
    let mut h = ProcessHistory::new(ProcessIdentity::new(1, "p", 0), 5000);
    for i in 0..4999u64 {
        h.push(sample(i as f64, 0.0, i, 0.0, 0.0));
    }
    assert_eq!(h.len(), 4999);
    assert_eq!(h.capacity(), 5000);
    assert_eq!(h.samples.front().unwrap().memory_bytes, 0);
}

#[test]
fn history_series_returns_xy_pairs() {
    let id = ProcessIdentity::new(1, "p", 0);
    let mut h = ProcessHistory::new(id, 10);
    h.push(sample(0.0, 10.0, 1024 * 1024, 0.0, 0.0));
    h.push(sample(1.0, 20.0, 2 * 1024 * 1024, 0.0, 0.0));
    let pts: Vec<[f64; 2]> = h.series(MetricKind::Cpu).iter().map(xy).collect();
    assert_eq!(pts.len(), 2);
    assert!((pts[0][0] - 0.0).abs() < 1e-9);
    assert!((pts[0][1] - 10.0).abs() < 1e-9);
    assert!((pts[1][0] - 1.0).abs() < 1e-9);
    assert!((pts[1][1] - 20.0).abs() < 1e-9);

    let mem_pts: Vec<[f64; 2]> = h.series(MetricKind::Memory).iter().map(xy).collect();
    assert!((mem_pts[0][1] - 1.0).abs() < 1e-9);
    assert!((mem_pts[1][1] - 2.0).abs() < 1e-9);
}

#[test]
fn empty_history_has_no_latest() {
    let id = ProcessIdentity::new(1, "p", 0);
    let h = ProcessHistory::new(id, 4);
    assert!(h.is_empty());
    assert!(h.latest().is_none());
}
