use zoio::csv_export::{write_csv, CSV_HEADERS};
use zoio::metrics::{MetricSample, Number, ProcessHistory, ProcessIdentity, Rate};

fn render(n: Number, decimals: usize) -> String {
    let value = match n {
        Number::Seconds { ns } => ns as f64 / 1e9,
        Number::Percent { bits } => f32::from_bits(bits) as f64,
        Number::Bytes { bytes } => bytes as f64,
        Number::PerSecond { rate } => rate.bytes as f64 / (rate.over_ns as f64 / 1e9),
    };
    format!("{:.*}", decimals, value)
}

fn build_history(pid: u32, samples: Vec<(f64, f32, u64)>) -> ProcessHistory {
    let id = ProcessIdentity::new(pid, &format!("proc{pid}"), 0);
    let mut h = ProcessHistory::new(id, samples.len().max(1) + 1);
    for (t, cpu, mem) in samples {
        h.push(MetricSample {
            elapsed_ns: (t * 1e9) as u128,
            wall_clock_ms: (t * 1000.0) as i64,
            cpu_percent_bits: cpu.to_bits(),
            memory_bytes: mem,
            disk: Rate::zero(),
            net: Rate::zero(),
        });
    }
    h
}

fn check_row_count(counts: &[usize]) {
    let mut histories = Vec::new();
    let mut total = 0;
    for (i, n) in counts.iter().enumerate() {
        let samples: Vec<(f64, f32, u64)> =
            (0..*n).map(|k| (k as f64, k as f32, k as u64)).collect();
        total += n;
        histories.push(build_history(i as u32 + 1, samples));
    }
    let listed: Vec<&ProcessHistory> = histories.iter().collect();
    let (written, buf) = write_csv(&listed, render).unwrap();
    assert_eq!(written, total);

    let s = String::from_utf8(buf).unwrap();
    let lines: Vec<&str> = s.lines().collect();
    assert_eq!(lines.len(), total + 1); // header + data rows
    assert_eq!(lines[0], CSV_HEADERS.join(","));
}

#[test]
fn csv_row_count_equals_total_samples() {
    for a in 0..10 {
        check_row_count(&[a]);
        for b in 0..10 {
            check_row_count(&[a, b]);
            check_row_count(&[a, b, (a + b) % 10, (3 * a + b) % 10]);
        }
    }
}

#[test]
fn csv_rows_always_sorted_by_timestamp() {
    for n in 1usize..20 {
        // Build a single history with random-order timestamps.
        let mut samples: Vec<(f64, f32, u64)> =
            (0..n).map(|i| ((n - i) as f64, i as f32, i as u64)).collect();
        // Shuffle by rotating.
        samples.rotate_left(n / 2);
        let h = build_history(1, samples);

        let (_, buf) = write_csv(&[&h], render).unwrap();
        let s = String::from_utf8(buf).unwrap();
        let timestamps: Vec<i64> = s
            .lines()
            .skip(1)
            .map(|l| l.split(',').next().unwrap().parse().unwrap())
            .collect();
        let mut sorted = timestamps.clone();
        sorted.sort();
        assert_eq!(timestamps, sorted);
    }
}
