use zoio::csv_export::{record_of, write_csv, Row, RowTexts, CSV_HEADERS};
use zoio::metrics::{MetricSample, Number, ProcessHistory, ProcessIdentity, Rate};

fn number(n: Number) -> f64 {
    match n {
        Number::Seconds { ns } => ns as f64 / 1e9,
        Number::Percent { bits } => f32::from_bits(bits) as f64,
        Number::Bytes { bytes } => bytes as f64,
        Number::PerSecond { rate } => rate.bytes as f64 / (rate.over_ns as f64 / 1e9),
    }
}

fn render(n: Number, decimals: usize) -> String {
    format!("{:.*}", decimals, number(n))
}

fn table(histories: &[&ProcessHistory]) -> (usize, String) {
    let (n, bytes) = write_csv(histories, render).unwrap();
    (n, String::from_utf8(bytes).unwrap())
}

fn fixture(pid: u32, name: &str, parent: Option<u32>, samples: usize) -> ProcessHistory {
    let id = ProcessIdentity::new(pid, name, 1_700_000_000).with_parent(parent);
    let mut h = ProcessHistory::new(id, 1024);
    for i in 0..samples {
        h.push(MetricSample {
            elapsed_ns: i as u128 * 1_000_000_000,
            wall_clock_ms: 1_700_000_000_000 + (i as i64) * 1000,
            cpu_percent_bits: (10.0 + i as f32).to_bits(),
            memory_bytes: 1024 * 1024 * (i as u64 + 1),
            disk: Rate { bytes: 100 * i as u128, over_ns: 1_000_000_000 },
            net: Rate { bytes: 50 * i as u128, over_ns: 1_000_000_000 },
        });
    }
    h
}

#[test]
fn csv_has_correct_header_and_row_count() {
    let h1 = fixture(1, "proc1", None, 3);
    let h2 = fixture(2, "proc2", Some(1), 2);
    let (n, s) = table(&[&h1, &h2]);
    assert_eq!(n, 5);
    let lines: Vec<&str> = s.lines().collect();
    // header + 5 rows
    assert_eq!(lines.len(), 6);
    assert_eq!(lines[0], CSV_HEADERS.join(","));
}

#[test]
fn csv_rows_are_sorted_by_timestamp_then_pid() {
    let h1 = fixture(10, "a", None, 2);
    let h2 = fixture(5, "b", None, 2);
    let (_, s) = table(&[&h1, &h2]);
    let rows: Vec<&str> = s.lines().skip(1).collect();
    // First two rows share timestamp 1_700_000_000_000 -> pid 5 then 10
    let pid_row_0 = rows[0].split(',').nth(2).unwrap();
    let pid_row_1 = rows[1].split(',').nth(2).unwrap();
    assert_eq!(pid_row_0, "5");
    assert_eq!(pid_row_1, "10");
}

#[test]
fn empty_input_produces_only_header() {
    let empty: Vec<&ProcessHistory> = vec![];
    let (n, s) = table(&empty);
    assert_eq!(n, 0);
    assert_eq!(s.trim(), CSV_HEADERS.join(","));
}

#[test]
fn missing_parent_pid_serialized_as_empty() {
    let h = fixture(1, "x", None, 1);
    let (_, s) = table(&[&h]);
    let row = s.lines().nth(1).unwrap();
    let cols: Vec<&str> = row.split(',').collect();
    // parent_pid is column index 4
    assert_eq!(cols[4], "");
}

#[test]
fn present_parent_pid_serialized_as_number() {
    let h = fixture(9, "x", Some(42), 1);
    let (_, s) = table(&[&h]);
    let row = s.lines().nth(1).unwrap();
    let cols: Vec<&str> = row.split(',').collect();
    assert_eq!(cols[4], "42");
}

#[test]
fn table_starts_with_the_first_header() {
    let h = fixture(7, "p", None, 4);
    let (n, contents) = table(&[&h]);
    assert_eq!(n, 4);
    assert!(contents.starts_with("timestamp_ms,"));
    assert_eq!(contents.lines().count(), 5); // header + 4 rows
}

#[test]
fn names_containing_commas_are_quoted() {
    let h = fixture(1, "weird,name", None, 1);
    let (_, s) = table(&[&h]);
    assert!(
        s.contains("\"weird,name\""),
        "commas in names must be CSV-escaped: got {s}"
    );
}

#[test]
fn whole_table_is_as_documented() {
    let mut h = fixture(3, "proc", Some(1), 2);
    h.push(MetricSample {
        elapsed_ns: 2_500_000_000,
        wall_clock_ms: -5,
        cpu_percent_bits: 12.34567f32.to_bits(),
        memory_bytes: u64::MAX,
        disk: Rate { bytes: 1, over_ns: 3_000_000_000 },
        net: Rate { bytes: 0, over_ns: 1_000_000_000 },
    });
    let (n, s) = table(&[&h]);
    assert_eq!(n, 3);
    assert_eq!(
        s,
        "timestamp_ms,elapsed_secs,pid,name,parent_pid,cpu_percent,memory_bytes,disk_bytes_per_sec,net_bytes_per_sec\n\
         -5,2.500000,3,proc,1,12.3457,18446744073709551615,0.33,0.00\n\
         1700000000000,0.000000,3,proc,1,10.0000,1048576,0.00,0.00\n\
         1700000001000,1.000000,3,proc,1,11.0000,2097152,100.00,50.00\n"
    );
}

#[test]
fn decimals_asked_of_the_renderer() {
    let h = fixture(1, "x", None, 1);
    let (_, bytes) = write_csv(&[&h], |n, decimals| {
        let which = match n {
            Number::Seconds { .. } => "s",
            Number::Percent { .. } => "p",
            Number::Bytes { .. } => "b",
            Number::PerSecond { .. } => "r",
        };
        format!("{which}{decimals}")
    })
    .unwrap();
    let s = String::from_utf8(bytes).unwrap();
    assert_eq!(s.lines().nth(1).unwrap(), "1700000000000,s6,1,x,,p4,1048576,r2,r2");
}

#[test]
fn quotes_and_line_ends_in_names_are_escaped() {
    let h = fixture(1, "say \"hi\"\nthere\r", None, 1);
    let (_, s) = table(&[&h]);
    assert!(s.contains(",\"say \"\"hi\"\"\nthere\r\","), "{s}");
    let h = fixture(1, "it's; a\ttab  and ünïcode", None, 1);
    let (_, s) = table(&[&h]);
    assert!(s.contains(",it's; a\ttab  and ünïcode,"), "{s}");
    let h = fixture(1, "", None, 1);
    let (_, s) = table(&[&h]);
    assert!(s.contains(",1,,,10.0000,"), "{s}");
}

#[test]
fn table_reads_back_with_a_csv_reader() {
    let names = ["plain", "a,b", "\"", "\"\"", "x\ny", "\r\n", " pad ", ""];
    let histories: Vec<ProcessHistory> =
        names.iter().enumerate().map(|(i, n)| fixture(i as u32, n, None, 1)).collect();
    let listed: Vec<&ProcessHistory> = histories.iter().collect();
    let (_, s) = table(&listed);
    let mut reader = csv::Reader::from_reader(s.as_bytes());
    let headers: Vec<String> = reader.headers().unwrap().iter().map(|f| f.to_string()).collect();
    assert_eq!(headers, CSV_HEADERS.to_vec());
    let read: Vec<String> = reader.records().map(|r| r.unwrap()[3].to_string()).collect();
    assert_eq!(read, names.to_vec());
}

#[test]
fn table_does_not_depend_on_the_order_of_histories() {
    let a = fixture(10, "a", None, 3);
    let b = fixture(5, "b", Some(10), 2);
    let c = fixture(7, "c", None, 4);
    let expected = table(&[&a, &b, &c]);
    assert_eq!(table(&[&c, &a, &b]), expected);
    assert_eq!(table(&[&b, &c, &a]), expected);
}

#[test]
fn rows_of_one_time_and_pid_keep_their_order() {
    let mut h = ProcessHistory::new(ProcessIdentity::new(1, "p", 0), 10);
    for i in 0..3u64 {
        h.push(MetricSample {
            elapsed_ns: 0,
            wall_clock_ms: 7,
            cpu_percent_bits: 0,
            memory_bytes: i,
            disk: Rate::zero(),
            net: Rate::zero(),
        });
    }
    let (_, s) = table(&[&h]);
    let memory: Vec<&str> = s.lines().skip(1).map(|l| l.split(',').nth(6).unwrap()).collect();
    assert_eq!(memory, vec!["0", "1", "2"]);
}

#[test]
fn record_lists_the_columns() {
    let h = fixture(3, "n", Some(2), 1);
    let row = Row { identity: &h.identity, sample: *h.latest().unwrap() };
    let texts = RowTexts {
        elapsed_secs: "e".to_string(),
        cpu_percent: "c".to_string(),
        disk_bytes_per_sec: "d".to_string(),
        net_bytes_per_sec: "w".to_string(),
    };
    assert_eq!(
        record_of(&row, texts),
        vec!["1700000000000", "e", "3", "n", "2", "c", "1048576", "d", "w"]
    );
}
