//! Export captured monitoring data as CSV.
//!
//! The emitted schema is:
//!
//! ```csv
//! timestamp_ms,elapsed_secs,pid,name,parent_pid,cpu_percent,memory_bytes,disk_bytes_per_sec,net_bytes_per_sec
//! ```
//!
//! One row per (process, sample). Rows are sorted by `(timestamp_ms, pid)`
//! so that downstream tools (pandas, Excel, R) can diff rows directly.

use vstd::prelude::*;
use vstd::string::*;
use vstd::utf8::encode_utf8;

use crate::csv_format::{csv_record, csv_text, encode_record, read_back, read_csv, string_views};
use crate::metrics::{MetricSample, Number, ProcessHistory, ProcessIdentity};
use crate::order::{
    arranged, as_ints, comes_before, is_stable_order, lemma_order_covers, lemma_order_exists,
    lemma_order_unique, stable_order, stable_order_of, views, KeyOrder, SortKey,
};
use crate::text::{decimal, decimal_string, signed_decimal, signed_decimal_string};

verus! {

pub const CSV_HEADERS: [&'static str; 9] = [
    "timestamp_ms",
    "elapsed_secs",
    "pid",
    "name",
    "parent_pid",
    "cpu_percent",
    "memory_bytes",
    "disk_bytes_per_sec",
    "net_bytes_per_sec",
];

/// Why an export failed.
#[derive(Debug)]
pub enum ExportError {
    Csv { source: csv::Error },
}

// ---- rows ------------------------------------------------------------------

/// One sample of one process.
pub struct Row<'a> {
    pub identity: &'a ProcessIdentity,
    pub sample: MetricSample,
}

pub open spec fn history_rows<'a>(history: &'a ProcessHistory) -> Seq<Row<'a>> {
    history@.samples.map_values(
        |s: MetricSample| Row { identity: &history@.identity, sample: s },
    )
}

/// The rows of all histories, one history after the other.
pub open spec fn all_rows<'a>(histories: Seq<&'a ProcessHistory>) -> Seq<Row<'a>>
    decreases histories.len(),
{
    if histories.len() == 0 {
        Seq::empty()
    } else {
        all_rows(histories.drop_last()) + history_rows(histories.last())
    }
}

/// Rows are sorted by time, then by pid.
impl KeyOrder for (i64, u32) {
    open spec fn le(self, other: Self) -> bool {
        self.0 < other.0 || (self.0 == other.0 && self.1 <= other.1)
    }

    proof fn le_total(a: Self, b: Self) {
    }

    proof fn le_transitive(a: Self, b: Self, c: Self) {
    }
}

impl SortKey<(i64, u32)> for (i64, u32) {
    fn not_after(&self, other: &Self) -> (r: bool) {
        self.0 < other.0 || (self.0 == other.0 && self.1 <= other.1)
    }
}

impl<'a> Row<'a> {
    pub open spec fn key(self) -> (i64, u32) {
        (self.sample.wall_clock_ms, self.identity.pid)
    }
}

pub open spec fn row_keys(rows: Seq<Row>) -> Seq<(i64, u32)> {
    rows.map_values(|r: Row| r.key())
}

/// The rows by time and pid; rows that tie keep their order.
pub open spec fn sorted_rows<'a>(rows: Seq<Row<'a>>) -> Seq<Row<'a>> {
    arranged(rows, stable_order_of(row_keys(rows)))
}

/// The columns of a row that are real numbers, as texts.
pub struct RowTexts {
    pub elapsed_secs: String,
    pub cpu_percent: String,
    pub disk_bytes_per_sec: String,
    pub net_bytes_per_sec: String,
}

pub open spec fn parent_text(parent: Option<u32>) -> Seq<char> {
    match parent {
        Some(pid) => decimal(pid as nat),
        None => Seq::empty(),
    }
}

/// The columns of a row.
pub open spec fn row_fields(row: Row, texts: RowTexts) -> Seq<Seq<char>> {
    seq![
        signed_decimal(row.sample.wall_clock_ms as int),
        texts.elapsed_secs@,
        decimal(row.identity.pid as nat),
        row.identity.name@,
        parent_text(row.identity.parent_pid),
        texts.cpu_percent@,
        decimal(row.sample.memory_bytes as nat),
        texts.disk_bytes_per_sec@,
        texts.net_bytes_per_sec@,
    ]
}

/// The texts are what `render` makes of the row's real numbers: the time with
/// six decimals, the CPU percentage with four, the rates with two.
pub open spec fn renders<F: Fn(Number, usize) -> String>(
    render: F,
    row: Row,
    texts: RowTexts,
) -> bool {
    let s = row.sample;
    &&& call_ensures(render, (Number::Seconds { ns: s.elapsed_ns }, 6usize), texts.elapsed_secs)
    &&& call_ensures(render, (Number::Percent { bits: s.cpu_percent_bits }, 4usize), texts.cpu_percent)
    &&& call_ensures(render, (Number::PerSecond { rate: s.disk }, 2usize), texts.disk_bytes_per_sec)
    &&& call_ensures(render, (Number::PerSecond { rate: s.net }, 2usize), texts.net_bytes_per_sec)
}

pub open spec fn renders_all<F: Fn(Number, usize) -> String>(
    render: F,
    rows: Seq<Row>,
    texts: Seq<RowTexts>,
) -> bool {
    &&& texts.len() == rows.len()
    &&& forall|i: int| 0 <= i < rows.len() ==> renders(render, #[trigger] rows[i], texts[i])
}

pub open spec fn headers() -> Seq<Seq<char>> {
    CSV_HEADERS@.map_values(|s: &'static str| s@)
}

pub open spec fn data_records(rows: Seq<Row>, texts: Seq<RowTexts>) -> Seq<Seq<Seq<char>>> {
    Seq::new(rows.len(), |i: int| row_fields(rows[i], texts[i]))
}

/// The whole table: the headers, then the rows.
pub open spec fn csv_table(rows: Seq<Row>, texts: Seq<RowTexts>) -> Seq<char> {
    csv_text(seq![headers()] + data_records(rows, texts))
}

proof fn lemma_encode_concat(a: Seq<char>, b: Seq<char>)
    ensures
        encode_utf8(a + b) == encode_utf8(a) + encode_utf8(b),
    decreases a.len(),
{
    if a.len() == 0 {
        assert(a + b =~= b);
        assert(encode_utf8(a) + encode_utf8(b) =~= encode_utf8(b));
    } else {
        assert((a + b).drop_first() =~= a.drop_first() + b);
        lemma_encode_concat(a.drop_first(), b);
        assert(encode_utf8(a + b) =~= encode_utf8(a) + encode_utf8(b));
    }
}

/// `bytes` is the table of the histories, with `count` rows, in which `render`
/// wrote the real numbers.
pub open spec fn is_export<F: Fn(Number, usize) -> String>(
    render: F,
    histories: Seq<&ProcessHistory>,
    count: nat,
    bytes: Seq<u8>,
) -> bool {
    &&& count == all_rows(histories).len()
    &&& exists|texts: Seq<RowTexts>|
        #[trigger] renders_all(render, sorted_rows(all_rows(histories)), texts) && bytes
            == encode_utf8(csv_table(sorted_rows(all_rows(histories)), texts))
}

fn header_fields() -> (r: Vec<String>)
    ensures
        string_views(r@) == headers(),
{
    let mut r: Vec<String> = Vec::new();
    let names: [&'static str; 9] = CSV_HEADERS;
    let mut i: usize = 0;
    while i < 9
        invariant
            names@ == CSV_HEADERS@,
            i <= 9,
            string_views(r@) == headers().take(i as int),
        decreases 9 - i,
    {
        let ghost before = r@;
        let name: &'static str = names[i];
        assert(headers()[i as int] == name@);
        r.push(name.to_owned());
        assert(r@.drop_last() =~= before);
        assert(r@.last()@ == name@);
        i = i + 1;
        assert(string_views(r@) =~= string_views(before).push(name@));
        assert(string_views(r@) =~= headers().take(i as int));
    }
    assert(headers().take(9) =~= headers());
    r
}

fn collect_rows<'a>(histories: &[&'a ProcessHistory]) -> (rows: Vec<Row<'a>>)
    ensures
        rows@ == all_rows(histories@),
{
    let mut rows: Vec<Row<'a>> = Vec::new();
    let mut i: usize = 0;
    assert(histories@.take(0) =~= Seq::empty());
    while i < histories.len()
        invariant
            i <= histories@.len(),
            rows@ == all_rows(histories@.take(i as int)),
        decreases histories@.len() - i,
    {
        let history: &'a ProcessHistory = histories[i];
        let ghost before = rows@;
        let mut j: usize = 0;
        while j < history.len()
            invariant
                j <= history@.samples.len(),
                rows@ == before + history_rows(history).take(j as int),
            decreases history@.samples.len() - j,
        {
            rows.push(Row { identity: history.identity(), sample: *history.sample(j) });
            j = j + 1;
            assert(rows@ =~= before + history_rows(history).take(j as int));
        }
        proof {
            let now = histories@.take(i + 1);
            assert(now.drop_last() =~= histories@.take(i as int));
            assert(now.last() == history);
            assert(history_rows(history).take(j as int) =~= history_rows(history));
        }
        i = i + 1;
    }
    assert(histories@.take(i as int) =~= histories@);
    rows
}

/// The rows by time and pid, as positions.
fn row_order(rows: &Vec<Row>) -> (order: Vec<usize>)
    ensures
        as_ints(order@) == stable_order_of(row_keys(rows@)),
        order@.len() == rows@.len(),
        forall|k: int| 0 <= k < order@.len() ==> (#[trigger] order@[k]) < rows@.len(),
{
    let mut keys: Vec<(i64, u32)> = Vec::new();
    let mut i: usize = 0;
    while i < rows.len()
        invariant
            i <= rows@.len(),
            keys@ == row_keys(rows@).take(i as int),
        decreases rows@.len() - i,
    {
        keys.push((rows[i].sample.wall_clock_ms, rows[i].identity.pid));
        i = i + 1;
        assert(keys@ =~= row_keys(rows@).take(i as int));
    }
    assert(views(keys@) =~= row_keys(rows@));
    let order: Vec<usize> = stable_order(&keys);
    assert forall|k: int| 0 <= k < order@.len() implies (#[trigger] order@[k]) < rows@.len() by {
        assert(as_ints(order@)[k] < rows@.len());
    }
    order
}

/// The columns of a row whose real numbers have the given texts.
pub fn record_of(row: &Row, texts: RowTexts) -> (fields: Vec<String>)
    ensures
        string_views(fields@) == row_fields(*row, texts),
{
    let parent: String = match row.identity.parent_pid {
        Some(pid) => decimal_string(pid as u64),
        None => String::new(),
    };
    let mut fields: Vec<String> = Vec::new();
    fields.push(signed_decimal_string(row.sample.wall_clock_ms));
    fields.push(texts.elapsed_secs);
    fields.push(decimal_string(row.identity.pid as u64));
    fields.push(row.identity.name.clone());
    fields.push(parent);
    fields.push(texts.cpu_percent);
    fields.push(decimal_string(row.sample.memory_bytes));
    fields.push(texts.disk_bytes_per_sec);
    fields.push(texts.net_bytes_per_sec);
    assert(string_views(fields@) =~= row_fields(*row, texts));
    fields
}

proof fn lemma_text_grows(records: Seq<Seq<Seq<char>>>, record: Seq<Seq<char>>)
    ensures
        encode_utf8(csv_text(records.push(record))) == encode_utf8(csv_text(records))
            + encode_utf8(csv_record(record)),
{
    assert(records.push(record).drop_last() =~= records);
    lemma_encode_concat(csv_text(records), csv_record(record));
}

/// Write the histories as CSV. Returns the total number of data rows written
/// (header row not counted) and the bytes of the table.
///
/// `render` turns a real number into a text with so many decimals.
pub fn write_csv<F: Fn(Number, usize) -> String>(
    histories: &[&ProcessHistory],
    render: F,
) -> (r: Result<(usize, Vec<u8>), ExportError>)
    requires
        forall|number: Number, decimals: usize| call_requires(render, (number, decimals)),
    ensures
        r is Ok,
        is_export(render, histories@, r->Ok_0.0 as nat, r->Ok_0.1@),
{
    let rows: Vec<Row> = collect_rows(histories);
    let order: Vec<usize> = row_order(&rows);
    let ghost sorted = sorted_rows(rows@);
    let ghost mut texts: Seq<RowTexts> = Seq::empty();
    let head: Vec<String> = header_fields();
    let mut bytes: Vec<u8> = match encode_record(&head) {
        Ok(bytes) => bytes,
        Err(source) => return Err(ExportError::Csv { source }),
    };
    proof {
        let none = Seq::<Seq<Seq<char>>>::empty();
        lemma_text_grows(none, headers());
        assert(csv_text(none) =~= Seq::<char>::empty());
        assert(encode_utf8(csv_text(none)) =~= Seq::<u8>::empty());
        assert(bytes@ =~= encode_utf8(csv_text(none.push(headers()))));
        assert(none.push(headers()) =~= seq![headers()] + data_records(sorted.take(0), texts));
    }
    let mut i: usize = 0;
    while i < order.len()
        invariant
            forall|number: Number, decimals: usize| call_requires(render, (number, decimals)),
            order@.len() == rows@.len(),
            forall|k: int| 0 <= k < order@.len() ==> (#[trigger] order@[k]) < rows@.len(),
            sorted == sorted_rows(rows@),
            as_ints(order@) == stable_order_of(row_keys(rows@)),
            i <= order@.len(),
            sorted.len() == order@.len(),
            renders_all(render, sorted.take(i as int), texts),
            bytes@ == encode_utf8(csv_table(sorted.take(i as int), texts)),
        decreases order@.len() - i,
    {
        let row: &Row = &rows[order[i]];
        assert(as_ints(order@)[i as int] == order@[i as int]);
        assert(sorted[i as int] == *row);
        let sample: MetricSample = row.sample;
        let text: RowTexts = RowTexts {
            elapsed_secs: render(Number::Seconds { ns: sample.elapsed_ns }, 6),
            cpu_percent: render(Number::Percent { bits: sample.cpu_percent_bits }, 4),
            disk_bytes_per_sec: render(Number::PerSecond { rate: sample.disk }, 2),
            net_bytes_per_sec: render(Number::PerSecond { rate: sample.net }, 2),
        };
        let ghost done = sorted.take(i as int);
        let ghost texts_before = texts;
        proof {
            texts = texts.push(text);
        }
        let ghost shown = text;
        let record: Vec<String> = record_of(row, text);
        let mut line: Vec<u8> = match encode_record(&record) {
            Ok(line) => line,
            Err(source) => return Err(ExportError::Csv { source }),
        };
        bytes.append(&mut line);
        proof {
            let now = sorted.take(i + 1);
            let records = seq![headers()] + data_records(done, texts_before);
            assert(seq![headers()] + data_records(now, texts) =~= records.push(
                row_fields(*row, shown),
            ));
            lemma_text_grows(records, row_fields(*row, shown));
            assert forall|k: int| 0 <= k < now.len() implies renders(
                render,
                #[trigger] now[k],
                texts[k],
            ) by {
                if k < done.len() {
                    assert(renders(render, done[k], texts_before[k]));
                }
            }
        }
        i = i + 1;
    }
    proof {
        assert(sorted.take(i as int) =~= sorted);
        assert(renders_all(render, sorted, texts));
    }
    Ok((order.len(), bytes))
}

// ---- what a table shows ----------------------------------------------------

/// How many samples the histories hold.
pub open spec fn total_samples(histories: Seq<&ProcessHistory>) -> nat
    decreases histories.len(),
{
    if histories.len() == 0 {
        0
    } else {
        total_samples(histories.drop_last()) + histories.last()@.samples.len()
    }
}

/// The table has one row for each sample of each history.
pub proof fn one_row_per_sample(histories: Seq<&ProcessHistory>)
    ensures
        sorted_rows(all_rows(histories)).len() == all_rows(histories).len(),
        all_rows(histories).len() == total_samples(histories),
    decreases histories.len(),
{
    lemma_order_exists(row_keys(all_rows(histories)));
    if histories.len() > 0 {
        one_row_per_sample(histories.drop_last());
    }
}

/// `b` holds what `a` holds, each item at the one place that `places` gives.
pub open spec fn is_rearranged<A>(a: Seq<A>, b: Seq<A>, places: Seq<int>) -> bool {
    &&& places.len() == a.len()
    &&& b.len() == a.len()
    &&& places.no_duplicates()
    &&& forall|i: int| 0 <= i < places.len() ==> 0 <= #[trigger] places[i] < a.len()
    &&& forall|i: int| 0 <= i < places.len() ==> b[i] == a[#[trigger] places[i]]
}

/// Sorting moves rows and does nothing else: none is lost, none shows twice.
pub proof fn sorting_only_moves_rows(rows: Seq<Row>)
    ensures
        is_rearranged(rows, sorted_rows(rows), stable_order_of(row_keys(rows))),
{
    let keys = row_keys(rows);
    lemma_order_exists(keys);
    lemma_order_covers(keys, stable_order_of(keys));
}

/// Time never goes back from one row to the next, and among rows of the same
/// time the pids do not fall.
pub proof fn rows_are_sorted(rows: Seq<Row>, i: int, j: int)
    requires
        0 <= i <= j < sorted_rows(rows).len(),
    ensures
        sorted_rows(rows)[i].sample.wall_clock_ms <= sorted_rows(rows)[j].sample.wall_clock_ms,
        sorted_rows(rows)[i].sample.wall_clock_ms == sorted_rows(rows)[j].sample.wall_clock_ms
            ==> sorted_rows(rows)[i].identity.pid <= sorted_rows(rows)[j].identity.pid,
{
    let keys = row_keys(rows);
    let order = stable_order_of(keys);
    lemma_order_exists(keys);
    if i < j {
        assert(comes_before(keys, order[i], order[j]));
    }
}

/// Whoever reads the table gets the headers and the columns of every row.
pub proof fn table_reads_back(rows: Seq<Row>, texts: Seq<RowTexts>)
    ensures
        read_csv(csv_table(rows, texts)) == seq![headers()] + data_records(rows, texts),
{
    read_back(seq![headers()] + data_records(rows, texts));
}

/// No two histories are of the same pid.
pub open spec fn distinct_histories(histories: Seq<&ProcessHistory>) -> bool {
    forall|i: int, j: int|
        0 <= i < j < histories.len() ==> (#[trigger] histories[i])@.identity.pid != (
        #[trigger] histories[j])@.identity.pid
}

/// How many rows come before those of the history at place `h`.
spec fn offset(histories: Seq<&ProcessHistory>, h: int) -> int {
    all_rows(histories.take(h)).len() as int
}

/// Which history, and which of its samples, the row at place `q` shows.
spec fn origin(histories: Seq<&ProcessHistory>, q: int) -> (int, int)
    decreases histories.len(),
{
    if histories.len() == 0 {
        (0, 0)
    } else {
        let before = all_rows(histories.drop_last()).len();
        if q >= before {
            (histories.len() - 1, q - before)
        } else {
            origin(histories.drop_last(), q)
        }
    }
}

proof fn lemma_offset_grows(histories: Seq<&ProcessHistory>, g: int, h: int)
    requires
        0 <= g < h <= histories.len(),
    ensures
        offset(histories, g) + histories[g]@.samples.len() <= offset(histories, h),
    decreases h,
{
    let upto = histories.take(h);
    assert(upto.drop_last() =~= histories.take(h - 1));
    assert(upto.last() == histories[h - 1]);
    if g < h - 1 {
        lemma_offset_grows(histories, g, h - 1);
    }
}

proof fn lemma_origin(histories: Seq<&ProcessHistory>, q: int)
    requires
        0 <= q < all_rows(histories).len(),
    ensures
        ({
            let (h, k) = origin(histories, q);
            &&& 0 <= h < histories.len()
            &&& 0 <= k < histories[h]@.samples.len()
            &&& q == offset(histories, h) + k
            &&& all_rows(histories)[q] == history_rows(histories[h])[k]
        }),
    decreases histories.len(),
{
    let before = histories.drop_last();
    if q >= all_rows(before).len() {
        assert(histories.take(histories.len() - 1) =~= before);
    } else {
        lemma_origin(before, q);
        let (h, k) = origin(before, q);
        assert(histories.take(h) =~= before.take(h));
    }
}

proof fn lemma_row_at(histories: Seq<&ProcessHistory>, h: int, k: int)
    requires
        0 <= h < histories.len(),
        0 <= k < histories[h]@.samples.len(),
    ensures
        0 <= offset(histories, h) + k < all_rows(histories).len(),
        all_rows(histories)[offset(histories, h) + k] == history_rows(histories[h])[k],
    decreases histories.len(),
{
    let before = histories.drop_last();
    if h == histories.len() - 1 {
        assert(histories.take(h) =~= before);
    } else {
        lemma_row_at(before, h, k);
        assert(histories.take(h) =~= before.take(h));
    }
}

/// Where the history at place `h` of `a` stands in `b`.
spec fn moved(a: Seq<&ProcessHistory>, b: Seq<&ProcessHistory>, h: int) -> int {
    choose|g: int| 0 <= g < b.len() && b[g] == a[h]
}

/// Where the row at place `q` among the rows of `a` stands among those of `b`.
spec fn moved_row(a: Seq<&ProcessHistory>, b: Seq<&ProcessHistory>, q: int) -> int {
    let (h, k) = origin(a, q);
    offset(b, moved(a, b, h)) + k
}

proof fn lemma_moved_row(a: Seq<&ProcessHistory>, b: Seq<&ProcessHistory>, q: int)
    requires
        forall|h: &ProcessHistory| a.contains(h) ==> #[trigger] b.contains(h),
        0 <= q < all_rows(a).len(),
    ensures
        0 <= moved_row(a, b, q) < all_rows(b).len(),
        all_rows(b)[moved_row(a, b, q)] == all_rows(a)[q],
{
    lemma_origin(a, q);
    let (h, k) = origin(a, q);
    assert(a.contains(a[h]));
    assert(b.contains(a[h]));
    lemma_row_at(b, moved(a, b, h), k);
}

/// Rows of one history keep their order.
proof fn lemma_moved_rows_keep_order(
    a: Seq<&ProcessHistory>,
    b: Seq<&ProcessHistory>,
    q: int,
    r: int,
)
    requires
        distinct_histories(a),
        0 <= q < r < all_rows(a).len(),
        all_rows(a)[q].identity.pid == all_rows(a)[r].identity.pid,
    ensures
        moved_row(a, b, q) < moved_row(a, b, r),
{
    lemma_origin(a, q);
    lemma_origin(a, r);
    let (g, k) = origin(a, q);
    let (h, l) = origin(a, r);
    assert(all_rows(a)[q].identity.pid == a[g]@.identity.pid);
    assert(all_rows(a)[r].identity.pid == a[h]@.identity.pid);
    if g < h {
        assert(a[g]@.identity.pid != a[h]@.identity.pid);
    } else if h < g {
        assert(a[h]@.identity.pid != a[g]@.identity.pid);
    }
}

proof fn lemma_moved_rows_differ(
    a: Seq<&ProcessHistory>,
    b: Seq<&ProcessHistory>,
    q: int,
    r: int,
)
    requires
        distinct_histories(a),
        forall|h: &ProcessHistory| a.contains(h) ==> #[trigger] b.contains(h),
        0 <= q < r < all_rows(a).len(),
    ensures
        moved_row(a, b, q) != moved_row(a, b, r),
{
    lemma_moved_row(a, b, q);
    lemma_moved_row(a, b, r);
    if moved_row(a, b, q) == moved_row(a, b, r) {
        lemma_moved_rows_keep_order(a, b, q, r);
    }
}

proof fn lemma_no_fewer_rows(a: Seq<&ProcessHistory>, b: Seq<&ProcessHistory>)
    requires
        distinct_histories(a),
        forall|h: &ProcessHistory| a.contains(h) ==> #[trigger] b.contains(h),
    ensures
        all_rows(a).len() <= all_rows(b).len(),
{
    let n = all_rows(a).len();
    let m = all_rows(b).len() as int;
    let places = Seq::new(n, |q: int| moved_row(a, b, q));
    assert forall|q: int, r: int| 0 <= q < n && 0 <= r < n && q != r implies places[q]
        != places[r] by {
        if q < r {
            lemma_moved_rows_differ(a, b, q, r);
        } else {
            lemma_moved_rows_differ(a, b, r, q);
        }
    }
    places.unique_seq_to_set();
    let all = vstd::set_lib::set_int_range(0, m);
    vstd::set_lib::lemma_int_range(0, m);
    assert forall|p: int| places.to_set().contains(p) implies all.contains(p) by {
        let q = choose|q: int| 0 <= q < places.len() && places[q] == p;
        lemma_moved_row(a, b, q);
    }
    vstd::set_lib::lemma_len_subset(places.to_set(), all);
}

proof fn lemma_rows_concat(a: Seq<&ProcessHistory>, b: Seq<&ProcessHistory>)
    ensures
        all_rows(a + b) == all_rows(a) + all_rows(b),
    decreases b.len(),
{
    if b.len() == 0 {
        assert(a + b =~= a);
        assert(all_rows(a) + all_rows(b) =~= all_rows(a));
    } else {
        assert((a + b).drop_last() =~= a + b.drop_last());
        assert((a + b).last() == b.last());
        lemma_rows_concat(a, b.drop_last());
        assert(all_rows(a + b) =~= all_rows(a) + all_rows(b));
    }
}

/// The sorted rows do not depend on the order of the histories behind `first`,
/// as long as no two of those are of the same pid.
pub proof fn order_behind_does_not_matter(
    first: Seq<&ProcessHistory>,
    a: Seq<&ProcessHistory>,
    b: Seq<&ProcessHistory>,
)
    requires
        distinct_histories(a),
        distinct_histories(b),
        forall|h: &ProcessHistory| #[trigger] a.contains(h) <==> b.contains(h),
    ensures
        sorted_rows(all_rows(first + a)) == sorted_rows(all_rows(first + b)),
{
    let head = all_rows(first);
    let n = head.len() as int;
    let rows = all_rows(first + a);
    let others = all_rows(first + b);
    let keys = row_keys(rows);
    let other_keys = row_keys(others);
    lemma_rows_concat(first, a);
    lemma_rows_concat(first, b);
    assert forall|h: &ProcessHistory| b.contains(h) implies #[trigger] a.contains(h) by {}
    assert forall|h: &ProcessHistory| a.contains(h) implies #[trigger] b.contains(h) by {
        assert(a.contains(h));
    }
    lemma_no_fewer_rows(a, b);
    lemma_no_fewer_rows(b, a);
    lemma_order_exists(keys);
    lemma_order_exists(other_keys);
    let order = stable_order_of(keys);
    let place = |q: int| if q < n { q } else { n + moved_row(a, b, q - n) };
    let places = Seq::new(order.len(), |i: int| place(order[i]));
    assert forall|i: int| 0 <= i < places.len() implies 0 <= #[trigger] places[i]
        < other_keys.len() && others[places[i]] == rows[order[i]] by {
        if order[i] >= n {
            lemma_moved_row(a, b, order[i] - n);
        }
    }
    assert forall|i: int, j: int| 0 <= i < j < places.len() implies comes_before(
        other_keys,
        #[trigger] places[i],
        #[trigger] places[j],
    ) by {
        let q = order[i];
        let r = order[j];
        assert(comes_before(keys, q, r));
        assert(others[places[i]] == rows[q]);
        assert(others[places[j]] == rows[r]);
        assert(other_keys[places[i]] == keys[q]);
        assert(other_keys[places[j]] == keys[r]);
        if keys[r].le(keys[q]) {
            if q >= n {
                lemma_moved_rows_keep_order(a, b, q - n, r - n);
            } else if r >= n {
                lemma_moved_row(a, b, r - n);
            }
        }
    }
    assert(is_stable_order(other_keys, places));
    lemma_order_unique(other_keys, places, stable_order_of(other_keys));
    assert(sorted_rows(rows) =~= sorted_rows(others));
}

/// The sorted rows do not depend on the order in which the histories are
/// handed over, as long as no two are of the same pid.
pub proof fn order_of_histories_does_not_matter(
    a: Seq<&ProcessHistory>,
    b: Seq<&ProcessHistory>,
)
    requires
        distinct_histories(a),
        distinct_histories(b),
        forall|h: &ProcessHistory| #[trigger] a.contains(h) <==> b.contains(h),
    ensures
        sorted_rows(all_rows(a)) == sorted_rows(all_rows(b)),
{
    let none = Seq::<&ProcessHistory>::empty();
    order_behind_does_not_matter(none, a, b);
    assert(none + a =~= a);
    assert(none + b =~= b);
}

/// `render` has one text for each number and count of decimals.
pub open spec fn renders_alike<F: Fn(Number, usize) -> String>(render: F) -> bool {
    forall|number: Number, decimals: usize, s: String, t: String|
        #[trigger] call_ensures(render, (number, decimals), s) && #[trigger] call_ensures(
            render,
            (number, decimals),
            t,
        ) ==> s@ == t@
}

/// Exports of the same sorted rows have the same count and the same bytes.
pub proof fn equal_rows_give_equal_bytes<F: Fn(Number, usize) -> String>(
    render: F,
    a: Seq<&ProcessHistory>,
    b: Seq<&ProcessHistory>,
    a_count: nat,
    a_bytes: Seq<u8>,
    b_count: nat,
    b_bytes: Seq<u8>,
)
    requires
        renders_alike(render),
        sorted_rows(all_rows(a)) == sorted_rows(all_rows(b)),
        is_export(render, a, a_count, a_bytes),
        is_export(render, b, b_count, b_bytes),
    ensures
        a_count == b_count,
        a_bytes == b_bytes,
{
    let rows = sorted_rows(all_rows(a));
    one_row_per_sample(a);
    one_row_per_sample(b);
    let x = choose|texts: Seq<RowTexts>|
        #[trigger] renders_all(render, rows, texts) && a_bytes == encode_utf8(
            csv_table(rows, texts),
        );
    let y = choose|texts: Seq<RowTexts>|
        #[trigger] renders_all(render, rows, texts) && b_bytes == encode_utf8(
            csv_table(rows, texts),
        );
    assert forall|i: int| 0 <= i < rows.len() implies row_fields(rows[i], x[i]) == row_fields(
        rows[i],
        y[i],
    ) by {
        assert(renders(render, rows[i], x[i]));
        assert(renders(render, rows[i], y[i]));
        assert(row_fields(rows[i], x[i]) =~= row_fields(rows[i], y[i]));
    }
    assert(data_records(rows, x) =~= data_records(rows, y));
}

/// Two exports of the same histories, handed over in any order, have the same
/// count and the same bytes, as long as no two histories are of the same pid.
pub proof fn order_of_histories_does_not_change_the_bytes<F: Fn(Number, usize) -> String>(
    render: F,
    a: Seq<&ProcessHistory>,
    b: Seq<&ProcessHistory>,
    a_count: nat,
    a_bytes: Seq<u8>,
    b_count: nat,
    b_bytes: Seq<u8>,
)
    requires
        renders_alike(render),
        distinct_histories(a),
        distinct_histories(b),
        forall|h: &ProcessHistory| #[trigger] a.contains(h) <==> b.contains(h),
        is_export(render, a, a_count, a_bytes),
        is_export(render, b, b_count, b_bytes),
    ensures
        a_count == b_count,
        a_bytes == b_bytes,
{
    order_of_histories_does_not_matter(a, b);
    equal_rows_give_equal_bytes(render, a, b, a_count, a_bytes, b_count, b_bytes);
}

/// Every sample of every history has its row.
pub proof fn every_sample_has_a_row(histories: Seq<&ProcessHistory>, h: int, k: int)
    requires
        0 <= h < histories.len(),
        0 <= k < histories[h]@.samples.len(),
    ensures
        sorted_rows(all_rows(histories)).contains(
            (Row { identity: &histories[h]@.identity, sample: histories[h]@.samples[k] }),
        ),
{
    let rows = all_rows(histories);
    let keys = row_keys(rows);
    let order = stable_order_of(keys);
    lemma_row_at(histories, h, k);
    let q = offset(histories, h) + k;
    lemma_order_exists(keys);
    lemma_order_covers(keys, order);
    assert(order.contains(q));
    let i = choose|i: int| 0 <= i < order.len() && order[i] == q;
    assert(sorted_rows(rows)[i] == rows[q]);
}

/// Every row shows a sample of a history.
pub proof fn every_row_shows_a_sample(histories: Seq<&ProcessHistory>, i: int)
    requires
        0 <= i < sorted_rows(all_rows(histories)).len(),
    ensures
        exists|h: int, k: int|
            {
                &&& 0 <= h < histories.len()
                &&& 0 <= k < histories[h]@.samples.len()
                &&& sorted_rows(all_rows(histories))[i] == (Row {
                    identity: &(#[trigger] histories[h])@.identity,
                    sample: #[trigger] histories[h]@.samples[k],
                })
            },
{
    let rows = all_rows(histories);
    let order = stable_order_of(row_keys(rows));
    lemma_order_exists(row_keys(rows));
    lemma_origin(histories, order[i]);
    let (h, k) = origin(histories, order[i]);
    assert(sorted_rows(rows)[i] == history_rows(histories[h])[k]);
    assert(history_rows(histories[h])[k].sample == histories[h]@.samples[k]);
}

/// The table begins with the names of its nine columns.
pub proof fn columns_are_named()
    ensures
        headers() == seq![
            "timestamp_ms"@,
            "elapsed_secs"@,
            "pid"@,
            "name"@,
            "parent_pid"@,
            "cpu_percent"@,
            "memory_bytes"@,
            "disk_bytes_per_sec"@,
            "net_bytes_per_sec"@,
        ],
{
    let names = CSV_HEADERS@;
    assert(names.len() == 9);
    assert(names[0] == "timestamp_ms");
    assert(names[1] == "elapsed_secs");
    assert(names[2] == "pid");
    assert(names[3] == "name");
    assert(names[4] == "parent_pid");
    assert(names[5] == "cpu_percent");
    assert(names[6] == "memory_bytes");
    assert(names[7] == "disk_bytes_per_sec");
    assert(names[8] == "net_bytes_per_sec");
}

/// Where the rows of a table come from: every sample of every history is
/// there, once, in the order of time and pid; samples that agree in both stand
/// in the order of the histories and of the samples in them.
proof fn lemma_rows_come_from(histories: Seq<&ProcessHistory>) -> (at: Seq<(int, int)>)
    ensures
        at.len() == all_rows(histories).len(),
        at.len() == sorted_rows(all_rows(histories)).len(),
        forall|i: int|
            0 <= i < at.len() ==> 0 <= (#[trigger] at[i]).0 < histories.len() && 0 <= at[i].1
                < histories[at[i].0]@.samples.len(),
        forall|i: int|
            0 <= i < at.len() ==> *sorted_rows(all_rows(histories))[i].identity == histories[(
            #[trigger] at[i]).0]@.identity && sorted_rows(all_rows(histories))[i].sample
                == histories[at[i].0]@.samples[at[i].1],
        forall|h: int, k: int|
            0 <= h < histories.len() && 0 <= k < histories[h]@.samples.len()
                ==> #[trigger] at.contains((h, k)),
        forall|i: int, j: int|
            0 <= i < j < at.len() ==> {
                let a = histories[(#[trigger] at[i]).0]@;
                let b = histories[(#[trigger] at[j]).0]@;
                let s = a.samples[at[i].1].wall_clock_ms;
                let t = b.samples[at[j].1].wall_clock_ms;
                ||| s < t
                ||| s == t && a.identity.pid < b.identity.pid
                ||| s == t && a.identity.pid == b.identity.pid && (at[i].0 < at[j].0 || (at[i].0
                    == at[j].0 && at[i].1 < at[j].1))
            },
{
    let rows = all_rows(histories);
    let keys = row_keys(rows);
    let order = stable_order_of(keys);
    lemma_order_exists(keys);
    lemma_order_covers(keys, order);
    let at = Seq::new(order.len(), |i: int| origin(histories, order[i]));
    assert forall|i: int| 0 <= i < at.len() implies 0 <= (#[trigger] at[i]).0 < histories.len() && 0
        <= at[i].1 < histories[at[i].0]@.samples.len() && *sorted_rows(rows)[i].identity
        == histories[at[i].0]@.identity && sorted_rows(rows)[i].sample
        == histories[at[i].0]@.samples[at[i].1] by {
        lemma_origin(histories, order[i]);
    }
    assert forall|h: int, k: int|
        0 <= h < histories.len() && 0 <= k < histories[h]@.samples.len() implies #[trigger] at.contains(
        (h, k),
    ) by {
        lemma_row_at(histories, h, k);
        let q = offset(histories, h) + k;
        assert(order.contains(q));
        let i = choose|i: int| 0 <= i < order.len() && order[i] == q;
        lemma_origin(histories, q);
        let (g, l) = origin(histories, q);
        if g < h {
            lemma_offset_grows(histories, g, h);
        } else if h < g {
            lemma_offset_grows(histories, h, g);
        }
        assert(at[i] == (h, k));
    }
    assert forall|i: int, j: int| 0 <= i < j < at.len() implies {
        let a = histories[(#[trigger] at[i]).0]@;
        let b = histories[(#[trigger] at[j]).0]@;
        let s = a.samples[at[i].1].wall_clock_ms;
        let t = b.samples[at[j].1].wall_clock_ms;
        ||| s < t
        ||| s == t && a.identity.pid < b.identity.pid
        ||| s == t && a.identity.pid == b.identity.pid && (at[i].0 < at[j].0 || (at[i].0 == at[j].0
            && at[i].1 < at[j].1))
    } by {
        let q = order[i];
        let r = order[j];
        assert(comes_before(keys, q, r));
        lemma_origin(histories, q);
        lemma_origin(histories, r);
        assert(keys[q] == rows[q].key());
        assert(keys[r] == rows[r].key());
        if q < r && at[j].0 < at[i].0 {
            lemma_offset_grows(histories, at[j].0, at[i].0);
        }
    }
    at
}

/// What an export holds, column by column. Behind the line of names there is
/// one record for each sample of each history, in the order of time and pid.
/// It holds the sample's time stamp, the text of its time since monitoring
/// start with six decimals, the pid and the name of its process, the pid of the
/// parent or nothing, the text of its CPU percentage with four decimals, its
/// memory in bytes, and the texts of its disk rate and of its network rate with
/// two decimals. Whoever reads the table gets these records.
///
/// The result gives the records, the history and the sample that each shows,
/// and the texts of their real numbers.
pub proof fn export_shows_the_samples<F: Fn(Number, usize) -> String>(
    render: F,
    histories: Seq<&ProcessHistory>,
    count: nat,
    bytes: Seq<u8>,
) -> (shown: (Seq<Seq<Seq<char>>>, Seq<(int, int)>, Seq<RowTexts>))
    requires
        is_export(render, histories, count, bytes),
    ensures
        bytes == encode_utf8(csv_text(shown.0)),
        read_csv(csv_text(shown.0)) == shown.0,
        shown.0.len() == count + 1,
        shown.1.len() == count,
        shown.2.len() == count,
        shown.0[0] == seq![
            "timestamp_ms"@,
            "elapsed_secs"@,
            "pid"@,
            "name"@,
            "parent_pid"@,
            "cpu_percent"@,
            "memory_bytes"@,
            "disk_bytes_per_sec"@,
            "net_bytes_per_sec"@,
        ],
        forall|i: int|
            0 <= i < count ==> 0 <= (#[trigger] shown.1[i]).0 < histories.len() && 0 <= shown.1[i].1
                < histories[shown.1[i].0]@.samples.len(),
        forall|h: int, k: int|
            0 <= h < histories.len() && 0 <= k < histories[h]@.samples.len()
                ==> #[trigger] shown.1.contains((h, k)),
        forall|i: int, j: int|
            0 <= i < j < count ==> {
                let a = histories[(#[trigger] shown.1[i]).0]@;
                let b = histories[(#[trigger] shown.1[j]).0]@;
                let s = a.samples[shown.1[i].1].wall_clock_ms;
                let t = b.samples[shown.1[j].1].wall_clock_ms;
                ||| s < t
                ||| s == t && a.identity.pid < b.identity.pid
                ||| s == t && a.identity.pid == b.identity.pid && (shown.1[i].0 < shown.1[j].0 || (
                shown.1[i].0 == shown.1[j].0 && shown.1[i].1 < shown.1[j].1))
            },
        forall|i: int|
            0 <= i < count ==> {
                let history = histories[(#[trigger] shown.1[i]).0]@;
                let s = history.samples[shown.1[i].1];
                let record = shown.0[i + 1];
                &&& record.len() == 9
                &&& record[0] == signed_decimal(s.wall_clock_ms as int)
                &&& record[1] == shown.2[i].elapsed_secs@
                &&& record[2] == decimal(history.identity.pid as nat)
                &&& record[3] == history.identity.name@
                &&& history.identity.parent_pid is None ==> record[4].len() == 0
                &&& history.identity.parent_pid is Some ==> record[4] == decimal(
                    history.identity.parent_pid->0 as nat,
                )
                &&& record[5] == shown.2[i].cpu_percent@
                &&& record[6] == decimal(s.memory_bytes as nat)
                &&& record[7] == shown.2[i].disk_bytes_per_sec@
                &&& record[8] == shown.2[i].net_bytes_per_sec@
            },
        forall|i: int|
            0 <= i < count ==> {
                let s = histories[(#[trigger] shown.1[i]).0]@.samples[shown.1[i].1];
                let texts = shown.2[i];
                &&& call_ensures(
                    render,
                    (Number::Seconds { ns: s.elapsed_ns }, 6usize),
                    texts.elapsed_secs,
                )
                &&& call_ensures(
                    render,
                    (Number::Percent { bits: s.cpu_percent_bits }, 4usize),
                    texts.cpu_percent,
                )
                &&& call_ensures(
                    render,
                    (Number::PerSecond { rate: s.disk }, 2usize),
                    texts.disk_bytes_per_sec,
                )
                &&& call_ensures(
                    render,
                    (Number::PerSecond { rate: s.net }, 2usize),
                    texts.net_bytes_per_sec,
                )
            },
{
    let rows = sorted_rows(all_rows(histories));
    let texts = choose|texts: Seq<RowTexts>|
        #[trigger] renders_all(render, rows, texts) && bytes == encode_utf8(csv_table(rows, texts));
    let records = seq![headers()] + data_records(rows, texts);
    let at = lemma_rows_come_from(histories);
    columns_are_named();
    table_reads_back(rows, texts);
    assert(records[0] == headers());
    assert forall|i: int| 0 <= i < count implies {
        let history = histories[(#[trigger] at[i]).0]@;
        let s = history.samples[at[i].1];
        let record = records[i + 1];
        &&& record == row_fields(rows[i], texts[i])
        &&& renders(render, rows[i], texts[i])
        &&& *rows[i].identity == history.identity
        &&& rows[i].sample == s
    } by {
        assert(records[i + 1] == data_records(rows, texts)[i]);
    }
    (records, at, texts)
}

} // verus!
