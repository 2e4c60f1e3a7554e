//! Metric data structures used to record per-process resource usage over time.
//!
//! Quantities are kept exactly: times in nanoseconds, sizes in bytes, rates as
//! bytes over a span of time. A [`Number`] or a [`Reading`] says which real
//! number is to be shown; turning it into floating point is left to whoever
//! shows it.

use std::collections::VecDeque;
use vstd::prelude::*;
use vstd::string::*;

use crate::text::{decimal, decimal_reads_back, decimal_string, value_of_digits};

verus! {

/// The four resource dimensions that are tracked per process.
#[derive(Debug, Clone, Copy, PartialEq, Eq, Hash, Structural)]
pub enum MetricKind {
    /// CPU utilization as a percentage across all cores.
    Cpu,
    /// Resident memory.
    Memory,
    /// Disk I/O (read + write).
    Disk,
    /// Network I/O (rx + tx).
    Network,
}

impl MetricKind {
    pub const ALL: [MetricKind; 4] = [
        MetricKind::Cpu,
        MetricKind::Memory,
        MetricKind::Disk,
        MetricKind::Network,
    ];

    pub open spec fn label_text(self) -> Seq<char> {
        match self {
            MetricKind::Cpu => "CPU (%)"@,
            MetricKind::Memory => "Memory (MiB)"@,
            MetricKind::Disk => "Disk I/O (KiB/s)"@,
            MetricKind::Network => "Network I/O (KiB/s)"@,
        }
    }

    pub open spec fn short_text(self) -> Seq<char> {
        match self {
            MetricKind::Cpu => "cpu"@,
            MetricKind::Memory => "memory"@,
            MetricKind::Disk => "disk"@,
            MetricKind::Network => "network"@,
        }
    }

    /// The heading of the metric's plot.
    pub fn label(self) -> (r: &'static str)
        ensures
            r@ == self.label_text(),
    {
        match self {
            MetricKind::Cpu => "CPU (%)",
            MetricKind::Memory => "Memory (MiB)",
            MetricKind::Disk => "Disk I/O (KiB/s)",
            MetricKind::Network => "Network I/O (KiB/s)",
        }
    }

    pub fn short_name(self) -> (r: &'static str)
        ensures
            r@ == self.short_text(),
    {
        match self {
            MetricKind::Cpu => "cpu",
            MetricKind::Memory => "memory",
            MetricKind::Disk => "disk",
            MetricKind::Network => "network",
        }
    }

    /// How many of the recorded units make one unit of the plot: memory is
    /// shown in MiB, bandwidth in KiB/s.
    pub open spec fn unit(self) -> u64 {
        match self {
            MetricKind::Cpu => 1,
            MetricKind::Memory => 1_048_576,
            MetricKind::Disk => 1024,
            MetricKind::Network => 1024,
        }
    }
}

/// Every metric is listed, once, and no two share a heading or a short name;
/// none of the texts is empty.
pub proof fn metric_kinds_are_told_apart(a: MetricKind, b: MetricKind)
    ensures
        MetricKind::ALL@.contains(a),
        MetricKind::ALL@.no_duplicates(),
        a.label_text().len() > 0,
        a.short_text().len() > 0,
        a.label_text() == b.label_text() ==> a == b,
        a.short_text() == b.short_text() ==> a == b,
{
    reveal_strlit("CPU (%)");
    reveal_strlit("Memory (MiB)");
    reveal_strlit("Disk I/O (KiB/s)");
    reveal_strlit("Network I/O (KiB/s)");
    reveal_strlit("cpu");
    reveal_strlit("memory");
    reveal_strlit("disk");
    reveal_strlit("network");
    let all = MetricKind::ALL@;
    assert(all[0] == MetricKind::Cpu);
    assert(all[1] == MetricKind::Memory);
    assert(all[2] == MetricKind::Disk);
    assert(all[3] == MetricKind::Network);
    assert("CPU (%)"@[0] == 'C');
    assert("Memory (MiB)"@[0] == 'M');
    assert("Disk I/O (KiB/s)"@[0] == 'D');
    assert("Network I/O (KiB/s)"@[0] == 'N');
    assert("cpu"@[0] == 'c');
    assert("memory"@[0] == 'm');
    assert("disk"@[0] == 'd');
    assert("network"@[0] == 'n');
}

/// Stable identity of a tracked process.
///
/// The `pid` can be recycled by the OS, so it is combined with the executable
/// name and the start time (seconds since UNIX epoch) to get an identity that
/// tells processes apart even as they come and go.
#[derive(Debug, PartialEq, Eq, Hash)]
pub struct ProcessIdentity {
    pub pid: u32,
    pub name: String,
    pub start_time: u64,
    pub parent_pid: Option<u32>,
}

impl Clone for ProcessIdentity {
    fn clone(&self) -> (r: Self)
        ensures
            r == *self,
    {
        ProcessIdentity {
            pid: self.pid,
            name: self.name.clone(),
            start_time: self.start_time,
            parent_pid: self.parent_pid,
        }
    }
}

/// The two identities are of one process: pid, name and start time agree. Its
/// parent may have changed in between.
pub open spec fn same_process(a: ProcessIdentity, b: ProcessIdentity) -> bool {
    a.pid == b.pid && a.name@ == b.name@ && a.start_time == b.start_time
}

/// The label `name (pid N)`.
pub open spec fn labelled(name: Seq<char>, pid: u32) -> Seq<char> {
    name + " (pid "@ + decimal(pid as nat) + ")"@
}

impl ProcessIdentity {
    pub fn new(pid: u32, name: &str, start_time: u64) -> (r: Self)
        ensures
            r.pid == pid,
            r.name@ == name@,
            r.start_time == start_time,
            r.parent_pid is None,
    {
        ProcessIdentity { pid, name: name.to_owned(), start_time, parent_pid: None }
    }

    pub fn with_parent(self, parent_pid: Option<u32>) -> (r: Self)
        ensures
            r == (ProcessIdentity { parent_pid, ..self }),
    {
        ProcessIdentity {
            pid: self.pid,
            name: self.name,
            start_time: self.start_time,
            parent_pid,
        }
    }

    /// Whether the other identity is of the same process.
    pub fn is_same_process(&self, other: &ProcessIdentity) -> (r: bool)
        ensures
            r == same_process(*self, *other),
    {
        self.pid == other.pid && self.start_time == other.start_time && self.name == other.name
    }

    /// A short human-readable label used in the UI legend.
    pub fn display_label(&self) -> (r: String)
        ensures
            r@ == labelled(self.name@, self.pid),
    {
        label_of(self.name.as_str(), self.pid)
    }
}

pub fn label_of(name: &str, pid: u32) -> (r: String)
    ensures
        r@ == labelled(name@, pid),
{
    let mut r: String = String::new();
    let digits: String = decimal_string(pid as u64);
    r.append(name);
    r.append(" (pid ");
    r.append(digits.as_str());
    r.append(")");
    assert(r@ =~= labelled(name@, pid));
    r
}

/// So many bytes in so many nanoseconds.
#[derive(Debug, Clone, Copy, PartialEq, Eq, Structural)]
pub struct Rate {
    pub bytes: u128,
    pub over_ns: u128,
}

/// Nothing at all, every second.
pub open spec fn no_flow() -> Rate {
    Rate { bytes: 0, over_ns: 1_000_000_000 }
}

impl Rate {
    pub fn zero() -> (r: Self)
        ensures
            r == no_flow(),
    {
        Rate { bytes: 0, over_ns: 1_000_000_000 }
    }
}

/// A real number, held exactly.
#[derive(Debug, Clone, Copy, PartialEq, Eq, Structural)]
pub enum Number {
    /// So many nanoseconds, in seconds.
    Seconds { ns: u128 },
    /// A percentage, by the bit pattern of its single-precision float.
    Percent { bits: u32 },
    /// So many bytes.
    Bytes { bytes: u64 },
    /// A rate, in bytes per second.
    PerSecond { rate: Rate },
}

/// The quotient of a number and a whole, positive unit.
#[derive(Debug, Clone, Copy, PartialEq, Eq, Structural)]
pub struct Reading {
    pub number: Number,
    pub unit: u64,
}

/// One point of a plot: the time since monitoring start and the value there.
#[derive(Debug, Clone, Copy, PartialEq, Eq, Structural)]
pub struct Point {
    pub elapsed_ns: u128,
    pub value: Reading,
}

/// A single point in a metric time-series.
#[derive(Debug, Clone, Copy, PartialEq, Eq, Structural)]
pub struct MetricSample {
    /// Nanoseconds since monitoring start.
    pub elapsed_ns: u128,
    /// Millis since UNIX epoch, useful for CSV export.
    pub wall_clock_ms: i64,
    /// Bit pattern of the single-precision CPU percentage.
    pub cpu_percent_bits: u32,
    pub memory_bytes: u64,
    pub disk: Rate,
    pub net: Rate,
}

impl MetricSample {
    pub open spec fn number_for(self, kind: MetricKind) -> Number {
        match kind {
            MetricKind::Cpu => Number::Percent { bits: self.cpu_percent_bits },
            MetricKind::Memory => Number::Bytes { bytes: self.memory_bytes },
            MetricKind::Disk => Number::PerSecond { rate: self.disk },
            MetricKind::Network => Number::PerSecond { rate: self.net },
        }
    }

    pub open spec fn reading(self, kind: MetricKind) -> Reading {
        Reading { number: self.number_for(kind), unit: kind.unit() }
    }

    /// The value to plot for a metric, in the unit of its plot.
    pub fn value_for(&self, kind: MetricKind) -> (r: Reading)
        ensures
            r == self.reading(kind),
    {
        match kind {
            MetricKind::Cpu => Reading {
                number: Number::Percent { bits: self.cpu_percent_bits },
                unit: 1,
            },
            // Display memory in MiB for readability.
            MetricKind::Memory => Reading {
                number: Number::Bytes { bytes: self.memory_bytes },
                unit: 1_048_576,
            },
            // Display bandwidth in KiB/s.
            MetricKind::Disk => Reading {
                number: Number::PerSecond { rate: self.disk },
                unit: 1024,
            },
            MetricKind::Network => Reading {
                number: Number::PerSecond { rate: self.net },
                unit: 1024,
            },
        }
    }

    pub open spec fn point(self, kind: MetricKind) -> Point {
        Point { elapsed_ns: self.elapsed_ns, value: self.reading(kind) }
    }
}

/// Rolling history of metric samples for a single process.
///
/// History is bounded by `capacity`; the oldest samples are evicted once the
/// buffer is full so that long-running monitoring sessions do not grow
/// memory without bound.
#[derive(Debug)]
pub struct ProcessHistory {
    pub identity: ProcessIdentity,
    pub samples: VecDeque<MetricSample>,
    capacity: usize,
}

/// What a history holds.
pub struct HistoryView {
    pub identity: ProcessIdentity,
    pub samples: Seq<MetricSample>,
    pub capacity: nat,
}

impl View for ProcessHistory {
    type V = HistoryView;

    closed spec fn view(&self) -> HistoryView {
        HistoryView {
            identity: self.identity,
            samples: self.samples@,
            capacity: self.capacity as nat,
        }
    }
}

impl HistoryView {
    /// The buffer has room for something and is not over its capacity.
    pub open spec fn wf(self) -> bool {
        0 < self.capacity && self.samples.len() <= self.capacity
    }
}

/// What a buffer of samples holds once one more has been pushed.
pub open spec fn pushed(
    samples: Seq<MetricSample>,
    capacity: nat,
    sample: MetricSample,
) -> Seq<MetricSample> {
    if samples.len() == capacity && samples.len() > 0 {
        samples.drop_first().push(sample)
    } else {
        samples.push(sample)
    }
}

/// What a buffer of samples holds once `more` have been pushed one by one.
pub open spec fn pushed_all(
    samples: Seq<MetricSample>,
    capacity: nat,
    more: Seq<MetricSample>,
) -> Seq<MetricSample>
    decreases more.len(),
{
    if more.len() == 0 {
        samples
    } else {
        pushed(pushed_all(samples, capacity, more.drop_last()), capacity, more.last())
    }
}

/// A history keeps the newest samples, up to its capacity, oldest first; what
/// was pushed before them is gone.
pub proof fn history_keeps_the_newest(capacity: nat, pushes: Seq<MetricSample>)
    requires
        capacity > 0,
    ensures
        pushes.len() <= capacity ==> pushed_all(Seq::empty(), capacity, pushes) == pushes,
        pushes.len() > capacity ==> pushed_all(Seq::empty(), capacity, pushes) == pushes.skip(
            pushes.len() - capacity,
        ),
    decreases pushes.len(),
{
    if pushes.len() > 0 {
        let rest = pushes.drop_last();
        history_keeps_the_newest(capacity, rest);
        let kept = pushed_all(Seq::empty(), capacity, rest);
        if pushes.len() <= capacity {
            assert(kept.push(pushes.last()) =~= pushes);
        } else {
            assert(kept.len() == capacity);
            assert(kept.drop_first().push(pushes.last()) =~= pushes.skip(
                pushes.len() - capacity,
            ));
        }
    } else {
        assert(pushes =~= Seq::empty());
    }
}

impl ProcessHistory {
    pub fn new(identity: ProcessIdentity, capacity: usize) -> (r: Self)
        requires
            capacity > 0,
        ensures
            r@.wf(),
            r@ == (HistoryView { identity, samples: Seq::empty(), capacity: capacity as nat }),
    {
        let room: usize = if capacity < 4096 { capacity } else { 4096 };
        ProcessHistory { identity, samples: VecDeque::with_capacity(room), capacity }
    }

    pub fn push(&mut self, sample: MetricSample)
        ensures
            final(self)@ == (HistoryView {
                samples: pushed(old(self)@.samples, old(self)@.capacity, sample),
                ..old(self)@
            }),
            old(self)@.wf() ==> final(self)@.wf(),
    {
        if self.samples.len() == self.capacity {
            self.samples.pop_front();
        }
        self.samples.push_back(sample);
        assert(self.samples@ =~= pushed(old(self).samples@, old(self).capacity as nat, sample));
    }

    pub fn len(&self) -> (r: usize)
        ensures
            r == self@.samples.len(),
    {
        self.samples.len()
    }

    pub fn is_empty(&self) -> (r: bool)
        ensures
            r == (self@.samples.len() == 0),
    {
        self.samples.len() == 0
    }

    /// The process whose history this is.
    pub fn identity(&self) -> (r: &ProcessIdentity)
        ensures
            *r == self@.identity,
    {
        &self.identity
    }

    /// The sample at a place, counted from the oldest.
    pub fn sample(&self, i: usize) -> (r: &MetricSample)
        requires
            i < self@.samples.len(),
        ensures
            *r == self@.samples[i as int],
    {
        &self.samples[i]
    }

    pub fn capacity(&self) -> (r: usize)
        ensures
            r == self@.capacity,
    {
        self.capacity
    }

    pub open spec fn points(&self, kind: MetricKind) -> Seq<Point> {
        self@.samples.map_values(|s: MetricSample| s.point(kind))
    }

    /// The points of the metric's line, oldest first.
    pub fn series(&self, kind: MetricKind) -> (r: Vec<Point>)
        ensures
            r@ == self.points(kind),
    {
        let mut r: Vec<Point> = Vec::new();
        let mut i: usize = 0;
        while i < self.samples.len()
            invariant
                i <= self.samples@.len(),
                r@ == self.points(kind).take(i as int),
            decreases self.samples@.len() - i,
        {
            let s: &MetricSample = &self.samples[i];
            r.push(Point { elapsed_ns: s.elapsed_ns, value: s.value_for(kind) });
            i = i + 1;
            assert(r@ =~= self.points(kind).take(i as int));
        }
        assert(self.points(kind).take(i as int) =~= self.points(kind));
        r
    }

    /// Returns the latest sample, if any.
    pub fn latest(&self) -> (r: Option<&MetricSample>)
        ensures
            self@.samples.len() == 0 ==> r is None,
            self@.samples.len() > 0 ==> r == Some(&self@.samples.last()),
    {
        let n: usize = self.samples.len();
        if n == 0 {
            None
        } else {
            Some(&self.samples[n - 1])
        }
    }
}

impl Clone for ProcessHistory {
    fn clone(&self) -> (r: Self)
        ensures
            r@ == self@,
    {
        let mut samples: VecDeque<MetricSample> = VecDeque::new();
        let mut i: usize = 0;
        while i < self.samples.len()
            invariant
                i <= self.samples@.len(),
                samples@ == self.samples@.take(i as int),
            decreases self.samples@.len() - i,
        {
            samples.push_back(self.samples[i]);
            i = i + 1;
            assert(samples@ =~= self.samples@.take(i as int));
        }
        assert(self.samples@.take(i as int) =~= self.samples@);
        ProcessHistory { identity: self.identity.clone(), samples, capacity: self.capacity }
    }
}

// ---- what holds of samples and histories -----------------------------------

/// What is plotted of a sample: the CPU percentage as it is, the memory in MiB,
/// and the disk and network rates in KiB per second, each out of its own field.
pub proof fn readings_show_the_sample(s: MetricSample)
    ensures
        s.reading(MetricKind::Cpu) == (Reading {
            number: Number::Percent { bits: s.cpu_percent_bits },
            unit: 1,
        }),
        s.reading(MetricKind::Memory) == (Reading {
            number: Number::Bytes { bytes: s.memory_bytes },
            unit: 1_048_576,
        }),
        s.reading(MetricKind::Disk) == (Reading {
            number: Number::PerSecond { rate: s.disk },
            unit: 1024,
        }),
        s.reading(MetricKind::Network) == (Reading {
            number: Number::PerSecond { rate: s.net },
            unit: 1024,
        }),
{
}

/// The line of a history has one point for each sample, in their order, at the
/// sample's time and with the sample's own figure for the metric.
pub proof fn series_shows_every_sample(history: &ProcessHistory, kind: MetricKind, i: int)
    requires
        0 <= i < history@.samples.len(),
    ensures
        ({
            let points = history.points(kind);
            let s = history@.samples[i];
            &&& points.len() == history@.samples.len()
            &&& points[i].elapsed_ns == s.elapsed_ns
            &&& kind is Cpu ==> points[i].value == (Reading {
                number: Number::Percent { bits: s.cpu_percent_bits },
                unit: 1,
            })
            &&& kind is Memory ==> points[i].value == (Reading {
                number: Number::Bytes { bytes: s.memory_bytes },
                unit: 1_048_576,
            })
            &&& kind is Disk ==> points[i].value == (Reading {
                number: Number::PerSecond { rate: s.disk },
                unit: 1024,
            })
            &&& kind is Network ==> points[i].value == (Reading {
                number: Number::PerSecond { rate: s.net },
                unit: 1024,
            })
        }),
{
}

/// A sample that is pushed comes last; those before it stay in their order, but
/// for the oldest of a full buffer.
pub proof fn pushing_appends(samples: Seq<MetricSample>, capacity: nat, sample: MetricSample)
    requires
        capacity > 0,
        samples.len() <= capacity,
    ensures
        ({
            let after = pushed(samples, capacity, sample);
            let gone = if samples.len() == capacity { 1int } else { 0 };
            &&& after.len() == samples.len() + 1 - gone
            &&& after.last() == sample
            &&& forall|i: int| 0 <= i < after.len() - 1 ==> #[trigger] after[i] == samples[i + gone]
        }),
{
}

/// Two identities are of one process exactly where pid, name and start time
/// agree; the parent has no part in it.
pub proof fn processes_are_told_apart(a: ProcessIdentity, b: ProcessIdentity)
    ensures
        same_process(a, b) ==> a.pid == b.pid && a.name@ == b.name@ && a.start_time
            == b.start_time,
        a.pid == b.pid && a.name@ == b.name@ && a.start_time == b.start_time ==> same_process(a, b),
        same_process(a, ProcessIdentity { parent_pid: b.parent_pid, ..a }),
{
}

/// A label is the name, then the pid in digits that read back as the pid, in
/// brackets.
pub proof fn labels_show_name_and_pid(name: Seq<char>, pid: u32) -> (digits: Seq<char>)
    ensures
        labelled(name, pid) == name + " (pid "@ + digits + ")"@,
        value_of_digits(digits) == pid,
        forall|i: int| 0 <= i < digits.len() ==> 0x30 <= (#[trigger] digits[i]) as u32 <= 0x39,
        digits.len() > 0,
{
    decimal_reads_back(pid as nat);
    decimal(pid as nat)
}

/// What the plots are headed by, and the unit that each shows its metric in.
pub proof fn plots_name_their_metric(kind: MetricKind)
    ensures
        kind is Cpu ==> kind.label_text() == "CPU (%)"@ && kind.short_text() == "cpu"@,
        kind is Memory ==> kind.label_text() == "Memory (MiB)"@ && kind.short_text() == "memory"@,
        kind is Disk ==> kind.label_text() == "Disk I/O (KiB/s)"@ && kind.short_text() == "disk"@,
        kind is Network ==> kind.label_text() == "Network I/O (KiB/s)"@ && kind.short_text()
            == "network"@,
{
}

} // verus!
