//! Lines that combine the samples of several processes.
//!
//! Samples are taken at the pace of the sampling interval, but not at exact
//! multiples of it. To add up the samples of several processes, each is
//! assigned to the multiple that it is nearest to: its time slot.

use std::collections::{BTreeMap, HashMap, HashSet};
use vstd::arithmetic::div_mod::lemma_fundamental_div_mod;
use vstd::prelude::*;
use vstd::std_specs::cmp::OrdSpec;
use vstd::std_specs::iter::IteratorSpec;

use crate::metrics::{MetricKind, MetricSample, Number, ProcessHistory, Reading};
use crate::pids::{lemma_lists_without, lists, members_of};

verus! {

broadcast use {vstd::std_specs::hash::group_hash_axioms, vstd::std_specs::btree::group_btree_axioms};

/// The readings of one time slot. The value of the line there is their sum.
#[derive(Debug)]
pub struct Bucket {
    /// The time since monitoring start, in sampling intervals.
    pub slot: u128,
    pub readings: Vec<Reading>,
}

/// The sampling interval that lines go by, in nanoseconds: whole
/// milliseconds, one at least.
pub open spec fn pace(sample_interval_ns: u128) -> int {
    let whole = sample_interval_ns as int / 1_000_000;
    if whole < 1 {
        1_000_000
    } else {
        whole * 1_000_000
    }
}

/// The multiple of `interval` that is nearest to `elapsed`, the later one
/// where two are equally near.
pub open spec fn nearest_slot(elapsed: int, interval: int) -> int {
    if 2 * (elapsed % interval) < interval {
        elapsed / interval
    } else {
        elapsed / interval + 1
    }
}

/// The sampling interval that lines go by, in milliseconds.
pub fn pace_ms(sample_interval_ns: u128) -> (r: u128)
    ensures
        r > 0,
        r * 1_000_000 == pace(sample_interval_ns),
{
    let whole: u128 = sample_interval_ns / 1_000_000;
    if whole < 1 {
        1
    } else {
        whole
    }
}

/// The time slot of a sample.
pub fn slot_of(elapsed_ns: u128, interval_ns: u128) -> (r: u128)
    requires
        interval_ns > 0,
    ensures
        r == nearest_slot(elapsed_ns as int, interval_ns as int),
{
    let whole: u128 = elapsed_ns / interval_ns;
    let over: u128 = elapsed_ns % interval_ns;
    proof {
        let q = whole as int;
        let i = interval_ns as int;
        lemma_fundamental_div_mod(elapsed_ns as int, i);
        assert(i >= 2 ==> 2 * q <= i * q) by (nonlinear_arith)
            requires
                q >= 0,
        ;
    }
    if over >= interval_ns - over {
        whole + 1
    } else {
        whole
    }
}

/// No multiple of the interval is nearer to a time than its slot.
pub proof fn slot_is_nearest(elapsed: int, interval: int, other: int)
    requires
        interval > 0,
    ensures
        ({
            let off = elapsed - nearest_slot(elapsed, interval) * interval;
            let other_off = elapsed - other * interval;
            &&& -interval <= 2 * off < interval
            &&& (if off < 0 { -off } else { off }) <= (if other_off < 0 { -other_off } else {
                other_off
            })
        }),
{
    let s = nearest_slot(elapsed, interval);
    let q = elapsed / interval;
    let r = elapsed % interval;
    lemma_fundamental_div_mod(elapsed, interval);
    assert(elapsed == interval * q + r);
    assert(interval * q == q * interval) by (nonlinear_arith);
    assert((q + 1) * interval == q * interval + interval) by (nonlinear_arith);
    let other_off = elapsed - other * interval;
    if other > s {
        assert(other * interval >= s * interval + interval) by (nonlinear_arith)
            requires
                other >= s + 1,
                interval > 0,
        ;
    } else if other < s {
        assert(other * interval <= s * interval - interval) by (nonlinear_arith)
            requires
                other <= s - 1,
                interval > 0,
        ;
    }
}

/// The readings of the samples that fall into a slot, in the order of the
/// samples.
pub open spec fn readings_in(
    samples: Seq<MetricSample>,
    interval: int,
    kind: MetricKind,
    slot: int,
) -> Seq<Reading>
    decreases samples.len(),
{
    if samples.len() == 0 {
        Seq::empty()
    } else {
        let before = readings_in(samples.drop_last(), interval, kind, slot);
        if nearest_slot(samples.last().elapsed_ns as int, interval) == slot {
            before.push(samples.last().reading(kind))
        } else {
            before
        }
    }
}

/// The samples of the ended histories of a pid, in the order of the histories.
pub open spec fn ended_samples(ended: Seq<ProcessHistory>, pid: u32) -> Seq<MetricSample>
    decreases ended.len(),
{
    if ended.len() == 0 {
        Seq::empty()
    } else {
        let before = ended_samples(ended.drop_last(), pid);
        if ended.last()@.identity.pid == pid {
            before + ended.last()@.samples
        } else {
            before
        }
    }
}

/// The samples recorded under a pid: those of its ended histories, then those
/// of its present one.
pub open spec fn recorded_samples(
    histories: Map<u32, ProcessHistory>,
    ended: Seq<ProcessHistory>,
    pid: u32,
) -> Seq<MetricSample> {
    if histories.contains_key(pid) {
        ended_samples(ended, pid) + histories[pid]@.samples
    } else {
        ended_samples(ended, pid)
    }
}

/// The samples of the listed pids, one pid after the other.
pub open spec fn samples_of(
    histories: Map<u32, ProcessHistory>,
    ended: Seq<ProcessHistory>,
    pids: Seq<u32>,
) -> Seq<MetricSample>
    decreases pids.len(),
{
    if pids.len() == 0 {
        Seq::empty()
    } else {
        samples_of(histories, ended, pids.drop_last()) + recorded_samples(
            histories,
            ended,
            pids.last(),
        )
    }
}

/// `buckets` holds the readings of the samples by slot, from the earliest slot
/// to the latest, and no slot without a reading.
pub open spec fn is_aggregate(
    samples: Seq<MetricSample>,
    interval: int,
    kind: MetricKind,
    buckets: Seq<Bucket>,
) -> bool {
    &&& forall|i: int, j: int|
        0 <= i < j < buckets.len() ==> (#[trigger] buckets[i]).slot < (#[trigger] buckets[j]).slot
    &&& forall|i: int|
        0 <= i < buckets.len() ==> {
            &&& (#[trigger] buckets[i]).readings@.len() > 0
            &&& buckets[i].readings@ == readings_in(samples, interval, kind, buckets[i].slot as int)
        }
    &&& forall|slot: int|
        (#[trigger] readings_in(samples, interval, kind, slot)).len() > 0 ==> has_slot(
            buckets,
            slot,
        )
}

pub open spec fn has_slot(buckets: Seq<Bucket>, slot: int) -> bool {
    exists|i: int| 0 <= i < buckets.len() && (#[trigger] buckets[i]).slot == slot
}

/// `pool` holds the readings of the samples by slot.
spec fn is_pool(
    samples: Seq<MetricSample>,
    interval: int,
    kind: MetricKind,
    pool: Map<u128, Vec<Reading>>,
) -> bool {
    &&& forall|slot: u128| #[trigger]
        pool.contains_key(slot) ==> pool[slot]@.len() > 0 && pool[slot]@ == readings_in(
            samples,
            interval,
            kind,
            slot as int,
        )
    &&& forall|slot: int|
        (#[trigger] readings_in(samples, interval, kind, slot)).len() > 0 ==> 0 <= slot
            <= u128::MAX && pool.contains_key(slot as u128)
}

/// Adds the reading of one more sample to a pool.
fn pool_sample(
    pool: &mut BTreeMap<u128, Vec<Reading>>,
    sample: &MetricSample,
    interval_ns: u128,
    kind: MetricKind,
    Ghost(samples): Ghost<Seq<MetricSample>>,
)
    requires
        interval_ns > 0,
        is_pool(samples, interval_ns as int, kind, old(pool)@),
    ensures
        is_pool(samples.push(*sample), interval_ns as int, kind, final(pool)@),
{
    let ghost before = pool@;
    let ghost interval = interval_ns as int;
    let slot: u128 = slot_of(sample.elapsed_ns, interval_ns);
    let mut readings: Vec<Reading> = match pool.remove(&slot) {
        Some(readings) => readings,
        None => Vec::new(),
    };
    assert(readings@ == readings_in(samples, interval, kind, slot as int));
    readings.push(sample.value_for(kind));
    let ghost grown = readings;
    pool.insert(slot, readings);
    proof {
        let now = samples.push(*sample);
        assert(now.drop_last() =~= samples);
        assert(pool@ =~= before.insert(slot, grown));
        assert forall|k: u128| #[trigger] pool@.contains_key(k) implies pool@[k]@.len() > 0
            && pool@[k]@ == readings_in(now, interval, kind, k as int) by {
            if k != slot {
                assert(before.contains_key(k));
            }
        }
        assert forall|k: int|
            (#[trigger] readings_in(now, interval, kind, k)).len() > 0 implies 0 <= k <= u128::MAX
            && pool@.contains_key(k as u128) by {
            if k != slot {
                assert(readings_in(samples, interval, kind, k).len() > 0);
            }
        }
    }
}

/// A sequence in the order of a B-tree is increasing.
proof fn lemma_slots_increase(slots: Seq<u128>)
    requires
        vstd::std_specs::btree::increasing_seq(slots),
    ensures
        forall|i: int, j: int| 0 <= i < j < slots.len() ==> slots[i] < slots[j],
{
    assert forall|i: int, j: int| 0 <= i < j < slots.len() implies slots[i] < slots[j] by {
        assert(slots[i].cmp_spec(&slots[j]) is Less);
    }
}

/// The readings of a pool, from the earliest slot to the latest.
fn drain_pool(pool: BTreeMap<u128, Vec<Reading>>) -> (buckets: Vec<Bucket>)
    ensures
        forall|i: int, j: int|
            0 <= i < j < buckets@.len() ==> (#[trigger] buckets@[i]).slot < (
            #[trigger] buckets@[j]).slot,
        forall|i: int|
            0 <= i < buckets@.len() ==> pool@.contains_key((#[trigger] buckets@[i]).slot)
                && buckets@[i].readings == pool@[buckets@[i].slot],
        forall|slot: u128| #[trigger] pool@.contains_key(slot) ==> has_slot(buckets@, slot as int),
{
    let entries = pool.iter();
    let ghost listed = entries.remaining();
    let ghost slots = listed.map_values(|e: (&u128, &Vec<Reading>)| *e.0);
    assert(vstd::std_specs::btree::increasing_seq(slots));
    let mut order: Vec<u128> = Vec::new();
    for e in it: entries
        invariant
            it.seq() == listed,
            slots == listed.map_values(|e: (&u128, &Vec<Reading>)| *e.0),
            order@ == slots.take(it.index()),
    {
        order.push(*e.0);
        assert(order@ =~= slots.take(it.index() + 1));
    }
    assert(order@ =~= slots);
    proof {
        lemma_slots_increase(slots);
        assert forall|i: int| 0 <= i < order@.len() implies pool@.contains_key(
            #[trigger] order@[i],
        ) by {
            assert(pool@.contains_key(*listed[i].0));
        }
        assert forall|slot: u128| pool@.contains_key(slot) implies #[trigger] order@.contains(
            slot,
        ) by {
            assert(listed.contains((&slot, &pool@[slot])));
            let i = choose|i: int|
                0 <= i < listed.len() && listed[i] == (&slot, &pool@[slot]);
            assert(order@[i] == slot);
        }
    }
    let mut rest: BTreeMap<u128, Vec<Reading>> = pool;
    let mut buckets: Vec<Bucket> = Vec::new();
    let mut i: usize = 0;
    while i < order.len()
        invariant
            forall|a: int, b: int| 0 <= a < b < order@.len() ==> order@[a] < order@[b],
            forall|a: int| 0 <= a < order@.len() ==> pool@.contains_key(#[trigger] order@[a]),
            i <= order@.len(),
            forall|a: int|
                i <= a < order@.len() ==> rest@.contains_key(#[trigger] order@[a])
                    && rest@[order@[a]] == pool@[order@[a]],
            buckets@.len() == i,
            forall|a: int|
                0 <= a < i ==> (#[trigger] buckets@[a]).slot == order@[a] && buckets@[a].readings
                    == pool@[order@[a]],
        decreases order@.len() - i,
    {
        let slot: u128 = order[i];
        if let Some(readings) = rest.remove(&slot) {
            buckets.push(Bucket { slot, readings });
        }
        i = i + 1;
    }
    proof {
        assert forall|slot: u128| #[trigger] pool@.contains_key(slot) implies has_slot(
            buckets@,
            slot as int,
        ) by {
            assert(order@.contains(slot));
            let a = choose|a: int| 0 <= a < order@.len() && order@[a] == slot;
            assert(buckets@[a].slot == slot);
        }
    }
    buckets
}

/// Adds the readings of the samples of one more history to a pool.
fn pool_history(
    pool: &mut BTreeMap<u128, Vec<Reading>>,
    history: &ProcessHistory,
    interval_ns: u128,
    kind: MetricKind,
    Ghost(before): Ghost<Seq<MetricSample>>,
)
    requires
        interval_ns > 0,
        is_pool(before, interval_ns as int, kind, old(pool)@),
    ensures
        is_pool(before + history@.samples, interval_ns as int, kind, final(pool)@),
{
    let ghost all = history@.samples;
    let mut j: usize = 0;
    assert(before + all.take(0) =~= before);
    while j < history.len()
        invariant
            interval_ns > 0,
            all == history@.samples,
            j <= all.len(),
            is_pool(before + all.take(j as int), interval_ns as int, kind, pool@),
        decreases all.len() - j,
    {
        pool_sample(
            pool,
            history.sample(j),
            interval_ns,
            kind,
            Ghost(before + all.take(j as int)),
        );
        assert((before + all.take(j as int)).push(all[j as int]) =~= before + all.take(j + 1));
        j = j + 1;
    }
    assert(all.take(j as int) =~= all);
}

/// The combined line of the listed pids: the readings of the metric in their
/// ended and their present histories, by time slot.
pub fn aggregate(
    histories: &HashMap<u32, ProcessHistory>,
    ended: &Vec<ProcessHistory>,
    pids: &HashSet<u32>,
    sample_interval_ns: u128,
    kind: MetricKind,
) -> (buckets: Vec<Bucket>)
    ensures
        exists|order: Seq<u32>|
            #[trigger] lists(order, pids@) && is_aggregate(
                samples_of(histories@, ended@, order),
                pace(sample_interval_ns),
                kind,
                buckets@,
            ),
{
    let interval_ns: u128 = pace_ms(sample_interval_ns) * 1_000_000;
    let order: Vec<u32> = members_of(pids);
    let ghost interval = interval_ns as int;
    let mut pool: BTreeMap<u128, Vec<Reading>> = BTreeMap::new();
    let mut i: usize = 0;
    assert(order@.take(0) =~= Seq::empty());
    while i < order.len()
        invariant
            interval_ns > 0,
            interval == interval_ns,
            i <= order@.len(),
            is_pool(
                samples_of(histories@, ended@, order@.take(i as int)),
                interval,
                kind,
                pool@,
            ),
        decreases order@.len() - i,
    {
        let pid: u32 = order[i];
        let ghost before = samples_of(histories@, ended@, order@.take(i as int));
        let mut e: usize = 0;
        proof {
            assert(ended@.take(0) =~= Seq::empty());
            assert(before + ended_samples(ended@.take(0), pid) =~= before);
        }
        while e < ended.len()
            invariant
                interval_ns > 0,
                interval == interval_ns,
                e <= ended@.len(),
                is_pool(
                    before + ended_samples(ended@.take(e as int), pid),
                    interval,
                    kind,
                    pool@,
                ),
            decreases ended@.len() - e,
        {
            let ghost done = ended_samples(ended@.take(e as int), pid);
            proof {
                let now = ended@.take(e + 1);
                assert(now.drop_last() =~= ended@.take(e as int));
                assert(now.last() == ended@[e as int]);
            }
            if ended[e].identity().pid == pid {
                pool_history(&mut pool, &ended[e], interval_ns, kind, Ghost(before + done));
                assert((before + done) + ended@[e as int]@.samples =~= before + (done
                    + ended@[e as int]@.samples));
            }
            e = e + 1;
        }
        let ghost gone = ended_samples(ended@, pid);
        assert(ended@.take(e as int) =~= ended@);
        if let Some(history) = histories.get(&pid) {
            pool_history(&mut pool, history, interval_ns, kind, Ghost(before + gone));
            assert((before + gone) + history@.samples =~= before + (gone + history@.samples));
        }
        proof {
            let now = order@.take(i + 1);
            assert(now.drop_last() =~= order@.take(i as int));
            assert(now.last() == pid);
        }
        i = i + 1;
    }
    assert(order@.take(i as int) =~= order@);
    let ghost pooled = pool@;
    let buckets: Vec<Bucket> = drain_pool(pool);
    proof {
        let samples = samples_of(histories@, ended@, order@);
        assert forall|i: int| 0 <= i < buckets@.len() implies {
            &&& (#[trigger] buckets@[i]).readings@.len() > 0
            &&& buckets@[i].readings@ == readings_in(
                samples,
                interval,
                kind,
                buckets@[i].slot as int,
            )
        } by {
            assert(pooled.contains_key(buckets@[i].slot));
        }
        assert forall|slot: int|
            (#[trigger] readings_in(samples, interval, kind, slot)).len() > 0 implies has_slot(
            buckets@,
            slot,
        ) by {
            assert(pooled.contains_key(slot as u128));
        }
        assert(is_aggregate(samples, interval, kind, buckets@));
        assert(lists(order@, pids@));
    }
    buckets
}

// ---- what a combined line shows --------------------------------------------

/// How many readings the buckets hold.
pub open spec fn total_readings(buckets: Seq<Bucket>) -> nat
    decreases buckets.len(),
{
    if buckets.len() == 0 {
        0
    } else {
        total_readings(buckets.drop_last()) + buckets.last().readings@.len()
    }
}

/// How many readings of the samples fall into the listed slots.
spec fn count_in(
    samples: Seq<MetricSample>,
    interval: int,
    kind: MetricKind,
    slots: Seq<int>,
) -> nat
    decreases slots.len(),
{
    if slots.len() == 0 {
        0
    } else {
        count_in(samples, interval, kind, slots.drop_last()) + readings_in(
            samples,
            interval,
            kind,
            slots.last(),
        ).len()
    }
}

proof fn lemma_one_more_sample(
    samples: Seq<MetricSample>,
    interval: int,
    kind: MetricKind,
    slots: Seq<int>,
)
    requires
        samples.len() > 0,
        slots.no_duplicates(),
    ensures
        count_in(samples, interval, kind, slots) == count_in(
            samples.drop_last(),
            interval,
            kind,
            slots,
        ) + (if slots.contains(nearest_slot(samples.last().elapsed_ns as int, interval)) {
            1int
        } else {
            0
        }),
    decreases slots.len(),
{
    let slot = nearest_slot(samples.last().elapsed_ns as int, interval);
    if slots.len() > 0 {
        let fewer = slots.drop_last();
        lemma_one_more_sample(samples, interval, kind, fewer);
        if slots.last() == slot {
            assert(slots[slots.len() - 1] == slot);
            assert(slots.contains(slot));
            if fewer.contains(slot) {
                let i = choose|i: int| 0 <= i < fewer.len() && fewer[i] == slot;
                assert(slots[i] == slots[slots.len() - 1]);
            }
        } else {
            assert(slots.contains(slot) <==> fewer.contains(slot)) by {
                if slots.contains(slot) {
                    let i = choose|i: int| 0 <= i < slots.len() && slots[i] == slot;
                    assert(fewer[i] == slot);
                }
                if fewer.contains(slot) {
                    let i = choose|i: int| 0 <= i < fewer.len() && fewer[i] == slot;
                    assert(slots[i] == slot);
                }
            }
        }
    }
}

proof fn lemma_all_counted(
    samples: Seq<MetricSample>,
    interval: int,
    kind: MetricKind,
    slots: Seq<int>,
)
    requires
        slots.no_duplicates(),
        forall|slot: int|
            (#[trigger] readings_in(samples, interval, kind, slot)).len() > 0 ==> slots.contains(
                slot,
            ),
    ensures
        count_in(samples, interval, kind, slots) == samples.len(),
    decreases samples.len(),
{
    if samples.len() == 0 {
        lemma_none_counted(samples, interval, kind, slots);
    } else {
        let fewer = samples.drop_last();
        let last = nearest_slot(samples.last().elapsed_ns as int, interval);
        assert(readings_in(samples, interval, kind, last).len() > 0);
        assert forall|slot: int|
            (#[trigger] readings_in(fewer, interval, kind, slot)).len() > 0 implies slots.contains(
            slot,
        ) by {
            assert(readings_in(samples, interval, kind, slot).len() > 0);
        }
        lemma_all_counted(fewer, interval, kind, slots);
        lemma_one_more_sample(samples, interval, kind, slots);
    }
}

proof fn lemma_none_counted(
    samples: Seq<MetricSample>,
    interval: int,
    kind: MetricKind,
    slots: Seq<int>,
)
    requires
        samples.len() == 0,
    ensures
        count_in(samples, interval, kind, slots) == 0,
    decreases slots.len(),
{
    if slots.len() > 0 {
        lemma_none_counted(samples, interval, kind, slots.drop_last());
    }
}

proof fn lemma_buckets_counted(
    samples: Seq<MetricSample>,
    interval: int,
    kind: MetricKind,
    buckets: Seq<Bucket>,
)
    requires
        forall|i: int|
            0 <= i < buckets.len() ==> (#[trigger] buckets[i]).readings@ == readings_in(
                samples,
                interval,
                kind,
                buckets[i].slot as int,
            ),
    ensures
        total_readings(buckets) == count_in(
            samples,
            interval,
            kind,
            buckets.map_values(|b: Bucket| b.slot as int),
        ),
    decreases buckets.len(),
{
    if buckets.len() > 0 {
        let fewer = buckets.drop_last();
        assert forall|i: int| 0 <= i < fewer.len() implies (#[trigger] fewer[i]).readings@
            == readings_in(samples, interval, kind, fewer[i].slot as int) by {
            assert(fewer[i] == buckets[i]);
        }
        lemma_buckets_counted(samples, interval, kind, fewer);
        let slots = buckets.map_values(|b: Bucket| b.slot as int);
        assert(slots.drop_last() =~= fewer.map_values(|b: Bucket| b.slot as int));
        assert(slots.last() == buckets.last().slot);
    }
}

/// A combined line loses no sample and counts none twice.
pub proof fn every_sample_is_counted_once(
    samples: Seq<MetricSample>,
    interval: int,
    kind: MetricKind,
    buckets: Seq<Bucket>,
)
    requires
        is_aggregate(samples, interval, kind, buckets),
    ensures
        total_readings(buckets) == samples.len(),
{
    let slots = buckets.map_values(|b: Bucket| b.slot as int);
    lemma_buckets_counted(samples, interval, kind, buckets);
    assert forall|i: int, j: int| 0 <= i < slots.len() && 0 <= j < slots.len() && i != j implies slots[i]
        != slots[j] by {
        if i < j {
            assert(buckets[i].slot < buckets[j].slot);
        } else {
            assert(buckets[j].slot < buckets[i].slot);
        }
    }
    assert forall|slot: int|
        (#[trigger] readings_in(samples, interval, kind, slot)).len() > 0 implies slots.contains(
        slot,
    ) by {
        assert(has_slot(buckets, slot));
        let i = choose|i: int| 0 <= i < buckets.len() && (#[trigger] buckets[i]).slot == slot;
        assert(slots[i] == slot);
    }
    lemma_all_counted(samples, interval, kind, slots);
}

proof fn lemma_readings_concat(
    a: Seq<MetricSample>,
    b: Seq<MetricSample>,
    interval: int,
    kind: MetricKind,
    slot: int,
)
    ensures
        readings_in(a + b, interval, kind, slot) == readings_in(a, interval, kind, slot)
            + readings_in(b, interval, kind, slot),
    decreases b.len(),
{
    if b.len() == 0 {
        assert(a + b =~= a);
        assert(readings_in(a, interval, kind, slot) + Seq::empty() =~= readings_in(
            a,
            interval,
            kind,
            slot,
        ));
    } else {
        assert((a + b).drop_last() =~= a + b.drop_last());
        assert((a + b).last() == b.last());
        lemma_readings_concat(a, b.drop_last(), interval, kind, slot);
        assert(readings_in(a + b, interval, kind, slot) =~= readings_in(a, interval, kind, slot)
            + readings_in(b, interval, kind, slot));
    }
}

proof fn lemma_readings_without(
    histories: Map<u32, ProcessHistory>,
    ended: Seq<ProcessHistory>,
    pids: Seq<u32>,
    k: int,
    interval: int,
    kind: MetricKind,
    slot: int,
)
    requires
        0 <= k < pids.len(),
    ensures
        readings_in(samples_of(histories, ended, pids), interval, kind, slot).to_multiset() == readings_in(
            samples_of(histories, ended, pids.remove(k)),
            interval,
            kind,
            slot,
        ).to_multiset().add(
            readings_in(
                recorded_samples(histories, ended, pids[k]),
                interval,
                kind,
                slot,
            ).to_multiset(),
        ),
    decreases pids.len(),
{
    let last = recorded_samples(histories, ended, pids.last());
    let before = samples_of(histories, ended, pids.drop_last());
    lemma_readings_concat(before, last, interval, kind, slot);
    vstd::seq_lib::lemma_multiset_commutative(
        readings_in(before, interval, kind, slot),
        readings_in(last, interval, kind, slot),
    );
    if k == pids.len() - 1 {
        assert(pids.remove(k) =~= pids.drop_last());
    } else {
        let fewer = pids.drop_last().remove(k);
        lemma_readings_without(histories, ended, pids.drop_last(), k, interval, kind, slot);
        assert(pids.remove(k).drop_last() =~= fewer);
        assert(pids.remove(k).last() == pids.last());
        lemma_readings_concat(samples_of(histories, ended, fewer), last, interval, kind, slot);
        vstd::seq_lib::lemma_multiset_commutative(
            readings_in(samples_of(histories, ended, fewer), interval, kind, slot),
            readings_in(last, interval, kind, slot),
        );
        let x = readings_in(samples_of(histories, ended, fewer), interval, kind, slot).to_multiset();
        let y = readings_in(
            recorded_samples(histories, ended, pids[k]),
            interval,
            kind,
            slot,
        ).to_multiset();
        let z = readings_in(last, interval, kind, slot).to_multiset();
        assert(x.add(y).add(z) =~= x.add(z).add(y));
    }
}

/// What a time slot holds does not depend on the order in which the processes
/// are walked.
pub proof fn order_of_processes_does_not_matter(
    histories: Map<u32, ProcessHistory>,
    ended: Seq<ProcessHistory>,
    set: Set<u32>,
    a: Seq<u32>,
    b: Seq<u32>,
    interval: int,
    kind: MetricKind,
    slot: int,
)
    requires
        lists(a, set),
        lists(b, set),
    ensures
        readings_in(samples_of(histories, ended, a), interval, kind, slot).to_multiset() == readings_in(
            samples_of(histories, ended, b),
            interval,
            kind,
            slot,
        ).to_multiset(),
    decreases a.len(),
{
    if a.len() == 0 {
        if b.len() > 0 {
            assert(b.contains(b[0]));
            assert(a.contains(b[0]));
        }
        assert(a =~= b);
    } else {
        let p = a.last();
        assert(a.contains(a[a.len() - 1]));
        assert(b.contains(p));
        let k = choose|k: int| 0 <= k < b.len() && b[k] == p;
        lemma_lists_without(a, set, a.len() - 1);
        lemma_lists_without(b, set, k);
        lemma_readings_without(histories, ended, a, a.len() - 1, interval, kind, slot);
        lemma_readings_without(histories, ended, b, k, interval, kind, slot);
        order_of_processes_does_not_matter(
            histories,
            ended,
            set.remove(p),
            a.remove(a.len() - 1),
            b.remove(k),
            interval,
            kind,
            slot,
        );
    }
}

/// The pace of a line is a whole number of milliseconds: what is over in the
/// interval is dropped, and an interval below one millisecond counts as one.
pub proof fn pace_is_in_whole_milliseconds(sample_interval_ns: u128)
    ensures
        pace(sample_interval_ns) % 1_000_000 == 0,
        sample_interval_ns >= 1_000_000 ==> pace(sample_interval_ns) <= sample_interval_ns < pace(
            sample_interval_ns,
        ) + 1_000_000,
        sample_interval_ns < 1_000_000 ==> pace(sample_interval_ns) == 1_000_000,
{
}

/// A slot is the one of a time exactly where the time is less than half an
/// interval after it, or at most half an interval before.
pub proof fn slot_is_told_by_distance(elapsed: int, interval: int, slot: int)
    requires
        interval > 0,
    ensures
        nearest_slot(elapsed, interval) == slot <==> -interval <= 2 * (elapsed - slot * interval)
            < interval,
{
    slot_is_nearest(elapsed, interval, slot);
    let s = nearest_slot(elapsed, interval);
    if slot > s {
        assert(slot * interval >= s * interval + interval) by (nonlinear_arith)
            requires
                slot >= s + 1,
                interval > 0,
        ;
    } else if slot < s {
        assert(slot * interval <= s * interval - interval) by (nonlinear_arith)
            requires
                slot <= s - 1,
                interval > 0,
        ;
    }
}

/// Which samples the readings of a slot come from.
proof fn lemma_places(
    samples: Seq<MetricSample>,
    interval: int,
    kind: MetricKind,
    slot: int,
) -> (from: Seq<int>)
    requires
        interval > 0,
    ensures
        from.len() == readings_in(samples, interval, kind, slot).len(),
        forall|i: int| 0 <= i < from.len() ==> 0 <= #[trigger] from[i] < samples.len(),
        forall|i: int, j: int| 0 <= i < j < from.len() ==> from[i] < from[j],
        forall|i: int|
            0 <= i < from.len() ==> readings_in(samples, interval, kind, slot)[i]
                == samples[#[trigger] from[i]].reading(kind),
        forall|k: int|
            0 <= k < samples.len() ==> (#[trigger] from.contains(k) <==> -interval <= 2 * (
            samples[k].elapsed_ns - slot * interval) < interval),
    decreases samples.len(),
{
    if samples.len() == 0 {
        Seq::empty()
    } else {
        let n = samples.len() - 1;
        let fewer = samples.drop_last();
        let before = lemma_places(fewer, interval, kind, slot);
        slot_is_told_by_distance(samples[n].elapsed_ns as int, interval, slot);
        if nearest_slot(samples.last().elapsed_ns as int, interval) == slot {
            let from = before.push(n);
            assert forall|k: int| 0 <= k < samples.len() implies (#[trigger] from.contains(k) <==> -interval
                <= 2 * (samples[k].elapsed_ns - slot * interval) < interval) by {
                if k < n {
                    assert(fewer[k] == samples[k]);
                    if from.contains(k) {
                        let i = choose|i: int| 0 <= i < from.len() && from[i] == k;
                        assert(before[i] == k);
                        assert(before.contains(k));
                    }
                    if before.contains(k) {
                        let i = choose|i: int| 0 <= i < before.len() && before[i] == k;
                        assert(from[i] == k);
                    }
                } else {
                    assert(from[before.len() as int] == k);
                }
            }
            assert forall|i: int| 0 <= i < from.len() implies readings_in(
                samples,
                interval,
                kind,
                slot,
            )[i] == samples[#[trigger] from[i]].reading(kind) by {
                if i < before.len() {
                    assert(from[i] == before[i]);
                }
            }
            from
        } else {
            assert forall|k: int| 0 <= k < samples.len() implies (#[trigger] before.contains(k)
                <==> -interval <= 2 * (samples[k].elapsed_ns - slot * interval) < interval) by {
                if k < n {
                    assert(fewer[k] == samples[k]);
                } else if before.contains(k) {
                    let i = choose|i: int| 0 <= i < before.len() && before[i] == k;
                    assert(before[i] < fewer.len());
                }
            }
            before
        }
    }
}

/// The readings of a bucket are those of exactly the samples that are nearest
/// to its time, one reading for each sample and in their order. A reading is
/// the sample's own figure for the metric: its CPU figure, its memory in MiB,
/// its disk rate in KiB/s, or its network rate in KiB/s.
///
/// The result lists the places of these samples.
pub proof fn buckets_hold_the_nearest_samples(
    samples: Seq<MetricSample>,
    interval: int,
    kind: MetricKind,
    buckets: Seq<Bucket>,
    b: int,
) -> (from: Seq<int>)
    requires
        interval > 0,
        is_aggregate(samples, interval, kind, buckets),
        0 <= b < buckets.len(),
    ensures
        from.len() == buckets[b].readings@.len(),
        forall|i: int| 0 <= i < from.len() ==> 0 <= #[trigger] from[i] < samples.len(),
        forall|i: int, j: int| 0 <= i < j < from.len() ==> from[i] < from[j],
        forall|k: int|
            0 <= k < samples.len() ==> (#[trigger] from.contains(k) <==> -interval <= 2 * (
            samples[k].elapsed_ns - buckets[b].slot * interval) < interval),
        kind is Cpu ==> forall|i: int|
            0 <= i < from.len() ==> buckets[b].readings@[i].number == (Number::Percent {
                bits: samples[#[trigger] from[i]].cpu_percent_bits,
            }) && buckets[b].readings@[i].unit == 1,
        kind is Memory ==> forall|i: int|
            0 <= i < from.len() ==> buckets[b].readings@[i].number == (Number::Bytes {
                bytes: samples[#[trigger] from[i]].memory_bytes,
            }) && buckets[b].readings@[i].unit == 1_048_576,
        kind is Disk ==> forall|i: int|
            0 <= i < from.len() ==> buckets[b].readings@[i].number == (Number::PerSecond {
                rate: samples[#[trigger] from[i]].disk,
            }) && buckets[b].readings@[i].unit == 1024,
        kind is Network ==> forall|i: int|
            0 <= i < from.len() ==> buckets[b].readings@[i].number == (Number::PerSecond {
                rate: samples[#[trigger] from[i]].net,
            }) && buckets[b].readings@[i].unit == 1024,
{
    lemma_places(samples, interval, kind, buckets[b].slot as int)
}

/// Every sample has its bucket: there is one whose time it is nearest to.
pub proof fn samples_find_their_bucket(
    samples: Seq<MetricSample>,
    interval: int,
    kind: MetricKind,
    buckets: Seq<Bucket>,
    k: int,
) -> (b: int)
    requires
        interval > 0,
        is_aggregate(samples, interval, kind, buckets),
        0 <= k < samples.len(),
    ensures
        0 <= b < buckets.len(),
        -interval <= 2 * (samples[k].elapsed_ns - buckets[b].slot * interval) < interval,
{
    let slot = nearest_slot(samples[k].elapsed_ns as int, interval);
    slot_is_told_by_distance(samples[k].elapsed_ns as int, interval, slot);
    let from = lemma_places(samples, interval, kind, slot);
    assert(from.contains(k));
    let i = choose|i: int| 0 <= i < from.len() && from[i] == k;
    assert(readings_in(samples, interval, kind, slot).len() > 0);
    assert(has_slot(buckets, slot));
    choose|b: int| 0 <= b < buckets.len() && (#[trigger] buckets[b]).slot == slot
}

/// Buckets stand in the order of time, none is empty, and no two are of one
/// time.
pub proof fn buckets_follow_time(
    samples: Seq<MetricSample>,
    interval: int,
    kind: MetricKind,
    buckets: Seq<Bucket>,
    a: int,
    b: int,
)
    requires
        is_aggregate(samples, interval, kind, buckets),
        0 <= a < b < buckets.len(),
    ensures
        buckets[a].slot < buckets[b].slot,
        buckets[a].readings@.len() > 0,
        buckets[b].readings@.len() > 0,
{
}

/// The samples of a line: without processes there are none, and one more
/// process brings in, besides what was there, the samples of its present
/// history and of each of its ended ones, and no others.
pub proof fn lines_gather_the_histories(
    histories: Map<u32, ProcessHistory>,
    ended: Seq<ProcessHistory>,
    pids: Seq<u32>,
    pid: u32,
    gone: ProcessHistory,
)
    ensures
        samples_of(histories, ended, Seq::empty()) == Seq::<MetricSample>::empty(),
        samples_of(histories, ended, pids.push(pid)) == samples_of(histories, ended, pids)
            + recorded_samples(histories, ended, pid),
        recorded_samples(Map::empty(), Seq::empty(), pid) == Seq::<MetricSample>::empty(),
        histories.contains_key(pid) ==> recorded_samples(histories, ended, pid)
            == recorded_samples(histories.remove(pid), ended, pid) + histories[pid]@.samples,
        !histories.contains_key(pid) ==> recorded_samples(histories, ended, pid)
            == recorded_samples(Map::empty(), ended, pid),
        gone@.identity.pid == pid ==> recorded_samples(Map::empty(), ended.push(gone), pid)
            == recorded_samples(Map::empty(), ended, pid) + gone@.samples,
        gone@.identity.pid != pid ==> recorded_samples(Map::empty(), ended.push(gone), pid)
            == recorded_samples(Map::empty(), ended, pid),
{
    assert(pids.push(pid).drop_last() =~= pids);
    assert(ended.push(gone).drop_last() =~= ended);
}

proof fn lemma_ended_samples_contain(ended: Seq<ProcessHistory>, pid: u32, e: int, k: int)
    requires
        0 <= e < ended.len(),
        ended[e]@.identity.pid == pid,
        0 <= k < ended[e]@.samples.len(),
    ensures
        ended_samples(ended, pid).contains(ended[e]@.samples[k]),
    decreases ended.len(),
{
    let before = ended_samples(ended.drop_last(), pid);
    let all = ended_samples(ended, pid);
    if e == ended.len() - 1 {
        assert(all[before.len() + k] == ended[e]@.samples[k]);
    } else {
        lemma_ended_samples_contain(ended.drop_last(), pid, e, k);
        let i = choose|i: int| 0 <= i < before.len() && before[i] == ended[e]@.samples[k];
        assert(all[i] == ended[e]@.samples[k]);
    }
}

proof fn lemma_samples_of_contain(
    histories: Map<u32, ProcessHistory>,
    ended: Seq<ProcessHistory>,
    pids: Seq<u32>,
    pid: u32,
    sample: MetricSample,
)
    requires
        pids.contains(pid),
        recorded_samples(histories, ended, pid).contains(sample),
    ensures
        samples_of(histories, ended, pids).contains(sample),
    decreases pids.len(),
{
    let before = samples_of(histories, ended, pids.drop_last());
    let all = samples_of(histories, ended, pids);
    let p = choose|p: int| 0 <= p < pids.len() && pids[p] == pid;
    if p == pids.len() - 1 {
        let last = recorded_samples(histories, ended, pid);
        let i = choose|i: int| 0 <= i < last.len() && last[i] == sample;
        assert(all[before.len() + i] == sample);
    } else {
        assert(pids.drop_last()[p] == pid);
        lemma_samples_of_contain(histories, ended, pids.drop_last(), pid, sample);
        let i = choose|i: int| 0 <= i < before.len() && before[i] == sample;
        assert(all[i] == sample);
    }
}

/// A combined line shows every sample of every history of the processes that
/// it is of, whether they run or have ended: in the bucket of its time stands
/// its figure for the metric.
///
/// The result is the place of that bucket and of the reading in it.
pub proof fn combined_line_shows_every_sample(
    histories: Map<u32, ProcessHistory>,
    ended: Seq<ProcessHistory>,
    pids: Seq<u32>,
    interval: int,
    kind: MetricKind,
    buckets: Seq<Bucket>,
    history: ProcessHistory,
    k: int,
) -> (at: (int, int))
    requires
        interval > 0,
        is_aggregate(samples_of(histories, ended, pids), interval, kind, buckets),
        pids.contains(history@.identity.pid),
        ended.contains(history) || (histories.contains_key(history@.identity.pid)
            && histories[history@.identity.pid] == history),
        0 <= k < history@.samples.len(),
    ensures
        0 <= at.0 < buckets.len(),
        0 <= at.1 < buckets[at.0].readings@.len(),
        -interval <= 2 * (history@.samples[k].elapsed_ns - buckets[at.0].slot * interval)
            < interval,
        ({
            let shown = buckets[at.0].readings@[at.1];
            let s = history@.samples[k];
            match kind {
                MetricKind::Cpu => shown.number == (Number::Percent { bits: s.cpu_percent_bits })
                    && shown.unit == 1,
                MetricKind::Memory => shown.number == (Number::Bytes { bytes: s.memory_bytes })
                    && shown.unit == 1_048_576,
                MetricKind::Disk => shown.number == (Number::PerSecond { rate: s.disk })
                    && shown.unit == 1024,
                MetricKind::Network => shown.number == (Number::PerSecond { rate: s.net })
                    && shown.unit == 1024,
            }
        }),
{
    let pid = history@.identity.pid;
    let s = history@.samples[k];
    let mine = recorded_samples(histories, ended, pid);
    let gone = ended_samples(ended, pid);
    if ended.contains(history) {
        let e = choose|e: int| 0 <= e < ended.len() && ended[e] == history;
        lemma_ended_samples_contain(ended, pid, e, k);
        let i = choose|i: int| 0 <= i < gone.len() && gone[i] == s;
        assert(mine[i] == s);
    } else {
        assert(mine[gone.len() + k] == s);
    }
    lemma_samples_of_contain(histories, ended, pids, pid, s);
    let samples = samples_of(histories, ended, pids);
    let n = choose|n: int| 0 <= n < samples.len() && samples[n] == s;
    let b = samples_find_their_bucket(samples, interval, kind, buckets, n);
    let from = buckets_hold_the_nearest_samples(samples, interval, kind, buckets, b);
    assert(from.contains(n));
    let r = choose|r: int| 0 <= r < from.len() && from[r] == n;
    (b, r)
}

proof fn lemma_ended_samples_come_from(ended: Seq<ProcessHistory>, pid: u32, n: int) -> (at: (
    int,
    int,
))
    requires
        0 <= n < ended_samples(ended, pid).len(),
    ensures
        0 <= at.0 < ended.len(),
        ended[at.0]@.identity.pid == pid,
        0 <= at.1 < ended[at.0]@.samples.len(),
        ended_samples(ended, pid)[n] == ended[at.0]@.samples[at.1],
    decreases ended.len(),
{
    let before = ended_samples(ended.drop_last(), pid);
    if n < before.len() {
        lemma_ended_samples_come_from(ended.drop_last(), pid, n)
    } else {
        (ended.len() - 1, n - before.len())
    }
}

proof fn lemma_samples_come_from(
    histories: Map<u32, ProcessHistory>,
    ended: Seq<ProcessHistory>,
    pids: Seq<u32>,
    n: int,
) -> (from: (u32, ProcessHistory, int))
    requires
        0 <= n < samples_of(histories, ended, pids).len(),
    ensures
        pids.contains(from.0),
        (histories.contains_key(from.0) && histories[from.0] == from.1) || (ended.contains(from.1)
            && from.1@.identity.pid == from.0),
        0 <= from.2 < from.1@.samples.len(),
        samples_of(histories, ended, pids)[n] == from.1@.samples[from.2],
    decreases pids.len(),
{
    let before = samples_of(histories, ended, pids.drop_last());
    let pid = pids.last();
    if n < before.len() {
        let from = lemma_samples_come_from(histories, ended, pids.drop_last(), n);
        let p = choose|p: int| 0 <= p < pids.drop_last().len() && pids.drop_last()[p] == from.0;
        assert(pids[p] == from.0);
        from
    } else {
        assert(pids[pids.len() - 1] == pid);
        let k = n - before.len();
        let gone = ended_samples(ended, pid);
        if k < gone.len() {
            let at = lemma_ended_samples_come_from(ended, pid, k);
            assert(ended.contains(ended[at.0]));
            (pid, ended[at.0], at.1)
        } else {
            (pid, histories[pid], k - gone.len())
        }
    }
}

/// A combined line shows nothing but the samples of the processes that it is
/// of: every reading is the figure of a sample of one of their histories, and
/// stands in the bucket of that sample's time.
///
/// The result is the pid, the history and the place of the sample in it.
pub proof fn combined_line_shows_nothing_else(
    histories: Map<u32, ProcessHistory>,
    ended: Seq<ProcessHistory>,
    pids: Seq<u32>,
    interval: int,
    kind: MetricKind,
    buckets: Seq<Bucket>,
    b: int,
    r: int,
) -> (from: (u32, ProcessHistory, int))
    requires
        interval > 0,
        is_aggregate(samples_of(histories, ended, pids), interval, kind, buckets),
        0 <= b < buckets.len(),
        0 <= r < buckets[b].readings@.len(),
    ensures
        pids.contains(from.0),
        (histories.contains_key(from.0) && histories[from.0] == from.1) || (ended.contains(from.1)
            && from.1@.identity.pid == from.0),
        0 <= from.2 < from.1@.samples.len(),
        ({
            let shown = buckets[b].readings@[r];
            let s = from.1@.samples[from.2];
            &&& -interval <= 2 * (s.elapsed_ns - buckets[b].slot * interval) < interval
            &&& match kind {
                MetricKind::Cpu => shown.number == (Number::Percent { bits: s.cpu_percent_bits }),
                MetricKind::Memory => shown.number == (Number::Bytes { bytes: s.memory_bytes }),
                MetricKind::Disk => shown.number == (Number::PerSecond { rate: s.disk }),
                MetricKind::Network => shown.number == (Number::PerSecond { rate: s.net }),
            }
        }),
{
    let samples = samples_of(histories, ended, pids);
    let from = buckets_hold_the_nearest_samples(samples, interval, kind, buckets, b);
    assert(from.contains(from[r]));
    lemma_samples_come_from(histories, ended, pids, from[r])
}

} // verus!
