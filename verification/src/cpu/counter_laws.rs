//! What the counters of a CPU trace show is what was added to them.

use vstd::prelude::*;
use crate::analysis::law_counter_growth;
use crate::cpu::counters::{in_order, law_samples_until, samples_until, value_at};
use crate::cpu::load::{lemma_counter_on, Loading};
use crate::cpu::resolve::cycle_of;
use crate::cpu::trace::{
    after_growth, after_growths, grown_by_segments, series_of, until_end, CpuTraceView, SMALL_TRACE,
};
use crate::reader::ReaderView;
use crate::roundtrip::{
    in_time, law_items_in_time, law_segment_replay, lemma_segment_facts, reads, segment_items,
    sound, trace_items,
};
use crate::state::TimedItemView;
use crate::summarize::{counter_on, CounterView};
use crate::trace::{time_after, Recording, Segment};
use crate::types::DA_SLOT_ADD;

verus! {

/// Whether an item adds to a counter, in a cycle up to the given one.
pub open spec fn counts(
    item: TimedItemView,
    counters: Seq<CounterView>,
    period_ps: u64,
    c: int,
    cycle: u32,
) -> bool {
    item matches TimedItemView::Op(op) && op.action == DA_SLOT_ADD && counter_on(
        counters,
        op.storage_id,
    ) == Some(c) && cycle_of(op.time_ps, period_ps) <= cycle
}

/// What some items add to a counter up to a cycle, modulo 2^64.
pub open spec fn counted(
    items: Seq<TimedItemView>,
    counters: Seq<CounterView>,
    period_ps: u64,
    c: int,
    cycle: u32,
) -> u64
    decreases items.len(),
{
    if items.len() == 0 {
        0
    } else {
        let before = counted(items.drop_last(), counters, period_ps, c, cycle);
        match items.last() {
            TimedItemView::Op(op) => if counts(items.last(), counters, period_ps, c, cycle) {
                before.wrapping_add(op.value)
            } else {
                before
            },
            TimedItemView::Event(_) => before,
        }
    }
}

/// The value of the last sample that is not after a cycle.
spec fn sampled_at(samples: Seq<(u32, u64)>, cycle: u32) -> u64
    decreases samples.len(),
{
    if samples.len() == 0 {
        0
    } else if samples.last().0 <= cycle {
        samples.last().1
    } else {
        sampled_at(samples.drop_last(), cycle)
    }
}

proof fn lemma_sampled_by(samples: Seq<(u32, u64)>, cycle: u32, n: int)
    requires
        0 <= n <= samples.len(),
        forall|i: int| 0 <= i < samples.len() ==> (samples[i].0 <= cycle <==> i < n),
    ensures
        sampled_at(samples, cycle) == if n == 0 {
            0
        } else {
            samples[n - 1].1
        },
    decreases samples.len(),
{
    if samples.len() > 0 && samples.last().0 > cycle {
        assert(samples[samples.len() - 1].0 > cycle);
        lemma_sampled_by(samples.drop_last(), cycle, n);
    }
}

/// Searching samples in order finds the last that is not after a cycle.
proof fn lemma_sampled(samples: Seq<(u32, u64)>, cycle: u32)
    requires
        in_order(samples),
    ensures
        value_at(samples, cycle) == sampled_at(samples, cycle),
{
    law_samples_until(samples, cycle);
    lemma_sampled_by(samples, cycle, samples_until(samples, cycle));
}

proof fn lemma_cycles_grow(a: u64, b: u64, period_ps: u64)
    requires
        a <= b,
        period_ps > 0,
        b / period_ps <= u32::MAX,
    ensures
        cycle_of(a, period_ps) <= cycle_of(b, period_ps),
{
    assert(a / period_ps <= b / period_ps) by (nonlinear_arith)
        requires
            a <= b,
            period_ps > 0,
    ;
}

/// Once all items have happened, nothing is left to be counted.
proof fn lemma_counted_all(
    items: Seq<TimedItemView>,
    counters: Seq<CounterView>,
    period_ps: u64,
    c: int,
    cycle: u32,
)
    requires
        forall|i: int|
            0 <= i < items.len() ==> cycle_of((#[trigger] items[i]).time(), period_ps) <= cycle,
    ensures
        counted(items, counters, period_ps, c, cycle) == counted(
            items,
            counters,
            period_ps,
            c,
            u32::MAX,
        ),
    decreases items.len(),
{
    if items.len() > 0 {
        assert(items[items.len() - 1] == items.last());
        assert forall|i: int| 0 <= i < items.drop_last().len() implies cycle_of(
            (#[trigger] items.drop_last()[i]).time(),
            period_ps,
        ) <= cycle by {
            assert(items.drop_last()[i] == items[i]);
        }
        lemma_counted_all(items.drop_last(), counters, period_ps, c, cycle);
    }
}

/// What is known of a counter after some items.
spec fn tracks(
    l: Loading,
    items: Seq<TimedItemView>,
    counters: Seq<CounterView>,
    period_ps: u64,
    c: int,
) -> bool {
    &&& l.accum.len() == counters.len()
    &&& l.samples.len() == counters.len()
    &&& in_order(l.samples[c])
    &&& l.samples[c].len() > 0 ==> items.len() > 0 && l.samples[c].last().0 <= cycle_of(
        items.last().time(),
        period_ps,
    )
    &&& l.accum[c] == if l.samples[c].len() == 0 {
        0
    } else {
        l.samples[c].last().1
    }
    &&& l.accum[c] == counted(items, counters, period_ps, c, u32::MAX)
    &&& forall|cycle: u32|
        #![trigger counted(items, counters, period_ps, c, cycle)]
        sampled_at(l.samples[c], cycle) == counted(items, counters, period_ps, c, cycle)
}

proof fn lemma_sampled_push(samples: Seq<(u32, u64)>, s: (u32, u64), cycle: u32)
    ensures
        sampled_at(samples.push(s), cycle) == if s.0 <= cycle {
            s.1
        } else {
            sampled_at(samples, cycle)
        },
{
    assert(samples.push(s).drop_last() =~= samples);
}

proof fn lemma_tracks(
    items: Seq<TimedItemView>,
    counters: Seq<CounterView>,
    period_ps: u64,
    c: int,
)
    requires
        0 <= c < counters.len(),
        period_ps > 0,
        in_time(items),
        forall|i: int|
            0 <= i < items.len() ==> (#[trigger] items[i]).time() / period_ps <= u32::MAX,
    ensures
        tracks(
            after_growths(Loading::empty(counters.len()), counters, period_ps, items),
            items,
            counters,
            period_ps,
            c,
        ),
    decreases items.len(),
{
    if items.len() > 0 {
        let init = items.drop_last();
        let item = items.last();
        assert forall|i: int, j: int| 0 <= i <= j < init.len() implies (
        #[trigger] init[i]).time() <= (#[trigger] init[j]).time() by {
            assert(init[i] == items[i]);
            assert(init[j] == items[j]);
        }
        assert forall|i: int| 0 <= i < init.len() implies (#[trigger] init[i]).time() / period_ps
            <= u32::MAX by {
            assert(init[i] == items[i]);
        }
        lemma_tracks(init, counters, period_ps, c);
        let last = items.len() - 1;
        let now = cycle_of(item.time(), period_ps);
        assert(items[last] == item);
        assert forall|i: int| 0 <= i < init.len() implies cycle_of(
            (#[trigger] init[i]).time(),
            period_ps,
        ) <= now by {
            assert(init[i] == items[i]);
            lemma_cycles_grow(items[i].time(), items[last].time(), period_ps);
        }
        let l = after_growths(Loading::empty(counters.len()), counters, period_ps, init);
        let m = after_growth(l, counters, period_ps, item);
        if init.len() > 0 {
            assert(init[init.len() - 1] == init.last());
        }
        if let TimedItemView::Op(op) = item {
            lemma_counter_on(counters, op.storage_id);
            let hit = counter_on(counters, op.storage_id);
            if op.action == DA_SLOT_ADD && hit is Some {
                if hit == Some(c) {
                    let value = l.accum[c].wrapping_add(op.value);
                    assert(m.samples[c] == l.samples[c].push((now, value)));
                    assert(in_order(m.samples[c])) by {
                        let s = m.samples[c];
                        assert forall|i: int, j: int| 0 <= i <= j < s.len() implies s[i].0
                            <= s[j].0 by {
                            if i < j && j == l.samples[c].len() {
                                assert(l.samples[c][i].0 <= l.samples[c][j - 1].0);
                            }
                        }
                    }
                    assert forall|cycle: u32|
                        #![trigger counted(items, counters, period_ps, c, cycle)]
                        sampled_at(m.samples[c], cycle) == counted(
                            items,
                            counters,
                            period_ps,
                            c,
                            cycle,
                        ) by {
                        lemma_sampled_push(l.samples[c], (now, value), cycle);
                        assert(sampled_at(l.samples[c], cycle) == counted(
                            init,
                            counters,
                            period_ps,
                            c,
                            cycle,
                        ));
                        if now <= cycle {
                            lemma_counted_all(init, counters, period_ps, c, cycle);
                        }
                    }
                } else {
                    assert(m.samples[c] == l.samples[c]);
                    assert(m.accum[c] == l.accum[c]);
                }
            }
        }
        assert forall|cycle: u32|
            #![trigger counted(items, counters, period_ps, c, cycle)]
            sampled_at(m.samples[c], cycle) == counted(
                items,
                counters,
                period_ps,
                c,
                cycle,
            ) by {
            assert(sampled_at(l.samples[c], cycle) == counted(
                init,
                counters,
                period_ps,
                c,
                cycle,
            ));
        }
    }
}

proof fn lemma_growths_join(
    l: Loading,
    counters: Seq<CounterView>,
    period_ps: u64,
    a: Seq<TimedItemView>,
    b: Seq<TimedItemView>,
)
    ensures
        after_growths(l, counters, period_ps, a + b) == after_growths(
            after_growths(l, counters, period_ps, a),
            counters,
            period_ps,
            b,
        ),
    decreases b.len(),
{
    if b.len() == 0 {
        assert(a + b =~= a);
    } else {
        lemma_growths_join(l, counters, period_ps, a, b.drop_last());
        assert((a + b).drop_last() =~= a + b.drop_last());
    }
}

proof fn lemma_grown_prefix(
    v: ReaderView,
    rec: Recording,
    tail: Seq<u8>,
    counters: Seq<CounterView>,
    period_ps: u64,
    n: int,
)
    requires
        sound(rec),
        reads(v, rec, tail),
        0 <= n <= rec.segments.len(),
    ensures
        grown_by_segments(v, counters, period_ps, n) == after_growths(
            Loading::empty(counters.len()),
            counters,
            period_ps,
            trace_items(rec.segments.take(n), rec.schema.storages.len() as int),
        ),
    decreases n,
{
    let storages = rec.schema.storages.len() as int;
    if n == 0 {
        assert(rec.segments.take(0) =~= Seq::<Segment>::empty());
    } else {
        lemma_grown_prefix(v, rec, tail, counters, period_ps, n - 1);
        let k = n - 1;
        law_segment_replay(v, rec, tail, k, None);
        let now = rec.segments.take(n);
        assert(now.drop_last() =~= rec.segments.take(n - 1));
        assert(now.last() == rec.segments[k]);
        lemma_segment_facts(rec, k);
        lemma_growths_join(
            Loading::empty(counters.len()),
            counters,
            period_ps,
            trace_items(rec.segments.take(n - 1), storages),
            segment_items(rec, k),
        );
    }
}

/// Samples that reach to the end of a trace show what they showed before.
proof fn lemma_until_end(samples: Seq<(u32, u64)>, value: u64, max_cycle: u32, cycle: u32)
    requires
        in_order(samples),
        value == if samples.len() == 0 {
            0
        } else {
            samples.last().1
        },
    ensures
        in_order(until_end(samples, value, max_cycle)),
        sampled_at(until_end(samples, value, max_cycle), cycle) == sampled_at(samples, cycle),
{
    let last = if samples.len() == 0 {
        0
    } else {
        samples.last().0
    };
    if last < max_cycle {
        lemma_sampled_push(samples, (max_cycle, value), cycle);
        let s = samples.push((max_cycle, value));
        assert forall|i: int, j: int| 0 <= i <= j < s.len() implies s[i].0 <= s[j].0 by {
            if i < j && j == samples.len() {
                assert(samples[i].0 <= samples[j - 1].0);
            }
        }
    }
}

/// In a small trace, a counter shows at every cycle the sum, modulo 2^64, of
/// all that was added to it up to that cycle.
pub proof fn law_counter_value(
    t: CpuTraceView,
    rec: Recording,
    tail: Seq<u8>,
    c: int,
    cycle: u32,
)
    requires
        sound(rec),
        reads(t.reader, rec, tail),
        t.period_ps > 0,
        t.series == series_of(t.reader, t.counters, t.period_ps, t.max_cycle),
        t.max_cycle <= SMALL_TRACE,
        t.summary is None || t.max_cycle > 0,
        time_after(rec.segments) / t.period_ps <= u32::MAX,
        0 <= c < t.counters.len(),
    ensures
        t.counter_value(c, cycle) == counted(
            trace_items(rec.segments, rec.schema.storages.len() as int),
            t.counters,
            t.period_ps,
            c,
            cycle,
        ),
{
    let n = rec.segments.len() as int;
    let items = trace_items(rec.segments, rec.schema.storages.len() as int);
    law_items_in_time(rec);
    assert forall|i: int| 0 <= i < items.len() implies (#[trigger] items[i]).time() / t.period_ps
        <= u32::MAX by {
        let a = items[i].time();
        let b = time_after(rec.segments);
        let p = t.period_ps;
        assert(a / p <= b / p) by (nonlinear_arith)
            requires
                a <= b,
                p > 0,
        ;
    }
    lemma_tracks(items, t.counters, t.period_ps, c);
    lemma_grown_prefix(t.reader, rec, tail, t.counters, t.period_ps, n);
    assert(rec.segments.take(n) =~= rec.segments);
    assert(t.reader.table.len() == n);
    let l = grown_by_segments(t.reader, t.counters, t.period_ps, n);
    let samples = until_end(l.samples[c], l.accum[c], t.max_cycle);
    assert(t.series[c].samples == samples);
    lemma_until_end(l.samples[c], l.accum[c], t.max_cycle, cycle);
    lemma_sampled(samples, cycle);
    assert(sampled_at(l.samples[c], cycle) == counted(items, t.counters, t.period_ps, c, cycle));
}

/// The sum of all that was added to a storage in the cycles after `from`, up to
/// and with `to`.
pub open spec fn added(
    items: Seq<TimedItemView>,
    storage_id: u16,
    period_ps: u64,
    from: int,
    to: int,
) -> nat
    decreases items.len(),
{
    if items.len() == 0 {
        0
    } else {
        let before = added(items.drop_last(), storage_id, period_ps, from, to);
        match items.last() {
            TimedItemView::Op(op) => if op.action == DA_SLOT_ADD && op.storage_id == storage_id
                && from < op.time_ps / period_ps <= to {
                before + op.value as nat
            } else {
                before
            },
            TimedItemView::Event(_) => before,
        }
    }
}

/// What was added in two adjacent ranges was added in both together.
pub proof fn law_added_adjacent(
    items: Seq<TimedItemView>,
    storage_id: u16,
    period_ps: u64,
    from: int,
    mid: int,
    to: int,
)
    requires
        from <= mid <= to,
    ensures
        added(items, storage_id, period_ps, from, to) == added(
            items,
            storage_id,
            period_ps,
            from,
            mid,
        ) + added(items, storage_id, period_ps, mid, to),
    decreases items.len(),
{
    if items.len() > 0 {
        law_added_adjacent(items.drop_last(), storage_id, period_ps, from, mid, to);
    }
}

/// Whether no later counter lies on the storage of a counter.
pub open spec fn last_on(counters: Seq<CounterView>, c: int) -> bool {
    forall|d: int|
        c < d < counters.len() ==> (#[trigger] counters[d]).storage_id != counters[c].storage_id
}

proof fn lemma_last_on(counters: Seq<CounterView>, c: int, storage_id: u16)
    requires
        0 <= c < counters.len(),
        last_on(counters, c),
    ensures
        counter_on(counters, storage_id) == Some(c) <==> storage_id == counters[c].storage_id,
    decreases counters.len(),
{
    let n = counters.len() - 1;
    if c < n {
        let init = counters.drop_last();
        assert forall|d: int| c < d < init.len() implies (#[trigger] init[d]).storage_id
            != init[c].storage_id by {
            assert(init[d] == counters[d]);
        }
        lemma_last_on(init, c, storage_id);
        assert(counters[n].storage_id != counters[c].storage_id);
    } else {
        lemma_counter_on(counters.drop_last(), storage_id);
    }
}

proof fn lemma_counted_added(
    items: Seq<TimedItemView>,
    counters: Seq<CounterView>,
    period_ps: u64,
    c: int,
    cycle: u32,
)
    requires
        period_ps > 0,
        0 <= c < counters.len(),
        last_on(counters, c),
        forall|i: int|
            0 <= i < items.len() ==> (#[trigger] items[i]).time() / period_ps <= u32::MAX,
    ensures
        counted(items, counters, period_ps, c, cycle) == added(
            items,
            counters[c].storage_id,
            period_ps,
            -1,
            cycle as int,
        ) % 0x1_0000_0000_0000_0000,
    decreases items.len(),
{
    if items.len() > 0 {
        let init = items.drop_last();
        assert forall|i: int| 0 <= i < init.len() implies (#[trigger] init[i]).time() / period_ps
            <= u32::MAX by {
            assert(init[i] == items[i]);
        }
        lemma_counted_added(init, counters, period_ps, c, cycle);
        assert(items[items.len() - 1].time() / period_ps <= u32::MAX);
        match items.last() {
            TimedItemView::Op(op) => {
                lemma_last_on(counters, c, op.storage_id);
                let t = op.time_ps;
                assert(t / period_ps >= 0) by (nonlinear_arith)
                    requires
                        period_ps > 0,
                ;
            },
            TimedItemView::Event(_) => {},
        }
    }
}

/// In a small trace, a counter shows at every cycle the sum, modulo 2^64, of
/// all that was added to its storage in the cycles up to and with that one.
pub proof fn law_counter_sum(
    t: CpuTraceView,
    rec: Recording,
    tail: Seq<u8>,
    c: int,
    cycle: u32,
)
    requires
        sound(rec),
        reads(t.reader, rec, tail),
        t.period_ps > 0,
        t.series == series_of(t.reader, t.counters, t.period_ps, t.max_cycle),
        t.max_cycle <= SMALL_TRACE,
        t.summary is None || t.max_cycle > 0,
        time_after(rec.segments) / t.period_ps <= u32::MAX,
        0 <= c < t.counters.len(),
        last_on(t.counters, c),
    ensures
        t.counter_value(c, cycle) == added(
            trace_items(rec.segments, rec.schema.storages.len() as int),
            t.counters[c].storage_id,
            t.period_ps,
            -1,
            cycle as int,
        ) % 0x1_0000_0000_0000_0000,
{
    let items = trace_items(rec.segments, rec.schema.storages.len() as int);
    law_counter_value(t, rec, tail, c, cycle);
    law_items_in_time(rec);
    assert forall|i: int| 0 <= i < items.len() implies (#[trigger] items[i]).time() / t.period_ps
        <= u32::MAX by {
        let a = items[i].time();
        let b = time_after(rec.segments);
        let p = t.period_ps;
        assert(a / p <= b / p) by (nonlinear_arith)
            requires
                a <= b,
                p > 0,
        ;
    }
    lemma_counted_added(items, t.counters, t.period_ps, c, cycle);
}

/// In a small trace, what a counter grew by over a range is the sum, modulo
/// 2^64, of all that was added to its storage in the cycles after the start,
/// up to and with the end.
#[verifier::spinoff_prover]
pub proof fn law_growth_sum(
    t: CpuTraceView,
    rec: Recording,
    tail: Seq<u8>,
    c: int,
    start: u32,
    end: u32,
)
    requires
        sound(rec),
        reads(t.reader, rec, tail),
        t.period_ps > 0,
        t.series == series_of(t.reader, t.counters, t.period_ps, t.max_cycle),
        t.max_cycle <= SMALL_TRACE,
        t.summary is None || t.max_cycle > 0,
        time_after(rec.segments) / t.period_ps <= u32::MAX,
        0 <= c < t.counters.len(),
        last_on(t.counters, c),
        start <= end,
    ensures
        t.counter_growth(c, start, end).delta == added(
            trace_items(rec.segments, rec.schema.storages.len() as int),
            t.counters[c].storage_id,
            t.period_ps,
            start as int,
            end as int,
        ) % 0x1_0000_0000_0000_0000,
{
    let items = trace_items(rec.segments, rec.schema.storages.len() as int);
    let s = t.counters[c].storage_id;
    law_counter_sum(t, rec, tail, c, start);
    law_counter_sum(t, rec, tail, c, end);
    law_added_adjacent(items, s, t.period_ps, -1, start as int, end as int);
    law_counter_growth(t, c, start, start, end);
    let g = t.counter_growth(c, start, end);
    lemma_grown_by(
        added(items, s, t.period_ps, -1, start as int),
        added(items, s, t.period_ps, start as int, end as int),
        g.start_value,
        g.delta,
        g.end_value,
    );
}

/// What is added to a number modulo 2^64 is known by the sums.
proof fn lemma_grown_by(x: nat, y: nat, a: u64, d: u64, b: u64)
    requires
        a == x % 0x1_0000_0000_0000_0000,
        b == (x + y) % 0x1_0000_0000_0000_0000,
        (a + d) % 0x1_0000_0000_0000_0000 == b,
    ensures
        d == y % 0x1_0000_0000_0000_0000,
{
}

} // verus!
