//! What the buckets of a coarse level say of the finest level and of what was
//! counted.

use vstd::prelude::*;
use crate::mipmap::{
    children, coarser_counts, coarser_entries, coarser_totals, count_pyramid, counts, entry_pyramid,
    entry_sums, law_coarser_counts, law_coarser_entries, law_count_pyramid, law_entry_pyramid,
    law_least_greatest, lemma_total_join, lemma_total_part, total,
};
use crate::state::TimedItemView;
use crate::summarize::{counter_on, marks_of, summed, CounterView};
use crate::summary::MipmapEntry;
use crate::tally::{countable, deltas_in, deltas_of, entries, law_buckets_total, reached, Mark};
use crate::types::DA_SLOT_ADD;

verus! {

/// How many buckets of the finest level a bucket of level `l` covers.
pub open spec fn span(l: int) -> int
    decreases l,
{
    if l <= 0 {
        1
    } else {
        4 * span(l - 1)
    }
}

proof fn lemma_span(l: int)
    ensures
        span(l) >= 1,
    decreases l,
{
    if l > 0 {
        lemma_span(l - 1);
    }
}

/// Where the buckets that bucket `i` covers end, `width` of them, where there
/// are `n` in all.
pub open spec fn span_end(i: int, width: int, n: int) -> int {
    if i * width + width <= n {
        i * width + width
    } else {
        n
    }
}

/// Whether an entry holds the least minimum, the greatest maximum and the sum
/// of the entries from `from` up to but not with `to`.
pub open spec fn holds_all(e: MipmapEntry, level: Seq<MipmapEntry>, from: int, to: int) -> bool {
    &&& forall|j: int|
        from <= j < to ==> e.min_delta <= (#[trigger] level[j]).min_delta && level[j].max_delta
            <= e.max_delta
    &&& exists|j: int| from <= j < to && (#[trigger] level[j]).max_delta == e.max_delta
    &&& exists|j: int| from <= j < to && (#[trigger] level[j]).min_delta == e.min_delta
    &&& e.sum == total(entry_sums(level).subrange(from, to))
}

/// An entry of the next coarser level has the least minimum, the greatest
/// maximum and the sum of its children, which are four, or what is left.
pub proof fn law_entry_children(level: Seq<MipmapEntry>, i: int)
    requires
        total(entry_sums(level)) <= u64::MAX,
        0 <= i < coarser_entries(level).len(),
    ensures
        coarser_entries(level).len() == (level.len() + 3) / 4,
        4 * i < level.len(),
        holds_all(
            coarser_entries(level)[i],
            level,
            4 * i,
            span_end(i, 4, level.len() as int),
        ),
{
    let up = coarser_entries(level);
    let e = up[i];
    let (from, to) = (4 * i, span_end(i, 4, level.len() as int));
    let part = children(level, i);
    assert(part =~= level.subrange(from, to));
    let mins = part.map_values(|e: MipmapEntry| e.min_delta);
    let maxs = part.map_values(|e: MipmapEntry| e.max_delta);
    law_least_greatest(mins);
    law_least_greatest(maxs);
    assert forall|j: int| from <= j < to implies e.min_delta <= (#[trigger] level[j]).min_delta
        && level[j].max_delta <= e.max_delta by {
        assert(part[j - from] == level[j]);
        assert(mins[j - from] == level[j].min_delta);
        assert(maxs[j - from] == level[j].max_delta);
    }
    let x = choose|x: int| 0 <= x < maxs.len() && maxs[x] == e.max_delta;
    assert(level[from + x].max_delta == e.max_delta);
    let y = choose|y: int| 0 <= y < mins.len() && mins[y] == e.min_delta;
    assert(level[from + y].min_delta == e.min_delta);
    assert(entry_sums(part) =~= entry_sums(level).subrange(from, to));
    lemma_total_part(entry_sums(level), from, to);
}

/// Sums of adjacent groups are the sum of all of them.
proof fn lemma_grouped(level: Seq<nat>, from: int, to: int)
    requires
        0 <= from <= to <= coarser_totals(level).len(),
    ensures
        total(coarser_totals(level).subrange(from, to)) == total(
            level.subrange(
                if 4 * from <= level.len() {
                    4 * from
                } else {
                    level.len() as int
                },
                if 4 * to <= level.len() {
                    4 * to
                } else {
                    level.len() as int
                },
            ),
        ),
    decreases to - from,
{
    let n = level.len() as int;
    let up = coarser_totals(level);
    let a = if 4 * from <= n {
        4 * from
    } else {
        n
    };
    let b = if 4 * to <= n {
        4 * to
    } else {
        n
    };
    if from < to {
        lemma_grouped(level, from, to - 1);
        let m = 4 * (to - 1);
        assert(m <= n);
        assert(up.subrange(from, to).drop_last() =~= up.subrange(from, to - 1));
        assert(up.subrange(from, to).last() == total(children(level, to - 1)));
        assert(children(level, to - 1) =~= level.subrange(m, b));
        assert(level.subrange(a, b) =~= level.subrange(a, m) + level.subrange(m, b));
        lemma_total_join(level.subrange(a, m), level.subrange(m, b));
    } else {
        assert(up.subrange(from, to) =~= Seq::<nat>::empty());
        assert(level.subrange(a, b) =~= Seq::<nat>::empty());
    }
}

/// On every level, an entry holds the least minimum, the greatest maximum and
/// the sum of all entries of the finest level that it covers.
pub proof fn law_entry_covers(level: Seq<MipmapEntry>, l: int, i: int)
    requires
        total(entry_sums(level)) <= u64::MAX,
        0 <= l < entry_pyramid(level).len(),
        0 <= i < entry_pyramid(level)[l].len(),
    ensures
        0 <= i * span(l) < level.len(),
        holds_all(
            entry_pyramid(level)[l][i],
            level,
            i * span(l),
            span_end(i, span(l), level.len() as int),
        ),
    decreases l,
{
    let n = level.len() as int;
    let e = entry_pyramid(level)[l][i];
    if l == 0 {
        law_entry_pyramid(level);
        assert(e == level[i]);
        assert(entry_sums(level).subrange(i, i + 1) =~= seq![e.sum as nat]);
        assert(seq![e.sum as nat].drop_last() =~= Seq::<nat>::empty());
        assert(total(Seq::<nat>::empty()) == 0);
        assert(total(seq![e.sum as nat]) == e.sum as nat);
        let w = span(l);
        assert(i * w == i) by (nonlinear_arith)
            requires
                w == 1,
        ;
    } else {
        let up = coarser_entries(level);
        let w = span(l - 1);
        assert(level.len() > 1);
        assert(entry_pyramid(level)[l] == entry_pyramid(up)[l - 1]);
        law_coarser_entries(level);
        law_entry_covers(up, l - 1, i);
        lemma_span(l - 1);
        let (f, t) = (i * w, span_end(i, w, up.len() as int));
        let (from, to) = (i * span(l), span_end(i, span(l), n));
        assert(i * (4 * w) == 4 * (i * w)) by (nonlinear_arith);
        assert(from == 4 * f);
        assert(to == if 4 * t <= n { 4 * t } else { n });
        assert forall|j: int| from <= j < to implies e.min_delta <= (
        #[trigger] level[j]).min_delta && level[j].max_delta <= e.max_delta by {
            let k = j / 4;
            law_entry_children(level, k);
            assert(f <= k < t);
            assert(up[k].max_delta <= e.max_delta);
            assert(level[j].max_delta <= up[k].max_delta);
        }
        let x = choose|x: int| f <= x < t && (#[trigger] up[x]).max_delta == e.max_delta;
        law_entry_children(level, x);
        let jx = choose|j: int|
            4 * x <= j < span_end(x, 4, n) && (#[trigger] level[j]).max_delta == up[x].max_delta;
        assert(from <= jx < to && level[jx].max_delta == e.max_delta);
        let y = choose|y: int| f <= y < t && (#[trigger] up[y]).min_delta == e.min_delta;
        law_entry_children(level, y);
        let jy = choose|j: int|
            4 * y <= j < span_end(y, 4, n) && (#[trigger] level[j]).min_delta == up[y].min_delta;
        assert(from <= jy < to && level[jy].min_delta == e.min_delta);
        let sums = entry_sums(level);
        assert forall|k: int| 0 <= k < up.len() implies #[trigger] entry_sums(up)[k]
            == coarser_totals(sums)[k] by {
            law_entry_children(level, k);
            assert(children(sums, k) =~= sums.subrange(4 * k, span_end(k, 4, n)));
        }
        assert(entry_sums(up) =~= coarser_totals(sums));
        lemma_grouped(sums, f, t);
    }
}

/// On every level, a count is the sum of all counts of the finest level that
/// it covers.
pub proof fn law_count_covers(level: Seq<u32>, l: int, i: int)
    requires
        total(counts(level)) <= u32::MAX,
        0 <= l < count_pyramid(level).len(),
        0 <= i < count_pyramid(level)[l].len(),
    ensures
        0 <= i * span(l) < level.len(),
        count_pyramid(level)[l][i] == total(
            counts(level).subrange(i * span(l), span_end(i, span(l), level.len() as int)),
        ),
    decreases l,
{
    let n = level.len() as int;
    let c = count_pyramid(level)[l][i];
    if l == 0 {
        law_count_pyramid(level);
        assert(c == level[i]);
        assert(counts(level).subrange(i, i + 1) =~= seq![c as nat]);
        assert(seq![c as nat].drop_last() =~= Seq::<nat>::empty());
        assert(total(Seq::<nat>::empty()) == 0);
        assert(total(seq![c as nat]) == c as nat);
        let w = span(l);
        assert(i * w == i) by (nonlinear_arith)
            requires
                w == 1,
        ;
    } else {
        let up = coarser_counts(level);
        let w = span(l - 1);
        assert(level.len() > 1);
        assert(count_pyramid(level)[l] == count_pyramid(up)[l - 1]);
        law_coarser_counts(level);
        law_count_covers(up, l - 1, i);
        lemma_span(l - 1);
        let (f, t) = (i * w, span_end(i, w, up.len() as int));
        let (from, to) = (i * span(l), span_end(i, span(l), n));
        assert(i * (4 * w) == 4 * (i * w)) by (nonlinear_arith);
        assert(from == 4 * f);
        assert(to == if 4 * t <= n { 4 * t } else { n });
        let sums = counts(level);
        assert forall|k: int| 0 <= k < up.len() implies #[trigger] counts(up)[k] == coarser_totals(
            sums,
        )[k] by {
            assert(counts(children(level, k)) =~= children(sums, k));
            lemma_total_part(sums, 4 * k, span_end(k, 4, n));
            assert(children(sums, k) =~= sums.subrange(4 * k, span_end(k, 4, n)));
        }
        assert(counts(up) =~= coarser_totals(sums));
        lemma_grouped(sums, f, t);
    }
}

// ---------------------------------------------------------------------------
// Largest and smallest deltas.

/// Whether no mark lies before an earlier one.
pub open spec fn in_order(marks: Seq<Mark>) -> bool {
    forall|a: int, b: int|
        0 <= a <= b < marks.len() ==> (#[trigger] marks[a]).bucket() <= (
        #[trigger] marks[b]).bucket()
}

/// Whether a mark adds `delta` to counter `c` in a bucket from `from` up to but
/// not with `to`.
pub open spec fn adds(m: Mark, c: int, from: int, to: int, delta: u64) -> bool {
    m matches Mark::Grow { bucket, counter, delta: d } && counter == c && from <= bucket < to && d
        == delta
}

proof fn lemma_in_order_init(marks: Seq<Mark>)
    requires
        in_order(marks),
        marks.len() > 0,
    ensures
        in_order(marks.drop_last()),
        reached(marks) == marks.last().bucket(),
    decreases marks.len(),
{
    let init = marks.drop_last();
    assert forall|a: int, b: int| 0 <= a <= b < init.len() implies (#[trigger] init[a]).bucket()
        <= (#[trigger] init[b]).bucket() by {
        assert(marks[a].bucket() <= marks[b].bucket());
    }
    if init.len() > 0 {
        lemma_in_order_init(init);
        let n = marks.len() - 1;
        assert(marks[n - 1].bucket() <= marks[n].bucket());
        assert(init.last() == marks[n - 1]);
    } else {
        assert(reached(init) == 0);
    }
}

/// The deltas of a bucket are those of its marks.
proof fn lemma_bucket_deltas(marks: Seq<Mark>, c: int, b: int)
    requires
        in_order(marks),
    ensures
        forall|k: int, d: u64|
            #![trigger adds(marks[k], c, b, b + 1, d)]
            0 <= k < marks.len() && adds(marks[k], c, b, b + 1, d) ==> deltas_in(
                marks,
                c,
                b,
            ).contains(d),
        forall|d: u64| #[trigger]
            deltas_in(marks, c, b).contains(d) ==> exists|k: int|
                0 <= k < marks.len() && #[trigger] adds(marks[k], c, b, b + 1, d),
    decreases marks.len(),
{
    if marks.len() > 0 {
        let init = marks.drop_last();
        let n = marks.len() - 1;
        lemma_in_order_init(marks);
        lemma_bucket_deltas(init, c, b);
        let before = deltas_in(init, c, b);
        let now = deltas_in(marks, c, b);
        let more = marks.last().deltas(c);
        assert forall|k: int, d: u64|
            #![trigger adds(marks[k], c, b, b + 1, d)]
            0 <= k < marks.len() && adds(marks[k], c, b, b + 1, d) implies now.contains(d) by {
            if k < n {
                assert(init[k] == marks[k]);
                assert(adds(init[k], c, b, b + 1, d));
                let x = choose|x: int| 0 <= x < before.len() && before[x] == d;
                assert(now[x] == d);
            } else {
                assert(now[before.len() as int] == d);
            }
        }
        assert forall|d: u64| #[trigger] now.contains(d) implies exists|k: int|
            0 <= k < marks.len() && #[trigger] adds(marks[k], c, b, b + 1, d) by {
            let x = choose|x: int| 0 <= x < now.len() && now[x] == d;
            if x < before.len() {
                assert(before[x] == d);
                assert(before.contains(d));
                let k = choose|k: int|
                    0 <= k < init.len() && #[trigger] adds(init[k], c, b, b + 1, d);
                assert(adds(marks[k], c, b, b + 1, d));
            } else {
                assert(more[x - before.len()] == d);
                assert(adds(marks[n], c, b, b + 1, d));
            }
        }
    }
}

/// On every level of a summary, the entry of a counter bounds all deltas in the
/// buckets that it covers, and its maximum, if not zero, is one of them.
pub proof fn law_summary_bounds(
    counters: Seq<CounterView>,
    marks: Seq<Mark>,
    c: int,
    l: int,
    i: int,
)
    requires
        countable(marks, counters.len() as int),
        in_order(marks),
        0 <= c < counters.len(),
        0 <= l < summed(counters, marks).counters[c].levels.len(),
        0 <= i < summed(counters, marks).counters[c].levels[l].len(),
    ensures
        ({
            let e = summed(counters, marks).counters[c].levels[l][i];
            let (from, to) = (i * span(l), (i + 1) * span(l));
            &&& forall|k: int, d: u64|
                #![trigger adds(marks[k], c, from, to, d)]
                0 <= k < marks.len() && adds(marks[k], c, from, to, d) ==> e.min_delta <= d
                    <= e.max_delta
            &&& e.max_delta > 0 ==> exists|k: int|
                0 <= k < marks.len() && #[trigger] adds(marks[k], c, from, to, e.max_delta)
        }),
{
    let n = reached(marks) + 1;
    let level = entries(marks, c, n);
    let e = summed(counters, marks).counters[c].levels[l][i];
    let w = span(l);
    let (from, to) = (i * w, (i + 1) * w);
    assert((i + 1) * w == i * w + w) by (nonlinear_arith);
    law_buckets_total(marks, counters.len() as int, c, n);
    assert(crate::mipmap::sum_of(deltas_of(marks, c)) <= u64::MAX);
    law_entry_covers(level, l, i);
    let end = span_end(i, w, n);
    assert forall|k: int, d: u64|
        #![trigger adds(marks[k], c, from, to, d)]
        0 <= k < marks.len() && adds(marks[k], c, from, to, d) implies e.min_delta <= d
        <= e.max_delta by {
        let b = marks[k].bucket() as int;
        lemma_in_order_init(marks);
        assert(marks[k].bucket() <= marks[marks.len() - 1].bucket());
        lemma_bucket_deltas(marks, c, b);
        assert(adds(marks[k], c, b, b + 1, d));
        law_least_greatest(deltas_in(marks, c, b));
        let x = choose|x: int|
            0 <= x < deltas_in(marks, c, b).len() && deltas_in(marks, c, b)[x] == d;
        assert(level[b].min_delta <= d <= level[b].max_delta);
        assert(from <= b < end);
    }
    if e.max_delta > 0 {
        let b = choose|b: int| from <= b < end && (#[trigger] level[b]).max_delta == e.max_delta;
        let here = deltas_in(marks, c, b);
        law_least_greatest(here);
        assert(here.contains(e.max_delta));
        lemma_bucket_deltas(marks, c, b);
        let k = choose|k: int|
            0 <= k < marks.len() && #[trigger] adds(marks[k], c, b, b + 1, e.max_delta);
        assert(adds(marks[k], c, from, to, e.max_delta));
    }
}

/// Whether an item adds `delta` to counter `c` in a cycle from `from` up to but
/// not with `to`.
pub open spec fn adds_in_cycles(
    item: TimedItemView,
    counters: Seq<CounterView>,
    period: u64,
    c: int,
    from: int,
    to: int,
    delta: u64,
) -> bool {
    item matches TimedItemView::Op(op) && op.action == DA_SLOT_ADD && counter_on(
        counters,
        op.storage_id,
    ) == Some(c) && from <= op.time_ps / period < to && op.value == delta
}

/// Items in the order of their times leave marks in order, and deltas are those
/// of the items.
proof fn lemma_item_marks(
    items: Seq<TimedItemView>,
    counters: Seq<CounterView>,
    entities: Option<(u16, u16)>,
    period: u64,
    c: int,
    from: int,
    to: int,
    lo: int,
    hi: int,
)
    requires
        period > 0,
        lo == 1024 * from,
        hi == 1024 * to,
        forall|a: int, b: int|
            0 <= a <= b < items.len() ==> (#[trigger] items[a]).time() <= (
            #[trigger] items[b]).time(),
    ensures
        ({
            let marks = marks_of(items, counters, entities, period);
            &&& in_order(marks)
            &&& marks.len() > 0 ==> marks.last().bucket() <= items.last().time() / period / 1024
            &&& forall|j: int, d: u64|
                #![trigger adds_in_cycles(items[j], counters, period, c, lo, hi, d)]
                0 <= j < items.len() && adds_in_cycles(
                    items[j],
                    counters,
                    period,
                    c,
                    lo,
                    hi,
                    d,
                ) ==> exists|k: int|
                    0 <= k < marks.len() && #[trigger] adds(marks[k], c, from, to, d)
            &&& forall|k: int, d: u64|
                #![trigger adds(marks[k], c, from, to, d)]
                0 <= k < marks.len() && adds(marks[k], c, from, to, d) ==> exists|j: int|
                    0 <= j < items.len() && #[trigger] adds_in_cycles(
                        items[j],
                        counters,
                        period,
                        c,
                        lo,
                        hi,
                        d,
                    )
        }),
    decreases items.len(),
{
    if items.len() > 0 {
        let init = items.drop_last();
        let n = items.len() - 1;
        assert forall|a: int, b: int| 0 <= a <= b < init.len() implies (#[trigger] init[a]).time()
            <= (#[trigger] init[b]).time() by {
            assert(items[a].time() <= items[b].time());
        }
        lemma_item_marks(init, counters, entities, period, c, from, to, lo, hi);
        let before = marks_of(init, counters, entities, period);
        let marks = marks_of(items, counters, entities, period);
        if n > 0 {
            assert(items[n - 1].time() <= items[n].time());
            let (x, y) = (init.last().time(), items.last().time());
            assert(x / period <= y / period) by (nonlinear_arith)
                requires
                    x <= y,
                    period > 0,
            ;
        }
        assert forall|a: int, b: int| 0 <= a <= b < marks.len() implies (
        #[trigger] marks[a]).bucket() <= (#[trigger] marks[b]).bucket() by {
            if b < before.len() {
                assert(before[a].bucket() <= before[b].bucket());
            } else if a < before.len() {
                assert(before[a].bucket() <= before[before.len() - 1].bucket());
            }
        }
        assert forall|j: int, d: u64|
            #![trigger adds_in_cycles(items[j], counters, period, c, lo, hi, d)]
            0 <= j < items.len() && adds_in_cycles(
                items[j],
                counters,
                period,
                c,
                lo,
                hi,
                d,
            ) implies exists|k: int|
            0 <= k < marks.len() && #[trigger] adds(marks[k], c, from, to, d) by {
            if j < n {
                assert(init[j] == items[j]);
                assert(adds_in_cycles(init[j], counters, period, c, lo, hi, d));
                let k = choose|k: int|
                    0 <= k < before.len() && #[trigger] adds(before[k], c, from, to, d);
                assert(adds(marks[k], c, from, to, d));
            } else {
                assert(adds(marks[before.len() as int], c, from, to, d));
            }
        }
        assert forall|k: int, d: u64|
            #![trigger adds(marks[k], c, from, to, d)]
            0 <= k < marks.len() && adds(marks[k], c, from, to, d) implies exists|j: int|
            0 <= j < items.len() && #[trigger] adds_in_cycles(
                items[j],
                counters,
                period,
                c,
                lo,
                hi,
                d,
            ) by {
            if k < before.len() {
                assert(before[k] == marks[k]);
                assert(adds(before[k], c, from, to, d));
                let j = choose|j: int|
                    0 <= j < init.len() && #[trigger] adds_in_cycles(
                        init[j],
                        counters,
                        period,
                        c,
                        lo,
                        hi,
                        d,
                    );
                assert(adds_in_cycles(
                    items[j],
                    counters,
                    period,
                    c,
                    lo,
                    hi,
                    d,
                ));
            } else {
                assert(adds_in_cycles(
                    items[n],
                    counters,
                    period,
                    c,
                    lo,
                    hi,
                    d,
                ));
            }
        }
    }
}

/// On every level of the summary of some items in the order of their times,
/// the entry of a counter bounds all that was added to the counter in the
/// cycles that the entry covers, and its maximum, if not zero, was added in
/// one of them.
pub proof fn law_summary_largest(
    items: Seq<TimedItemView>,
    counters: Seq<CounterView>,
    entities: Option<(u16, u16)>,
    period: u64,
    c: int,
    l: int,
    i: int,
)
    requires
        period > 0,
        forall|a: int, b: int|
            0 <= a <= b < items.len() ==> (#[trigger] items[a]).time() <= (
            #[trigger] items[b]).time(),
        countable(marks_of(items, counters, entities, period), counters.len() as int),
        0 <= c < counters.len(),
        ({
            let levels = summed(
                counters,
                marks_of(items, counters, entities, period),
            ).counters[c].levels;
            0 <= l < levels.len() && 0 <= i < levels[l].len()
        }),
    ensures
        ({
            let marks = marks_of(items, counters, entities, period);
            let e = summed(counters, marks).counters[c].levels[l][i];
            let (from, to) = (1024 * (i * span(l)), 1024 * ((i + 1) * span(l)));
            &&& forall|j: int, d: u64|
                #![trigger adds_in_cycles(items[j], counters, period, c, from, to, d)]
                0 <= j < items.len() && adds_in_cycles(
                    items[j],
                    counters,
                    period,
                    c,
                    from,
                    to,
                    d,
                ) ==> e.min_delta <= d <= e.max_delta
            &&& e.max_delta > 0 ==> exists|j: int|
                0 <= j < items.len() && #[trigger] adds_in_cycles(
                    items[j],
                    counters,
                    period,
                    c,
                    from,
                    to,
                    e.max_delta,
                )
        }),
{
    let marks = marks_of(items, counters, entities, period);
    let e = summed(counters, marks).counters[c].levels[l][i];
    let (from, to) = (i * span(l), (i + 1) * span(l));
    let (lo, hi) = (1024 * from, 1024 * to);
    lemma_item_marks(items, counters, entities, period, c, from, to, lo, hi);
    law_summary_bounds(counters, marks, c, l, i);
    assert forall|j: int, d: u64|
        #![trigger adds_in_cycles(items[j], counters, period, c, lo, hi, d)]
        0 <= j < items.len() && adds_in_cycles(
            items[j],
            counters,
            period,
            c,
            lo,
            hi,
            d,
        ) implies e.min_delta <= d <= e.max_delta by {
        let k = choose|k: int| 0 <= k < marks.len() && #[trigger] adds(marks[k], c, from, to, d);
        assert(adds(marks[k], c, from, to, d));
    }
    if e.max_delta > 0 {
        let k = choose|k: int|
            0 <= k < marks.len() && #[trigger] adds(marks[k], c, from, to, e.max_delta);
        assert(adds(marks[k], c, from, to, e.max_delta));
        let j = choose|j: int|
            0 <= j < items.len() && #[trigger] adds_in_cycles(
                items[j],
                counters,
                period,
                c,
                lo,
                hi,
                e.max_delta,
            );
        assert(adds_in_cycles(items[j], counters, period, c, lo, hi, e.max_delta));
    }
}

} // verus!
