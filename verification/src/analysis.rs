//! A performance summary of a range of cycles.

use vstd::prelude::*;
use crate::cpu::load::{LoadedView, SegmentLoadResult};
use crate::cpu::trace::{CpuTrace, CpuTraceView};
use crate::cpu::types::{as_ints, overlapping, InstructionView, RetireStatus, StageSpan};
use crate::error::TraceError;
use crate::numerals::texts_of;
use crate::query::{cycles_until, spans, spans_of, stage_name, stage_text};
use crate::wire::views;

verus! {

// ---------------------------------------------------------------------------
// Counting instructions.

/// Whether an instruction starts within a range of cycles.
pub open spec fn starts_within(i: InstructionView, start: u32, end: u32) -> bool {
    start <= i.first_cycle < end
}

/// How many of the first `n` instructions start within a range and have one of
/// some statuses.
pub open spec fn count_in(
    is: Seq<InstructionView>,
    start: u32,
    end: u32,
    statuses: Set<RetireStatus>,
    n: int,
) -> nat
    decreases n,
{
    if n <= 0 {
        0
    } else {
        count_in(is, start, end, statuses, n - 1) + (if starts_within(is[n - 1], start, end)
            && statuses.contains(is[n - 1].retire_status) {
            1nat
        } else {
            0
        })
    }
}

/// How many instructions start within a range, and what became of them.
#[derive(Debug, Clone, Copy, PartialEq, Eq, Structural)]
pub struct InstructionCounts {
    pub total: u64,
    pub retired: u64,
    pub flushed: u64,
    pub in_flight: u64,
}

/// How many instructions start within a range, and what became of them.
pub open spec fn counts_of(is: Seq<InstructionView>, start: u32, end: u32) -> InstructionCounts {
    let n = is.len() as int;
    InstructionCounts {
        total: count_in(is, start, end, Set::full(), n) as u64,
        retired: count_in(is, start, end, set![RetireStatus::Retired], n) as u64,
        flushed: count_in(is, start, end, set![RetireStatus::Flushed], n) as u64,
        in_flight: count_in(is, start, end, set![RetireStatus::InFlight], n) as u64,
    }
}

/// Every instruction of a range was retired or flushed or is in flight, and no
/// more than one of these.
pub proof fn law_counts(is: Seq<InstructionView>, start: u32, end: u32, n: int)
    requires
        n <= is.len(),
    ensures
        count_in(is, start, end, Set::full(), n) == count_in(
            is,
            start,
            end,
            set![RetireStatus::Retired],
            n,
        ) + count_in(is, start, end, set![RetireStatus::Flushed], n) + count_in(
            is,
            start,
            end,
            set![RetireStatus::InFlight],
            n,
        ),
        count_in(is, start, end, Set::full(), n) <= if n > 0 {
            n
        } else {
            0
        },
    decreases n,
{
    if n > 0 {
        law_counts(is, start, end, n - 1);
    }
}

/// The instructions that are counted for a range are those whose first cycle is
/// not before its start and before its end, and whose status is one of those
/// that count.
pub proof fn law_count_in(
    is: Seq<InstructionView>,
    start: u32,
    end: u32,
    statuses: Set<RetireStatus>,
    n: int,
)
    requires
        0 <= n <= is.len(),
    ensures
        count_in(is, start, end, statuses, n) == is.take(n).filter(
            |i: InstructionView|
                start <= i.first_cycle && i.first_cycle < end && statuses.contains(i.retire_status),
        ).len(),
    decreases n,
{
    reveal(Seq::filter);
    if n > 0 {
        law_count_in(is, start, end, statuses, n - 1);
        assert(is.take(n).drop_last() =~= is.take(n - 1));
        assert(is.take(n).last() == is[n - 1]);
    }
}

/// The counts of two adjacent ranges add up to those of both together.
pub proof fn law_counts_adjacent(
    is: Seq<InstructionView>,
    start: u32,
    mid: u32,
    end: u32,
    statuses: Set<RetireStatus>,
    n: int,
)
    requires
        start <= mid <= end,
    ensures
        count_in(is, start, mid, statuses, n) + count_in(is, mid, end, statuses, n) == count_in(
            is,
            start,
            end,
            statuses,
            n,
        ),
    decreases n,
{
    if n > 0 {
        law_counts_adjacent(is, start, mid, end, statuses, n - 1);
    }
}

/// Counts the instructions that start within a range.
pub fn count_instructions(result: &SegmentLoadResult, start: u32, end: u32) -> (c:
    InstructionCounts)
    ensures
        c == counts_of(result@.instructions, start, end),
{
    let ghost is = result@.instructions;
    let mut c = InstructionCounts { total: 0, retired: 0, flushed: 0, in_flight: 0 };
    let n: usize = result.instructions.len();
    let mut i: usize = 0;
    while i < n
        invariant
            i <= n,
            n == result.instructions@.len(),
            is == result@.instructions,
            is.len() == n,
            c.total == count_in(is, start, end, Set::full(), i as int),
            c.retired == count_in(is, start, end, set![RetireStatus::Retired], i as int),
            c.flushed == count_in(is, start, end, set![RetireStatus::Flushed], i as int),
            c.in_flight == count_in(is, start, end, set![RetireStatus::InFlight], i as int),
        decreases n - i,
    {
        let inst = &result.instructions[i];
        assert(is[i as int] == inst@);
        proof {
            law_counts(is, start, end, i as int);
        }
        if inst.first_cycle >= start && inst.first_cycle < end {
            c.total = c.total + 1;
            match inst.retire_status {
                RetireStatus::Retired => {
                    c.retired = c.retired + 1;
                },
                RetireStatus::Flushed => {
                    c.flushed = c.flushed + 1;
                },
                RetireStatus::InFlight => {
                    c.in_flight = c.in_flight + 1;
                },
            }
        }
        i = i + 1;
    }
    c
}

// ---------------------------------------------------------------------------
// Latencies of stages.

/// The stages of those of the first `n` instructions that start within a range.
pub open spec fn spans_within(r: LoadedView, start: u32, end: u32, n: int) -> Seq<StageSpan>
    decreases n,
{
    if n <= 0 {
        Seq::empty()
    } else {
        let before = spans_within(r, start, end, n - 1);
        if starts_within(r.instructions[n - 1], start, end) {
            before + spans_of(r.stages, r.instructions[n - 1])
        } else {
            before
        }
    }
}

/// The stages of the instructions that start within a range.
pub fn collect_spans(result: &SegmentLoadResult, start: u32, end: u32) -> (r: Vec<StageSpan>)
    ensures
        r@ == spans_within(result@, start, end, result@.instructions.len() as int),
{
    let mut r: Vec<StageSpan> = Vec::new();
    let mut i: usize = 0;
    while i < result.instructions.len()
        invariant
            i <= result.instructions@.len(),
            result@.instructions.len() == result.instructions@.len(),
            r@ == spans_within(result@, start, end, i as int),
        decreases result.instructions@.len() - i,
    {
        let inst = &result.instructions[i];
        assert(result@.instructions[i as int] == inst@);
        if inst.first_cycle >= start && inst.first_cycle < end {
            let mut own = spans(&result.stages, inst);
            r.append(&mut own);
        }
        i = i + 1;
    }
    r
}

/// How often a stage occurs among the first `n` spans.
pub open spec fn times_in(spans: Seq<StageSpan>, stage: u16, n: int) -> nat
    decreases n,
{
    if n <= 0 {
        0
    } else {
        times_in(spans, stage, n - 1) + (if spans[n - 1].stage_name_idx == stage {
            1nat
        } else {
            0
        })
    }
}

/// How many cycles the first `n` spans spend in a stage.
pub open spec fn cycles_in(spans: Seq<StageSpan>, stage: u16, n: int) -> nat
    decreases n,
{
    if n <= 0 {
        0
    } else {
        cycles_in(spans, stage, n - 1) + (if spans[n - 1].stage_name_idx == stage {
            cycles_until(spans[n - 1].start_cycle, spans[n - 1].end_cycle) as nat
        } else {
            0
        })
    }
}

/// A number, or the greatest of 64 bits where it is greater.
pub open spec fn at_most_u64(n: nat) -> u64 {
    if n <= u64::MAX {
        n as u64
    } else {
        u64::MAX
    }
}

/// How often instructions were in a stage, and for how long.
#[derive(Debug, Clone, Copy, PartialEq, Eq, Structural)]
pub struct StageTotal {
    pub stage: u16,
    pub total_cycles: u64,
    pub count: u64,
}

/// What the first `n` spans say of a stage.
pub open spec fn total_of(spans: Seq<StageSpan>, stage: u16, n: int) -> StageTotal {
    StageTotal {
        stage,
        total_cycles: at_most_u64(cycles_in(spans, stage, n)),
        count: times_in(spans, stage, n) as u64,
    }
}

/// A span counts once for its stage and not for any other; it adds the cycles
/// from its start to its end to those of its stage, none where it ends before
/// it starts.
pub proof fn law_span_counted(spans: Seq<StageSpan>, s: StageSpan, stage: u16)
    ensures
        ({
            let all = spans.push(s);
            let (n, m) = (spans.len() as int, all.len() as int);
            let own = s.stage_name_idx == stage;
            &&& own ==> times_in(all, stage, m) == times_in(spans, stage, n) + 1
            &&& !own ==> times_in(all, stage, m) == times_in(spans, stage, n)
            &&& own && s.start_cycle <= s.end_cycle ==> cycles_in(all, stage, m) == cycles_in(
                spans,
                stage,
                n,
            ) + s.end_cycle - s.start_cycle
            &&& !own || s.end_cycle < s.start_cycle ==> cycles_in(all, stage, m) == cycles_in(
                spans,
                stage,
                n,
            )
        }),
{
    lemma_spans_prefix(spans, s, stage, spans.len() as int);
}

proof fn lemma_spans_prefix(spans: Seq<StageSpan>, s: StageSpan, stage: u16, n: int)
    requires
        n <= spans.len(),
    ensures
        times_in(spans.push(s), stage, n) == times_in(spans, stage, n),
        cycles_in(spans.push(s), stage, n) == cycles_in(spans, stage, n),
    decreases n,
{
    if n > 0 {
        lemma_spans_prefix(spans, s, stage, n - 1);
    }
}

/// Whether a stage is on a list.
pub open spec fn listed(totals: Seq<StageTotal>, stage: u16) -> bool {
    exists|i: int| 0 <= i < totals.len() && (#[trigger] totals[i]).stage == stage
}

/// Whether a list has each stage of the first `n` spans once, and no other.
pub open spec fn covers(totals: Seq<StageTotal>, spans: Seq<StageSpan>, n: int) -> bool {
    &&& forall|i: int|
        0 <= i < totals.len() ==> (#[trigger] totals[i]) == total_of(spans, totals[i].stage, n)
            && times_in(spans, totals[i].stage, n) > 0
    &&& forall|i: int, j: int|
        0 <= i < j < totals.len() ==> (#[trigger] totals[i]).stage != (#[trigger] totals[j]).stage
    &&& forall|stage: u16| #[trigger] times_in(spans, stage, n) > 0 ==> listed(totals, stage)
}

/// Whether the average latency of a stage is not below that of another.
pub open spec fn not_faster(a: StageTotal, b: StageTotal) -> bool {
    a.total_cycles * b.count >= b.total_cycles * a.count
}

/// Whether stages come in the order of their average latencies, the greatest
/// first.
pub open spec fn slowest_first(totals: Seq<StageTotal>) -> bool {
    forall|i: int, j: int|
        0 <= i < j < totals.len() ==> not_faster(#[trigger] totals[i], #[trigger] totals[j])
}

proof fn lemma_times_bound(spans: Seq<StageSpan>, stage: u16, n: int)
    requires
        0 <= n,
    ensures
        times_in(spans, stage, n) <= n,
    decreases n,
{
    if n > 0 {
        lemma_times_bound(spans, stage, n - 1);
    }
}

/// Adds up the spans of each stage.
fn add_up(spans: &Vec<StageSpan>) -> (totals: Vec<StageTotal>)
    ensures
        covers(totals@, spans@, spans@.len() as int),
{
    let mut totals: Vec<StageTotal> = Vec::new();
    let n: usize = spans.len();
    let mut i: usize = 0;
    while i < n
        invariant
            i <= n,
            n == spans@.len(),
            covers(totals@, spans@, i as int),
        decreases n - i,
    {
        let s = spans[i];
        let stage: u16 = s.stage_name_idx;
        let duration: u64 = if s.end_cycle >= s.start_cycle {
            (s.end_cycle - s.start_cycle) as u64
        } else {
            0
        };
        let mut k: usize = 0;
        while k < totals.len() && totals[k].stage != stage
            invariant
                k <= totals@.len(),
                forall|j: int| 0 <= j < k ==> (#[trigger] totals@[j]).stage != stage,
            decreases totals@.len() - k,
        {
            k = k + 1;
        }
        let ghost before = totals@;
        proof {
            lemma_times_bound(spans@, stage, i as int);
        }
        if k < totals.len() {
            let t = totals[k];
            assert(before[k as int] == total_of(spans@, stage, i as int));
            let sum: u64 = if t.total_cycles > u64::MAX - duration {
                u64::MAX
            } else {
                t.total_cycles + duration
            };
            totals.set(k, StageTotal { stage, total_cycles: sum, count: t.count + 1 });
        } else {
            assert(times_in(spans@, stage, i as int) == 0) by {
                if times_in(spans@, stage, i as int) > 0 {
                    assert(listed(before, stage));
                }
            }
            proof {
                lemma_no_cycles(spans@, stage, i as int);
            }
            totals.push(StageTotal { stage, total_cycles: duration, count: 1 });
        }
        proof {
            let now = totals@;
            assert(now[k as int] == total_of(spans@, stage, i + 1));
            assert forall|j: int| 0 <= j < now.len() implies (#[trigger] now[j]) == total_of(
                spans@,
                now[j].stage,
                i + 1,
            ) && times_in(spans@, now[j].stage, i + 1) > 0 by {
                if j != k {
                    assert(now[j] == before[j]);
                    assert(before[j].stage != stage);
                }
            }
            assert forall|st: u16| #[trigger] times_in(spans@, st, i + 1) > 0 implies listed(
                now,
                st,
            ) by {
                if st == stage {
                    assert(now[k as int].stage == st);
                } else {
                    assert(times_in(spans@, st, i as int) > 0);
                    assert(listed(before, st));
                    let j = choose|j: int|
                        0 <= j < before.len() && (#[trigger] before[j]).stage == st;
                    assert(now[j].stage == st);
                }
            }
        }
        i = i + 1;
    }
    totals
}

proof fn lemma_no_cycles(spans: Seq<StageSpan>, stage: u16, n: int)
    requires
        times_in(spans, stage, n) == 0,
    ensures
        cycles_in(spans, stage, n) == 0,
    decreases n,
{
    if n > 0 {
        lemma_no_cycles(spans, stage, n - 1);
    }
}

/// The order of average latencies is transitive where there is anything to
/// average.
proof fn lemma_not_faster(a: StageTotal, b: StageTotal, c: StageTotal)
    requires
        not_faster(a, b),
        not_faster(b, c),
        b.count > 0,
    ensures
        not_faster(a, c),
{
    let (x, p) = (a.total_cycles as int, a.count as int);
    let (y, q) = (b.total_cycles as int, b.count as int);
    let (z, r) = (c.total_cycles as int, c.count as int);
    assert(x * r >= z * p) by (nonlinear_arith)
        requires
            x * q >= y * p,
            y * r >= z * q,
            q > 0,
            p >= 0,
            r >= 0,
            x >= 0,
            y >= 0,
            z >= 0,
    {
        assert((x * q) * r >= (y * p) * r);
        assert((y * r) * p >= (z * q) * p);
        assert((x * r) * q >= (z * p) * q);
    }
}

/// Whether the average latency of a stage is not below that of another.
fn is_not_faster(a: StageTotal, b: StageTotal) -> (r: bool)
    ensures
        r == not_faster(a, b),
{
    proof {
        lemma_product(a.total_cycles, b.count);
        lemma_product(b.total_cycles, a.count);
    }
    (a.total_cycles as u128) * (b.count as u128) >= (b.total_cycles as u128) * (a.count as u128)
}

proof fn lemma_product(x: u64, y: u64)
    ensures
        0 <= x * y <= u128::MAX,
{
    assert(0 <= x * y <= 0xFFFF_FFFF_FFFF_FFFF * 0xFFFF_FFFF_FFFF_FFFF) by (nonlinear_arith)
        requires
            x <= 0xFFFF_FFFF_FFFF_FFFF,
            y <= 0xFFFF_FFFF_FFFF_FFFF,
    ;
}

/// Whether two lists have the same entries.
pub open spec fn same_entries(a: Seq<StageTotal>, b: Seq<StageTotal>) -> bool {
    forall|t: StageTotal| #[trigger] a.contains(t) == b.contains(t)
}

/// Puts the slowest stages first.
fn sort_by_latency(totals: &Vec<StageTotal>) -> (r: Vec<StageTotal>)
    requires
        forall|i: int| 0 <= i < totals@.len() ==> (#[trigger] totals@[i]).count > 0,
        forall|i: int, j: int|
            0 <= i < j < totals@.len() ==> (#[trigger] totals@[i]).stage
                != (#[trigger] totals@[j]).stage,
    ensures
        slowest_first(r@),
        same_entries(r@, totals@),
        forall|i: int, j: int|
            0 <= i < j < r@.len() ==> (#[trigger] r@[i]).stage != (#[trigger] r@[j]).stage,
{
    let mut r: Vec<StageTotal> = Vec::new();
    let mut i: usize = 0;
    assert(totals@.take(0) =~= Seq::<StageTotal>::empty());
    while i < totals.len()
        invariant
            i <= totals@.len(),
            forall|i: int| 0 <= i < totals@.len() ==> (#[trigger] totals@[i]).count > 0,
            forall|i: int, j: int|
                0 <= i < j < totals@.len() ==> (#[trigger] totals@[i]).stage
                    != (#[trigger] totals@[j]).stage,
            slowest_first(r@),
            same_entries(r@, totals@.take(i as int)),
            forall|i: int, j: int|
                0 <= i < j < r@.len() ==> (#[trigger] r@[i]).stage != (#[trigger] r@[j]).stage,
            forall|k: int| 0 <= k < r@.len() ==> (#[trigger] r@[k]).count > 0,
        decreases totals@.len() - i,
    {
        let t = totals[i];
        let mut k: usize = 0;
        while k < r.len() && is_not_faster(r[k], t)
            invariant
                k <= r@.len(),
                forall|j: int| 0 <= j < k ==> not_faster(#[trigger] r@[j], t),
            decreases r@.len() - k,
        {
            k = k + 1;
        }
        let ghost before = r@;
        let ghost taken = totals@.take(i as int);
        r.insert(k, t);
        proof {
            let now = r@;
            assert forall|j: int| 0 <= j < before.len() implies (#[trigger] before[j]).stage
                != t.stage by {
                assert(before.contains(before[j]));
                assert(taken.contains(before[j]));
                let p = choose|p: int| 0 <= p < taken.len() && taken[p] == before[j];
                assert(totals@[p].stage != totals@[i as int].stage);
            }
            assert forall|j: int| k <= j < before.len() implies not_faster(
                t,
                #[trigger] before[j],
            ) by {
                assert(not_faster(t, before[k as int]));
                if j > k {
                    lemma_not_faster(t, before[k as int], before[j]);
                }
            }
            assert forall|a: int, b: int| 0 <= a < b < now.len() implies not_faster(
                #[trigger] now[a],
                #[trigger] now[b],
            ) by {
                lemma_inserted(before, k as int, t, a);
                lemma_inserted(before, k as int, t, b);
            }
            assert forall|a: int, b: int| 0 <= a < b < now.len() implies (
            #[trigger] now[a]).stage != (#[trigger] now[b]).stage by {
                lemma_inserted(before, k as int, t, a);
                lemma_inserted(before, k as int, t, b);
            }
            let next = totals@.take(i + 1);
            assert(next =~= taken.push(t));
            assert forall|e: StageTotal| #[trigger] now.contains(e) == next.contains(e) by {
                assert(taken.push(t).contains(e) == (taken.contains(e) || e == t)) by {
                    if taken.contains(e) {
                        let p = choose|p: int| 0 <= p < taken.len() && taken[p] == e;
                        assert(taken.push(t)[p] == e);
                    }
                    assert(taken.push(t)[taken.len() as int] == t);
                }
                assert(now.contains(e) == (before.contains(e) || e == t)) by {
                    if before.contains(e) {
                        let p = choose|p: int| 0 <= p < before.len() && before[p] == e;
                        assert(now[if p < k {
                            p
                        } else {
                            p + 1
                        }] == e);
                    }
                    assert(now[k as int] == t);
                    if now.contains(e) {
                        let p = choose|p: int| 0 <= p < now.len() && now[p] == e;
                        lemma_inserted(before, k as int, t, p);
                    }
                }
                assert(before.contains(e) == taken.contains(e));
            }
        }
        i = i + 1;
    }
    assert(totals@.take(totals@.len() as int) =~= totals@);
    r
}

/// What an insertion does to each place.
proof fn lemma_inserted(s: Seq<StageTotal>, k: int, t: StageTotal, a: int)
    requires
        0 <= k <= s.len(),
        0 <= a < s.len() + 1,
    ensures
        s.insert(k, t)[a] == if a < k {
            s[a]
        } else if a == k {
            t
        } else {
            s[a - 1]
        },
{
}

/// Lists that differ in their order alone cover the same.
proof fn lemma_covers_reordered(
    a: Seq<StageTotal>,
    b: Seq<StageTotal>,
    spans: Seq<StageSpan>,
    n: int,
)
    requires
        covers(a, spans, n),
        same_entries(b, a),
        forall|i: int, j: int|
            0 <= i < j < b.len() ==> (#[trigger] b[i]).stage != (#[trigger] b[j]).stage,
    ensures
        covers(b, spans, n),
{
    assert forall|i: int| 0 <= i < b.len() implies (#[trigger] b[i]) == total_of(
        spans,
        b[i].stage,
        n,
    ) && times_in(spans, b[i].stage, n) > 0 by {
        assert(b.contains(b[i]));
        assert(a.contains(b[i]));
        let p = choose|p: int| 0 <= p < a.len() && a[p] == b[i];
        assert(a[p] == total_of(spans, a[p].stage, n));
    }
    assert forall|stage: u16| #[trigger] times_in(spans, stage, n) > 0 implies listed(
        b,
        stage,
    ) by {
        assert(listed(a, stage));
        let p = choose|p: int| 0 <= p < a.len() && (#[trigger] a[p]).stage == stage;
        assert(a.contains(a[p]));
        assert(b.contains(a[p]));
        let q = choose|q: int| 0 <= q < b.len() && b[q] == a[p];
        assert(b[q].stage == stage);
    }
}

/// The latencies of the stages, the slowest first. Stages that are equally
/// slow come in any order.
pub fn stage_latencies(spans: &Vec<StageSpan>) -> (r: Vec<StageTotal>)
    ensures
        covers(r@, spans@, spans@.len() as int),
        slowest_first(r@),
{
    let totals = add_up(spans);
    let count: usize = spans.len();
    proof {
        let n = count as int;
        assert forall|i: int| 0 <= i < totals@.len() implies (#[trigger] totals@[i]).count > 0 by {
            lemma_times_bound(spans@, totals@[i].stage, n);
        }
    }
    let r = sort_by_latency(&totals);
    proof {
        lemma_covers_reordered(totals@, r@, spans@, spans@.len() as int);
    }
    r
}

// ---------------------------------------------------------------------------
// The summary.

/// What a counter did over a range.
#[derive(Debug)]
pub struct CounterGrowth {
    pub name: String,
    pub start_value: u64,
    pub end_value: u64,
    /// Modulo 2^64.
    pub delta: u64,
}

/// What a `CounterGrowth` says.
#[verifier::ext_equal]
pub struct CounterGrowthView {
    pub name: Seq<char>,
    pub start_value: u64,
    pub end_value: u64,
    pub delta: u64,
}

impl View for CounterGrowth {
    type V = CounterGrowthView;

    open spec fn view(&self) -> CounterGrowthView {
        CounterGrowthView {
            name: self.name@,
            start_value: self.start_value,
            end_value: self.end_value,
            delta: self.delta,
        }
    }
}

/// How full a buffer is at a cycle.
#[derive(Debug, Clone, Copy, PartialEq, Eq, Structural)]
pub struct OccupancySample {
    pub cycle: u32,
    pub occupied: usize,
    pub capacity: u16,
}

/// How full a buffer is at some cycles.
#[derive(Debug)]
pub struct Occupancy {
    pub name: String,
    pub samples: Vec<OccupancySample>,
}

/// What an `Occupancy` says.
#[verifier::ext_equal]
pub struct OccupancyView {
    pub name: Seq<char>,
    pub samples: Seq<OccupancySample>,
}

impl View for Occupancy {
    type V = OccupancyView;

    open spec fn view(&self) -> OccupancyView {
        OccupancyView { name: self.name@, samples: self.samples@ }
    }
}

/// Whether three samples lie at the start, in the middle and at the end of a
/// range, the middle as far from the start as from the end or a cycle nearer.
pub open spec fn spread(samples: Seq<OccupancySample>, start: u32, end: u32) -> bool {
    &&& samples.len() == 3
    &&& samples[0].cycle == start
    &&& samples[2].cycle == end
    &&& start <= samples[1].cycle <= end
    &&& 0 <= (end - samples[1].cycle) - (samples[1].cycle - start) <= 1
}

impl CpuTraceView {
    /// What a counter did over a range.
    pub open spec fn counter_growth(self, counter: int, start: u32, end: u32) -> CounterGrowthView {
        let a = self.counter_value(counter, start);
        let b = self.counter_value(counter, end);
        CounterGrowthView {
            name: self.counters[counter].name,
            start_value: a,
            end_value: b,
            delta: b.wrapping_sub(a),
        }
    }

    /// How full a buffer is at a cycle.
    pub open spec fn occupancy(self, buffer: int, cycle: u32) -> OccupancySample {
        let state = self.buffer_state(buffer, cycle);
        OccupancySample {
            cycle,
            occupied: state.slots.len() as usize,
            capacity: state.capacity,
        }
    }

    /// How full a buffer is at the start, in the middle and at the end of a
    /// range.
    pub open spec fn occupancies(self, buffer: int, start: u32, end: u32) -> OccupancyView {
        let mid = (start + (end - start) / 2) as u32;
        OccupancyView {
            name: self.buffers[buffer].name,
            samples: seq![
                self.occupancy(buffer, start),
                self.occupancy(buffer, mid),
                self.occupancy(buffer, end),
            ],
        }
    }

    /// Whether the counters can be looked up at both ends of a range, where
    /// there is anything to be said of it.
    pub open spec fn analyzable(self, start: u32, end: u32) -> bool {
        start < end && self.loaded(self.segments_within(start, end), None) is Ok
            ==> self.all_known_at(start) && self.all_known_at(end)
    }

    /// The segments that overlap a range.
    pub open spec fn segments_within(self, start: u32, end: u32) -> Seq<usize> {
        overlapping(self.segments, start, end, self.segments.len() as int).map_values(
            |i: int| i as usize,
        )
    }
}

/// What a counter had at the start of a range and what it grew by make what it
/// has at the end, modulo 2^64; and what it grew by over two adjacent ranges
/// makes what it grew by over both.
pub proof fn law_counter_growth(t: CpuTraceView, c: int, start: u32, mid: u32, end: u32)
    ensures
        ({
            let g = t.counter_growth(c, start, end);
            &&& g.name == t.counters[c].name
            &&& g.start_value == t.counter_value(c, start)
            &&& g.end_value == t.counter_value(c, end)
            &&& (g.start_value + g.delta) % 0x1_0000_0000_0000_0000 == g.end_value
            &&& (t.counter_growth(c, start, mid).delta + t.counter_growth(c, mid, end).delta)
                % 0x1_0000_0000_0000_0000 == g.delta
        }),
{
}

/// A buffer is sampled at the start of a range, at its end, and at a cycle
/// between them that is as far from the start as from the end, or a cycle
/// nearer to the start; each sample is what the buffer holds at its cycle.
pub proof fn law_occupancies(t: CpuTraceView, buffer: int, start: u32, end: u32)
    requires
        start <= end,
    ensures
        ({
            let o = t.occupancies(buffer, start, end);
            let mid = o.samples[1].cycle;
            &&& o.name == t.buffers[buffer].name
            &&& o.samples.len() == 3
            &&& o.samples[0].cycle == start
            &&& o.samples[2].cycle == end
            &&& start <= mid <= end
            &&& 0 <= (end - mid) - (mid - start) <= 1
            &&& forall|i: int|
                0 <= i < 3 ==> {
                    let s = #[trigger] o.samples[i];
                    let state = t.buffer_state(buffer, s.cycle);
                    s.occupied == state.slots.len() as usize && s.capacity == state.capacity
                }
        }),
{
}

/// What a counter did over a range.
pub fn counter_growth(trace: &CpuTrace, counter: usize, start: u32, end: u32) -> (g:
    CounterGrowth)
    requires
        counter < trace@.counters.len(),
        trace@.known_at(counter as int, start),
        trace@.known_at(counter as int, end),
    ensures
        g@ == trace@.counter_growth(counter as int, start, end),
        (g@.start_value + g@.delta) % 0x1_0000_0000_0000_0000 == g@.end_value,
{
    let names = trace.counter_names();
    assert(crate::summarize::counter_views(names@).len() == names@.len());
    assert(trace@.counters[counter as int] == crate::summarize::counter_views(
        names@,
    )[counter as int]);
    let a: u64 = trace.counter_value_at(counter, start);
    let b: u64 = trace.counter_value_at(counter, end);
    CounterGrowth {
        name: names[counter].1.clone(),
        start_value: a,
        end_value: b,
        delta: b.wrapping_sub(a),
    }
}

fn counter_growths(trace: &CpuTrace, start: u32, end: u32) -> (r: Vec<CounterGrowth>)
    requires
        trace@.all_known_at(start),
        trace@.all_known_at(end),
    ensures
        views(r@) == Seq::new(
            trace@.counters.len(),
            |c: int| trace@.counter_growth(c, start, end),
        ),
{
    let ghost want = Seq::new(
        trace@.counters.len(),
        |c: int| trace@.counter_growth(c, start, end),
    );
    let names = trace.counter_names();
    let n: usize = names.len();
    assert(crate::summarize::counter_views(names@).len() == n);
    let mut r: Vec<CounterGrowth> = Vec::new();
    let mut i: usize = 0;
    while i < n
        invariant
            i <= n,
            n == trace@.counters.len(),
            trace@.all_known_at(start),
            trace@.all_known_at(end),
            want == Seq::new(
                trace@.counters.len(),
                |c: int| trace@.counter_growth(c, start, end),
            ),
            views(r@) == want.take(i as int),
        decreases n - i,
    {
        assert(trace@.known_at(i as int, start));
        assert(trace@.known_at(i as int, end));
        let g = counter_growth(trace, i, start, end);
        let ghost before = views(r@);
        r.push(g);
        assert(views(r@) =~= before.push(g@));
        i = i + 1;
        assert(views(r@) =~= want.take(i as int));
    }
    assert(want.take(i as int) =~= want);
    r
}

fn occupancy(trace: &CpuTrace, buffer: usize, cycle: u32) -> (s: OccupancySample)
    requires
        trace.wf(),
    ensures
        s == trace@.occupancy(buffer as int, cycle),
{
    let state = trace.buffer_state_at(buffer, cycle);
    assert(state@.slots.len() == state.slots@.len());
    OccupancySample { cycle, occupied: state.slots.len(), capacity: state.capacity }
}

fn occupancies(trace: &CpuTrace, start: u32, end: u32) -> (r: Vec<Occupancy>)
    requires
        trace.wf(),
        start < end,
    ensures
        views(r@) == Seq::new(trace@.buffers.len(), |b: int| trace@.occupancies(b, start, end)),
        forall|b: int| 0 <= b < r@.len() ==> spread(#[trigger] r@[b].samples@, start, end),
{
    let ghost want = Seq::new(
        trace@.buffers.len(),
        |b: int| trace@.occupancies(b, start, end),
    );
    let infos = trace.buffer_infos();
    let n: usize = infos.len();
    assert(crate::cpu::resolve::info_views(infos@).len() == n);
    let mid: u32 = start + (end - start) / 2;
    let mut r: Vec<Occupancy> = Vec::new();
    let mut i: usize = 0;
    while i < n
        invariant
            i <= n,
            n == trace@.buffers.len(),
            n == infos@.len(),
            trace.wf(),
            mid == start + (end - start) / 2,
            start < end,
            crate::cpu::resolve::info_views(infos@) == trace@.buffers,
            want == Seq::new(
                trace@.buffers.len(),
                |b: int| trace@.occupancies(b, start, end),
            ),
            views(r@) == want.take(i as int),
            forall|b: int| 0 <= b < r@.len() ==> spread(#[trigger] r@[b].samples@, start, end),
        decreases n - i,
    {
        assert(trace@.buffers[i as int] == crate::cpu::resolve::info_views(infos@)[i as int]);
        let mut samples: Vec<OccupancySample> = Vec::new();
        samples.push(occupancy(trace, i, start));
        samples.push(occupancy(trace, i, mid));
        samples.push(occupancy(trace, i, end));
        let o = Occupancy { name: infos[i].name.clone(), samples };
        assert(o@ =~= trace@.occupancies(i as int, start, end));
        let ghost before = views(r@);
        r.push(o);
        assert(views(r@) =~= before.push(o@));
        i = i + 1;
        assert(views(r@) =~= want.take(i as int));
    }
    assert(want.take(i as int) =~= want);
    r
}

/// The latency of a stage.
#[derive(Debug)]
pub struct StageLatency {
    pub name: String,
    pub total: StageTotal,
}

/// The totals of some latencies.
pub open spec fn totals_of(ls: Seq<StageLatency>) -> Seq<StageTotal> {
    ls.map_values(|l: StageLatency| l.total)
}

/// A performance summary of a range of cycles.
#[derive(Debug)]
pub struct Performance {
    pub range_cycles: u32,
    pub instructions: InstructionCounts,
    pub counters: Vec<CounterGrowth>,
    pub buffers: Vec<Occupancy>,
    /// The slowest first.
    pub stages: Vec<StageLatency>,
}

fn name_stages(totals: &Vec<StageTotal>, names: &[String]) -> (r: Vec<StageLatency>)
    ensures
        totals_of(r@) == totals@,
        forall|i: int|
            0 <= i < r@.len() ==> (#[trigger] r@[i]).name@ == stage_text(
                texts_of(names@),
                r@[i].total.stage,
            ),
{
    let mut r: Vec<StageLatency> = Vec::new();
    let mut i: usize = 0;
    while i < totals.len()
        invariant
            i <= totals@.len(),
            totals_of(r@) == totals@.take(i as int),
            forall|i: int|
                0 <= i < r@.len() ==> (#[trigger] r@[i]).name@ == stage_text(
                    texts_of(names@),
                    r@[i].total.stage,
                ),
        decreases totals@.len() - i,
    {
        let total = totals[i];
        let name = stage_name(names, total.stage);
        let ghost before = totals_of(r@);
        r.push(StageLatency { name, total });
        assert(totals_of(r@) =~= before.push(total));
        i = i + 1;
        assert(totals_of(r@) =~= totals@.take(i as int));
    }
    assert(totals_of(r@) =~= totals@);
    r
}

/// A structured performance summary over a range of cycles: instruction
/// counts, counters, buffer occupancy at start, middle and end, and the
/// latencies of the stages, the slowest first.
pub fn analyze_performance(trace: &CpuTrace, start: u32, end: u32) -> (res: Result<
    Performance,
    TraceError,
>)
    requires
        trace.wf(),
        trace@.analyzable(start, end),
    ensures
        start >= end ==> res == Err::<Performance, TraceError>(TraceError::EmptyRange),
        start < end ==> match trace@.loaded(trace@.segments_within(start, end), None) {
            Err(e) => res == Err::<Performance, TraceError>(e),
            Ok(r) => {
                &&& res is Ok
                &&& ({
                    let p = res->Ok_0;
                    let spans = spans_within(r, start, end, r.instructions.len() as int);
                    &&& p.range_cycles == end - start
                    &&& p.instructions == counts_of(r.instructions, start, end)
                    &&& views(p.counters@) == Seq::new(
                        trace@.counters.len(),
                        |c: int| trace@.counter_growth(c, start, end),
                    )
                    &&& views(p.buffers@) == Seq::new(
                        trace@.buffers.len(),
                        |b: int| trace@.occupancies(b, start, end),
                    )
                    &&& forall|b: int|
                        0 <= b < p.buffers@.len() ==> spread(
                            #[trigger] p.buffers@[b].samples@,
                            start,
                            end,
                        )
                    &&& covers(totals_of(p.stages@), spans, spans.len() as int)
                    &&& slowest_first(totals_of(p.stages@))
                    &&& forall|i: int|
                        0 <= i < p.stages@.len() ==> (#[trigger] p.stages@[i]).name@ == stage_text(
                            trace@.ids.stage_names,
                            p.stages@[i].total.stage,
                        )
                })
            },
        },
{
    if start >= end {
        return Err(TraceError::EmptyRange);
    }
    let segments = trace.segment_index().segments_in_range(start, end);
    proof {
        let want = trace@.segments_within(start, end);
        assert forall|i: int| 0 <= i < segments@.len() implies segments@[i] == #[trigger] want[i] by {
            assert(as_ints(segments@)[i] == segments@[i] as int);
        }
        assert(as_ints(segments@).len() == segments@.len());
        assert(segments@ =~= want);
    }
    let result = match trace.load_segments(segments.as_slice()) {
        Err(e) => return Err(e),
        Ok(r) => r,
    };
    let instructions = count_instructions(&result, start, end);
    let spans = collect_spans(&result, start, end);
    let totals = stage_latencies(&spans);
    Ok(
        Performance {
            range_cycles: end - start,
            instructions,
            counters: counter_growths(trace, start, end),
            buffers: occupancies(trace, start, end),
            stages: name_stages(&totals, trace.stage_names()),
        },
    )
}

/// Where stages come with the slowest first, no stage takes more cycles on
/// average, rounded down, than one before it.
pub proof fn law_slowest_first(totals: Seq<StageTotal>, i: int, j: int)
    requires
        slowest_first(totals),
        0 <= i < j < totals.len(),
        totals[i].count > 0,
        totals[j].count > 0,
    ensures
        totals[i].total_cycles / totals[i].count >= totals[j].total_cycles / totals[j].count,
{
    let (a, b) = (totals[i], totals[j]);
    assert(not_faster(a, b));
    let (x, p) = (a.total_cycles as int, a.count as int);
    let (y, q) = (b.total_cycles as int, b.count as int);
    let (u, v) = (x / p, y / q);
    vstd::arithmetic::div_mod::lemma_fundamental_div_mod(x, p);
    vstd::arithmetic::div_mod::lemma_fundamental_div_mod(y, q);
    assert(u >= v) by (nonlinear_arith)
        requires
            x * q >= y * p,
            x < p * u + p,
            q * v <= y,
            p > 0,
            q > 0,
    {
        assert((q * v) * p <= y * p);
        assert(x * q < (p * u + p) * q);
        assert((p * q) * v < (p * q) * (u + 1));
    }
}

} // verus!
