//! Values, deltas and envelopes of performance counters.

use vstd::prelude::*;
use crate::cpu::types::CounterSeries;

verus! {

/// Where a binary search between `lo` and `hi` ends: the number of samples,
/// as far as it looks, at or before `cycle`.
pub open spec fn search(samples: Seq<(u32, u64)>, cycle: u32, lo: int, hi: int) -> int
    decreases hi - lo,
{
    if lo >= hi {
        lo
    } else {
        let mid = lo + (hi - lo) / 2;
        if samples[mid].0 <= cycle {
            search(samples, cycle, mid + 1, hi)
        } else {
            search(samples, cycle, lo, mid)
        }
    }
}

/// How many samples lie at or before a cycle.
pub open spec fn samples_until(samples: Seq<(u32, u64)>, cycle: u32) -> int {
    search(samples, cycle, 0, samples.len() as int)
}

/// Samples in the order of their cycles.
pub open spec fn in_order(samples: Seq<(u32, u64)>) -> bool {
    forall|i: int, j: int| 0 <= i <= j < samples.len() ==> samples[i].0 <= samples[j].0
}

proof fn lemma_search(samples: Seq<(u32, u64)>, cycle: u32, lo: int, hi: int)
    requires
        in_order(samples),
        0 <= lo <= hi <= samples.len(),
        forall|i: int| 0 <= i < lo ==> samples[i].0 <= cycle,
        forall|i: int| hi <= i < samples.len() ==> samples[i].0 > cycle,
    ensures
        lo <= search(samples, cycle, lo, hi) <= hi,
        forall|i: int|
            0 <= i < samples.len() ==> (samples[i].0 <= cycle <==> i < search(
                samples,
                cycle,
                lo,
                hi,
            )),
    decreases hi - lo,
{
    if lo < hi {
        let mid = lo + (hi - lo) / 2;
        if samples[mid].0 <= cycle {
            lemma_search(samples, cycle, mid + 1, hi);
        } else {
            lemma_search(samples, cycle, lo, mid);
        }
    }
}

/// Of samples in order, exactly the first `samples_until` lie at or before the
/// cycle.
pub proof fn law_samples_until(samples: Seq<(u32, u64)>, cycle: u32)
    requires
        in_order(samples),
    ensures
        0 <= samples_until(samples, cycle) <= samples.len(),
        forall|i: int|
            0 <= i < samples.len() ==> (samples[i].0 <= cycle <==> i < samples_until(
                samples,
                cycle,
            )),
{
    lemma_search(samples, cycle, 0, samples.len() as int);
}

/// The value of the last sample at or before a cycle, 0 where there is none.
pub open spec fn value_at(samples: Seq<(u32, u64)>, cycle: u32) -> u64 {
    let n = samples_until(samples, cycle);
    if n == 0 {
        0
    } else {
        samples[n - 1].1
    }
}

/// Counts the samples at or before a cycle.
fn count_until(samples: &Vec<(u32, u64)>, cycle: u32) -> (n: usize)
    ensures
        n == samples_until(samples@, cycle),
        n <= samples@.len(),
{
    let mut lo: usize = 0;
    let mut hi: usize = samples.len();
    while lo < hi
        invariant
            lo <= hi <= samples@.len(),
            samples_until(samples@, cycle) == search(samples@, cycle, lo as int, hi as int),
        decreases hi - lo,
    {
        let mid: usize = lo + (hi - lo) / 2;
        if samples[mid].0 <= cycle {
            lo = mid + 1;
        } else {
            hi = mid;
        }
    }
    lo
}

/// Get cumulative counter value at a cycle from sparse samples.
///
/// Uses binary search over sparse samples. Returns the value from the
/// sample at or just before the given cycle.
pub fn counter_value_at(series: &CounterSeries, cycle: u32) -> (v: u64)
    ensures
        v == value_at(series@.samples, cycle),
{
    let n: usize = count_until(&series.samples, cycle);
    if n == 0 {
        0
    } else {
        series.samples[n - 1].1
    }
}

/// By how much a counter grew over a window that ends at a cycle, and how long
/// the window is: it does not start before cycle 0.
pub open spec fn window_of(samples: Seq<(u32, u64)>, cycle: u32, window: u32) -> (u64, u32) {
    let start = if cycle >= window {
        (cycle - window) as u32
    } else {
        0
    };
    (
        value_at(samples, cycle).wrapping_sub(value_at(samples, start)),
        (cycle - start) as u32,
    )
}

/// Growth and length of a window that ends at a cycle. The rate is their
/// quotient.
pub fn counter_window(series: &CounterSeries, cycle: u32, window: u32) -> (r: (u64, u32))
    ensures
        r == window_of(series@.samples, cycle, window),
{
    let start: u32 = if cycle >= window {
        cycle - window
    } else {
        0
    };
    let end_val: u64 = counter_value_at(series, cycle);
    let start_val: u64 = counter_value_at(series, start);
    (end_val.wrapping_sub(start_val), cycle - start)
}

/// The rate per cycle between two samples, rounded down: 0 where they do not
/// lie apart.
pub open spec fn rate_between(a: (u32, u64), b: (u32, u64)) -> u64 {
    if b.0 <= a.0 {
        0
    } else {
        b.1.wrapping_sub(a.1) / ((b.0 - a.0) as u64)
    }
}

/// The rate per cycle around a cycle: between the samples on both sides of
/// it, or up to the sample at the cycle. Up to the first sample the counter
/// grows from 0, behind the last it does not grow.
pub open spec fn delta_at(samples: Seq<(u32, u64)>, cycle: u32) -> u64 {
    let n = samples_until(samples, cycle);
    if samples.len() == 0 {
        0
    } else if n == 0 {
        rate_between((0, 0), samples[0])
    } else if samples[n - 1].0 == cycle {
        if n == 1 {
            if samples[0].0 == 0 {
                samples[0].1
            } else {
                rate_between((0, 0), samples[0])
            }
        } else {
            rate_between(samples[n - 2], samples[n - 1])
        }
    } else if n >= samples.len() {
        0
    } else {
        rate_between(samples[n - 1], samples[n])
    }
}

/// The rate per cycle between two samples.
fn rate(a: (u32, u64), b: (u32, u64)) -> (r: u64)
    ensures
        r == rate_between(a, b),
{
    if b.0 <= a.0 {
        0
    } else {
        b.1.wrapping_sub(a.1) / (b.0 - a.0) as u64
    }
}

/// Get single-cycle delta for a counter.
///
/// With sparse samples, computes the interpolated per-cycle rate between
/// the two nearest samples surrounding the given cycle.
pub fn counter_delta_at(series: &CounterSeries, cycle: u32) -> (d: u64)
    ensures
        d == delta_at(series@.samples, cycle),
{
    let samples = &series.samples;
    if samples.len() == 0 {
        return 0;
    }
    let n: usize = count_until(samples, cycle);
    if n == 0 {
        return rate((0, 0), samples[0]);
    }
    if samples[n - 1].0 == cycle {
        if n == 1 {
            if samples[0].0 == 0 {
                return samples[0].1;
            }
            return rate((0, 0), samples[0]);
        }
        return rate(samples[n - 2], samples[n - 1]);
    }
    if n >= samples.len() {
        // After the last sample: assume the counter stops changing.
        return 0;
    }
    rate(samples[n - 1], samples[n])
}

// ---------------------------------------------------------------------------
// Envelopes.

/// A rate as a fraction.
#[derive(Debug, Clone, Copy, PartialEq, Eq, Structural)]
pub struct Rate {
    pub num: u64,
    pub den: u32,
}

impl Rate {
    /// Whether a rate is smaller than another.
    pub open spec fn less(self, other: Rate) -> bool {
        (self.num * other.den) < (other.num * self.den)
    }

    fn is_less(self, other: Rate) -> (b: bool)
        ensures
            b == self.less(other),
    {
        proof {
            lemma_product(self.num, other.den);
            lemma_product(other.num, self.den);
        }
        (self.num as u128 * other.den as u128) < (other.num as u128 * self.den as u128)
    }
}

proof fn lemma_product(a: u64, b: u32)
    ensures
        0 <= a as int * b as int <= 0xFFFF_FFFF_FFFF_FFFF * 0xFFFF_FFFF,
{
    assert(0 <= a as int * b as int <= 0xFFFF_FFFF_FFFF_FFFF * 0xFFFF_FFFF) by (nonlinear_arith)
        requires
            a <= 0xFFFF_FFFF_FFFF_FFFF,
            b <= 0xFFFF_FFFF,
    ;
}

/// A stretch of cycles in which a counter grows at one rate.
#[derive(Debug, Clone, Copy, PartialEq, Eq, Structural)]
pub struct Interval {
    pub start: u32,
    pub end: u32,
    pub rate: Rate,
}

/// The interval between two samples.
pub open spec fn interval_of(a: (u32, u64), b: (u32, u64)) -> Interval {
    Interval {
        start: a.0,
        end: b.0,
        rate: if b.0 > a.0 {
            Rate { num: b.1.wrapping_sub(a.1), den: (b.0 - a.0) as u32 }
        } else {
            Rate { num: 0, den: 1 }
        },
    }
}

/// The intervals between samples. Before the first sample the counter does not
/// grow.
pub open spec fn intervals_of(samples: Seq<(u32, u64)>) -> Seq<Interval> {
    let first = if samples.len() > 0 && samples[0].0 > 0 {
        seq![Interval { start: 0, end: samples[0].0, rate: Rate { num: 0, den: 1 } }]
    } else {
        Seq::empty()
    };
    first + Seq::new(
        if samples.len() > 0 {
            (samples.len() - 1) as nat
        } else {
            0
        },
        |i: int| interval_of(samples[i], samples[i + 1]),
    )
}

/// The smallest and the largest rate of the first `k` intervals among those
/// that overlap the cycles from `start` up to but not with `end`.
pub open spec fn envelope(intervals: Seq<Interval>, start: u32, end: u32, k: int) -> Option<
    (Rate, Rate),
>
    decreases k,
{
    if k <= 0 {
        None
    } else {
        let iv = intervals[k - 1];
        let before = envelope(intervals, start, end, k - 1);
        if iv.start < end && iv.end > start {
            match before {
                None => Some((iv.rate, iv.rate)),
                Some((lo, hi)) => Some(
                    (
                        if iv.rate.less(lo) {
                            iv.rate
                        } else {
                            lo
                        },
                        if hi.less(iv.rate) {
                            iv.rate
                        } else {
                            hi
                        },
                    ),
                ),
            }
        } else {
            before
        }
    }
}

/// A rate of zero.
pub open spec fn no_rate() -> Rate {
    Rate { num: 0, den: 1 }
}

/// Where bucket `b` of `n` buckets over the cycles from `start` up to but not
/// with `end` starts.
pub open spec fn bucket_edge(start: u32, end: u32, n: int, b: int) -> u32 {
    (start + b * (end - start) / n) as u32
}

/// The smallest and the largest rate in bucket `b`: zero where no interval
/// reaches it.
pub open spec fn bucket_rates(
    intervals: Seq<Interval>,
    start: u32,
    end: u32,
    n: int,
    b: int,
) -> (Rate, Rate) {
    match envelope(
        intervals,
        bucket_edge(start, end, n, b),
        bucket_edge(start, end, n, b + 1),
        intervals.len() as int,
    ) {
        Some(r) => r,
        None => (no_rate(), no_rate()),
    }
}

/// The largest rate of the first `k` buckets.
pub open spec fn top_rate(rates: Seq<(Rate, Rate)>, k: int) -> Rate
    decreases k,
{
    if k <= 0 {
        no_rate()
    } else {
        let before = top_rate(rates, k - 1);
        if before.less(rates[k - 1].1) {
            rates[k - 1].1
        } else {
            before
        }
    }
}

/// A rate in millionths of the largest, rounded down.
pub open spec fn scaled(r: Rate, top: Rate) -> u64 {
    if top.num == 0 {
        0
    } else {
        ((r.num as int * 1_000_000 * top.den as int) / (r.den as int * top.num as int)) as u64
    }
}

/// The envelope of a counter in `n` buckets: of each the smallest and the
/// largest rate, in millionths of the largest rate of all.
pub open spec fn downsampled(samples: Seq<(u32, u64)>, start: u32, end: u32, n: int) -> Seq<
    (u64, u64),
> {
    let intervals = intervals_of(samples);
    let rates = Seq::new(n as nat, |b: int| bucket_rates(intervals, start, end, n, b));
    let top = top_rate(rates, n);
    if n <= 0 || start >= end {
        Seq::empty()
    } else if samples.len() == 0 {
        Seq::new(n as nat, |b: int| (0u64, 0u64))
    } else {
        rates.map_values(|r: (Rate, Rate)| (scaled(r.0, top), scaled(r.1, top)))
    }
}

/// Finds the intervals between samples.
fn find_intervals(samples: &Vec<(u32, u64)>) -> (intervals: Vec<Interval>)
    ensures
        intervals@ == intervals_of(samples@),
        forall|i: int| 0 <= i < intervals@.len() ==> (#[trigger] intervals@[i]).rate.den > 0,
{
    let ghost want = intervals_of(samples@);
    let mut intervals: Vec<Interval> = Vec::new();
    if samples.len() == 0 {
        assert(intervals@ =~= want);
        return intervals;
    }
    if samples[0].0 > 0 {
        // No counter events fired before the first sample: the rate is 0.
        intervals.push(Interval { start: 0, end: samples[0].0, rate: Rate { num: 0, den: 1 } });
    }
    let ghost first = intervals@.len() as int;
    let mut i: usize = 1;
    while i < samples.len()
        invariant
            1 <= i <= samples@.len(),
            want == intervals_of(samples@),
            first == if samples@[0].0 > 0 {
                1int
            } else {
                0int
            },
            intervals@ == want.take(first + i - 1),
            forall|j: int| 0 <= j < intervals@.len() ==> (#[trigger] intervals@[j]).rate.den > 0,
        decreases samples@.len() - i,
    {
        let (c0, v0) = samples[i - 1];
        let (c1, v1) = samples[i];
        let rate: Rate = if c1 > c0 {
            Rate { num: v1.wrapping_sub(v0), den: c1 - c0 }
        } else {
            Rate { num: 0, den: 1 }
        };
        intervals.push(Interval { start: c0, end: c1, rate });
        assert(want[first + i - 1] == interval_of(samples@[i - 1], samples@[i as int]));
        i = i + 1;
        assert(intervals@ =~= want.take(first + i - 1));
    }
    assert(intervals@ =~= want);
    intervals
}

/// Finds the smallest and the largest rate of the intervals that overlap a
/// range of cycles.
fn find_envelope(intervals: &Vec<Interval>, start: u32, end: u32) -> (r: (Rate, Rate))
    requires
        forall|i: int| 0 <= i < intervals@.len() ==> (#[trigger] intervals@[i]).rate.den > 0,
    ensures
        r == match envelope(intervals@, start, end, intervals@.len() as int) {
            Some(x) => x,
            None => (no_rate(), no_rate()),
        },
        r.0.den > 0,
        r.1.den > 0,
{
    let mut lo: Rate = Rate { num: 0, den: 1 };
    let mut hi: Rate = Rate { num: 0, den: 1 };
    let mut found: bool = false;
    let mut i: usize = 0;
    while i < intervals.len()
        invariant
            i <= intervals@.len(),
            forall|j: int| 0 <= j < intervals@.len() ==> (#[trigger] intervals@[j]).rate.den > 0,
            match envelope(intervals@, start, end, i as int) {
                Some((a, b)) => found && lo == a && hi == b,
                None => !found && lo == no_rate() && hi == no_rate(),
            },
            lo.den > 0,
            hi.den > 0,
        decreases intervals@.len() - i,
    {
        let iv = intervals[i];
        if iv.start < end && iv.end > start {
            if !found {
                lo = iv.rate;
                hi = iv.rate;
                found = true;
            } else {
                if iv.rate.is_less(lo) {
                    lo = iv.rate;
                }
                if hi.is_less(iv.rate) {
                    hi = iv.rate;
                }
            }
        }
        i = i + 1;
    }
    (lo, hi)
}

/// The start of a bucket.
fn find_edge(start: u32, end: u32, n: usize, b: usize) -> (e: u32)
    requires
        start < end,
        b <= n,
        n > 0,
    ensures
        e == bucket_edge(start, end, n as int, b as int),
        start <= e <= end,
{
    let range: u32 = end - start;
    proof {
        assert(0 <= b * range <= 0xFFFF_FFFF_FFFF_FFFF * 0xFFFF_FFFF) by (nonlinear_arith)
            requires
                b <= 0xFFFF_FFFF_FFFF_FFFF,
                range <= 0xFFFF_FFFF,
        ;
        assert(0 <= (b * range) / (n as int) <= range) by (nonlinear_arith)
            requires
                0 <= b <= n,
                n > 0,
                range >= 0,
        ;
    }
    let offset: u128 = (b as u128 * range as u128) / n as u128;
    start + offset as u32
}

/// A rate in millionths of the largest.
fn scale(r: Rate, top: Rate) -> (v: u64)
    requires
        r.den > 0,
        top.den > 0,
    ensures
        v == scaled(r, top),
{
    if top.num == 0 {
        return 0;
    }
    proof {
        let a = r.num as int;
        let d = top.den as int;
        lemma_product(r.num, top.den);
        lemma_product(top.num, r.den);
        assert(a * 1_000_000 * d == (a * d) * 1_000_000) by (nonlinear_arith);
        assert(r.den as int * top.num as int == top.num as int * r.den as int)
            by (nonlinear_arith);
        assert(0 < r.den as int * top.num as int) by (nonlinear_arith)
            requires
                r.den > 0,
                top.num > 0,
        ;
    }
    let product: u128 = r.num as u128 * top.den as u128;
    let part: u128 = (product * 1_000_000) / (r.den as u128 * top.num as u128);
    #[verifier::truncate]
    let v: u64 = part as u64;
    v
}

/// Downsample a counter to min-max envelope buckets over a cycle range.
///
/// Returns `bucket_count` pairs of `(min_rate, max_rate)` covering
/// `[start_cycle, end_cycle)`. Each bucket reports the min and max
/// per-cycle rates among the sparse sample intervals that overlap
/// that bucket, scaled so that the largest rate of all is a million. Useful
/// for sparkline rendering where many cycles compress into one pixel.
pub fn counter_downsample_minmax(
    series: &CounterSeries,
    start_cycle: u32,
    end_cycle: u32,
    bucket_count: usize,
) -> (r: Vec<(u64, u64)>)
    ensures
        r@ == downsampled(series@.samples, start_cycle, end_cycle, bucket_count as int),
{
    let mut r: Vec<(u64, u64)> = Vec::new();
    let ghost n = bucket_count as int;
    if bucket_count == 0 || start_cycle >= end_cycle {
        assert(r@ =~= downsampled(series@.samples, start_cycle, end_cycle, n));
        return r;
    }
    let mut i: usize = 0;
    if series.samples.len() == 0 {
        while i < bucket_count
            invariant
                i <= bucket_count,
                r@ == Seq::new(i as nat, |b: int| (0u64, 0u64)),
            decreases bucket_count - i,
        {
            r.push((0, 0));
            i = i + 1;
            assert(r@ =~= Seq::new(i as nat, |b: int| (0u64, 0u64)));
        }
        return r;
    }
    let intervals = find_intervals(&series.samples);
    let ghost ivs = intervals_of(series@.samples);
    let ghost want = Seq::new(
        n as nat,
        |b: int| bucket_rates(ivs, start_cycle, end_cycle, n, b),
    );
    let mut rates: Vec<(Rate, Rate)> = Vec::new();
    let mut top: Rate = Rate { num: 0, den: 1 };
    let mut b: usize = 0;
    while b < bucket_count
        invariant
            b <= bucket_count,
            n == bucket_count,
            start_cycle < end_cycle,
            intervals@ == ivs,
            forall|j: int| 0 <= j < intervals@.len() ==> (#[trigger] intervals@[j]).rate.den > 0,
            want == Seq::new(
                n as nat,
                |b: int| bucket_rates(ivs, start_cycle, end_cycle, n, b),
            ),
            rates@ == want.take(b as int),
            top == top_rate(want, b as int),
            top.den > 0,
            forall|j: int|
                0 <= j < rates@.len() ==> (#[trigger] rates@[j]).0.den > 0 && rates@[j].1.den > 0,
        decreases bucket_count - b,
    {
        let from: u32 = find_edge(start_cycle, end_cycle, bucket_count, b);
        let to: u32 = find_edge(start_cycle, end_cycle, bucket_count, b + 1);
        let x = find_envelope(&intervals, from, to);
        assert(x == want[b as int]);
        if top.is_less(x.1) {
            top = x.1;
        }
        rates.push(x);
        b = b + 1;
        assert(rates@ =~= want.take(b as int));
    }
    assert(want.take(n) =~= want);
    let ghost all = want.map_values(|r: (Rate, Rate)| (scaled(r.0, top), scaled(r.1, top)));
    while i < bucket_count
        invariant
            i <= bucket_count,
            n == bucket_count,
            rates@ == want,
            want.len() == n,
            all == want.map_values(|r: (Rate, Rate)| (scaled(r.0, top), scaled(r.1, top))),
            top.den > 0,
            forall|j: int|
                0 <= j < rates@.len() ==> (#[trigger] rates@[j]).0.den > 0 && rates@[j].1.den > 0,
            r@ == all.take(i as int),
        decreases bucket_count - i,
    {
        let (lo, hi) = rates[i];
        assert(rates@[i as int].0.den > 0);
        r.push((scale(lo, top), scale(hi, top)));
        i = i + 1;
        assert(r@ =~= all.take(i as int));
    }
    assert(all.take(n) =~= all);
    r
}

// ---------------------------------------------------------------------------
// Laws of envelopes.

/// The order of rates is transitive.
proof fn lemma_rates(a: Rate, b: Rate, c: Rate)
    requires
        a.den > 0,
        b.den > 0,
        c.den > 0,
        !b.less(a),
        !c.less(b),
    ensures
        !c.less(a),
{
    let (x, p) = (a.num as int, a.den as int);
    let (y, q) = (b.num as int, b.den as int);
    let (z, r) = (c.num as int, c.den as int);
    assert(z * p >= x * r) by (nonlinear_arith)
        requires
            y * p >= x * q,
            z * q >= y * r,
            p > 0,
            q > 0,
            r > 0,
            x >= 0,
            y >= 0,
            z >= 0,
    {
        assert((y * p) * r >= (x * q) * r);
        assert((z * q) * p >= (y * r) * p);
        assert((z * p) * q >= (x * r) * q);
    }
}

proof fn lemma_envelope(intervals: Seq<Interval>, start: u32, end: u32, k: int)
    requires
        0 <= k <= intervals.len(),
        forall|i: int| 0 <= i < intervals.len() ==> (#[trigger] intervals[i]).rate.den > 0,
    ensures
        envelope(intervals, start, end, k) matches Some((lo, hi)) ==> lo.den > 0 && hi.den > 0
            && !hi.less(lo),
        forall|i: int|
            0 <= i < k && intervals[i].start < end && (#[trigger] intervals[i]).end > start
                ==> envelope(intervals, start, end, k) is Some && !intervals[i].rate.less(
                envelope(intervals, start, end, k)->Some_0.0,
            ) && !envelope(intervals, start, end, k)->Some_0.1.less(intervals[i].rate),
    decreases k,
{
    if k > 0 {
        lemma_envelope(intervals, start, end, k - 1);
        let iv = intervals[k - 1];
        let before = envelope(intervals, start, end, k - 1);
        if iv.start < end && iv.end > start {
            if let Some((lo, hi)) = before {
                let (a, b) = envelope(intervals, start, end, k)->Some_0;
                if iv.rate.less(lo) {
                    lemma_rates(a, lo, hi);
                }
                if hi.less(iv.rate) {
                    lemma_rates(lo, hi, b);
                }
                if iv.rate.less(lo) && hi.less(iv.rate) {
                    lemma_rates(a, lo, b);
                }
                assert forall|i: int|
                    0 <= i < k && intervals[i].start < end && (#[trigger] intervals[i]).end
                        > start implies !intervals[i].rate.less(a) && !b.less(
                    intervals[i].rate,
                ) by {
                    if i < k - 1 {
                        if iv.rate.less(lo) {
                            lemma_rates(a, lo, intervals[i].rate);
                        }
                        if hi.less(iv.rate) {
                            lemma_rates(intervals[i].rate, hi, b);
                        }
                    }
                }
            }
        }
    }
}

/// No rate of the first buckets is larger than the largest.
proof fn lemma_top(rates: Seq<(Rate, Rate)>, k: int)
    requires
        0 <= k <= rates.len(),
        forall|i: int| 0 <= i < rates.len() ==> (#[trigger] rates[i]).1.den > 0,
    ensures
        top_rate(rates, k).den > 0,
        forall|i: int| 0 <= i < k ==> !top_rate(rates, k).less((#[trigger] rates[i]).1),
    decreases k,
{
    if k > 0 {
        lemma_top(rates, k - 1);
        let before = top_rate(rates, k - 1);
        let now = top_rate(rates, k);
        assert forall|i: int| 0 <= i < k implies !now.less((#[trigger] rates[i]).1) by {
            if i < k - 1 && before.less(rates[k - 1].1) {
                lemma_rates(rates[i].1, before, now);
            }
        }
    }
}

/// A quotient is not less than a number whose multiple it covers.
proof fn lemma_at_least(a: int, b: int, q: int)
    requires
        b > 0,
        q * b <= a,
    ensures
        q <= a / b,
{
    vstd::arithmetic::div_mod::lemma_fundamental_div_mod(a, b);
    let d = a / b;
    assert(q <= d) by (nonlinear_arith)
        requires
            q * b <= a,
            a < b * d + b,
            b > 0,
    ;
}

/// Scaling keeps the order of rates, and none is above a million.
proof fn lemma_scaled(lo: Rate, hi: Rate, top: Rate)
    requires
        lo.den > 0,
        hi.den > 0,
        top.den > 0,
        !hi.less(lo),
        !top.less(hi),
    ensures
        scaled(lo, top) <= scaled(hi, top) <= 1_000_000,
{
    if top.num > 0 {
        let t = top.num as int;
        let c = 1_000_000 * top.den as int;
        let (x, p) = (lo.num as int, lo.den as int);
        let (y, r) = (hi.num as int, hi.den as int);
        let a1 = x * 1_000_000 * top.den as int;
        let a2 = y * 1_000_000 * top.den as int;
        let b1 = p * t;
        let b2 = r * t;
        assert(a1 == x * c) by (nonlinear_arith)
            requires
                a1 == x * 1_000_000 * top.den as int,
                c == 1_000_000 * top.den as int,
        ;
        assert(a2 == y * c) by (nonlinear_arith)
            requires
                a2 == y * 1_000_000 * top.den as int,
                c == 1_000_000 * top.den as int,
        ;
        assert(b1 > 0 && b2 > 0) by (nonlinear_arith)
            requires
                b1 == p * t,
                b2 == r * t,
                p > 0,
                r > 0,
                t > 0,
        ;
        assert(a1 >= 0 && a2 >= 0) by (nonlinear_arith)
            requires
                a1 == x * c,
                a2 == y * c,
                x >= 0,
                y >= 0,
                c > 0,
        ;
        let q1 = a1 / b1;
        let q2 = a2 / b2;
        vstd::arithmetic::div_mod::lemma_fundamental_div_mod(a1, b1);
        vstd::arithmetic::div_mod::lemma_fundamental_div_mod(a2, b2);
        assert(q1 >= 0 && q2 >= 0) by (nonlinear_arith)
            requires
                a1 >= 0,
                a2 >= 0,
                b1 > 0,
                b2 > 0,
                q1 == a1 / b1,
                q2 == a2 / b2,
        ;
        assert(q1 * b2 <= a2) by (nonlinear_arith)
            requires
                b1 * q1 <= a1,
                a1 == x * c,
                a2 == y * c,
                b1 == p * t,
                b2 == r * t,
                y * p >= x * r,
                p > 0,
                r > 0,
                c > 0,
                q1 >= 0,
        {
            assert((b1 * q1) * r <= (x * c) * r);
            assert((x * r) * c <= (y * p) * c);
            assert((q1 * b2) * p == (b1 * q1) * r);
            assert((q1 * b2) * p <= a2 * p);
        }
        lemma_at_least(a2, b2, q1);
        assert(q2 <= 1_000_000) by (nonlinear_arith)
            requires
                b2 * q2 <= a2,
                a2 == y * c,
                b2 == r * t,
                c == 1_000_000 * top.den as int,
                t * r >= y * top.den as int,
                r > 0,
                t > 0,
        {
            assert(y * c <= 1_000_000 * (r * t));
            assert((r * t) * q2 <= (r * t) * 1_000_000);
        }
    }
}

/// In every bucket of an envelope the smallest rate is not above the largest,
/// and none is above a million.
pub proof fn law_envelope_ordered(samples: Seq<(u32, u64)>, start: u32, end: u32, n: int, b: int)
    requires
        0 <= b < n,
        start < end,
    ensures
        downsampled(samples, start, end, n).len() == n,
        downsampled(samples, start, end, n)[b].0 <= downsampled(samples, start, end, n)[b].1
            <= 1_000_000,
{
    let intervals = intervals_of(samples);
    let rates = Seq::new(n as nat, |b: int| bucket_rates(intervals, start, end, n, b));
    if samples.len() > 0 {
        assert forall|i: int| 0 <= i < intervals.len() implies (
        #[trigger] intervals[i]).rate.den > 0 by {}
        assert forall|i: int| 0 <= i < rates.len() implies (#[trigger] rates[i]).0.den > 0
            && rates[i].1.den > 0 && !rates[i].1.less(rates[i].0) by {
            lemma_envelope(
                intervals,
                bucket_edge(start, end, n, i),
                bucket_edge(start, end, n, i + 1),
                intervals.len() as int,
            );
        }
        lemma_top(rates, n);
        lemma_scaled(rates[b].0, rates[b].1, top_rate(rates, n));
    }
}

// ---------------------------------------------------------------------------
// What values, windows, rates and envelopes say of the samples.

/// The value at a cycle is that of the last sample at or before it: 0 where all
/// samples lie behind it.
pub proof fn law_value_at(samples: Seq<(u32, u64)>, cycle: u32)
    requires
        in_order(samples),
    ensures
        (forall|i: int| 0 <= i < samples.len() ==> (#[trigger] samples[i]).0 > cycle) ==> value_at(
            samples,
            cycle,
        ) == 0,
        forall|i: int|
            0 <= i < samples.len() && (#[trigger] samples[i]).0 <= cycle && (i + 1 == samples.len()
                || samples[i + 1].0 > cycle) ==> value_at(samples, cycle) == samples[i].1,
{
    law_samples_until(samples, cycle);
    let n = samples_until(samples, cycle);
    if n > 0 {
        assert(samples[n - 1].0 <= cycle);
    }
}

/// A window that ends at a cycle is as long as was asked for, or as long as
/// there are cycles before it; what the counter had at its start and what it
/// grew by make what it has at the cycle, modulo 2^64.
pub proof fn law_window(samples: Seq<(u32, u64)>, cycle: u32, window: u32)
    ensures
        ({
            let (growth, length) = window_of(samples, cycle, window);
            &&& length <= window
            &&& length <= cycle
            &&& length == window || length == cycle
            &&& (value_at(samples, (cycle - length) as u32) + growth) % 0x1_0000_0000_0000_0000
                == value_at(samples, cycle)
        }),
{
}

/// Whether a rate, over the cycles between them, makes up the growth from one
/// sample to a later one, modulo 2^64, but for less than one a cycle.
pub open spec fn paces(rate: u64, a: (u32, u64), b: (u32, u64)) -> bool {
    let growth = (b.1 - a.1) % 0x1_0000_0000_0000_0000;
    let gap = b.0 - a.0;
    gap > 0 && rate * gap <= growth < rate * gap + gap
}

proof fn lemma_paces(a: (u32, u64), b: (u32, u64))
    requires
        a.0 < b.0,
    ensures
        paces(rate_between(a, b), a, b),
{
    let growth = b.1.wrapping_sub(a.1);
    let gap = (b.0 - a.0) as u64;
    assert(growth == (b.1 - a.1) % 0x1_0000_0000_0000_0000);
    vstd::arithmetic::div_mod::lemma_fundamental_div_mod(growth as int, gap as int);
    let q = growth / gap;
    assert(q * gap == gap * q) by (nonlinear_arith);
}

/// The rate around a cycle is that between the samples on both sides of it, at
/// a sample that between it and the sample before. Before the first sample and
/// at it the counter grows from 0 at cycle 0, behind the last it does not grow.
pub proof fn law_delta_at(samples: Seq<(u32, u64)>, cycle: u32)
    requires
        in_order(samples),
    ensures
        forall|i: int|
            0 <= i < samples.len() - 1 && (#[trigger] samples[i]).0 < cycle < samples[i + 1].0
                ==> paces(delta_at(samples, cycle), samples[i], samples[i + 1]),
        forall|i: int|
            0 <= i < samples.len() - 1 && (#[trigger] samples[i]).0 < cycle == samples[i + 1].0 && (
            i + 2 == samples.len() || samples[i + 2].0 > cycle) ==> paces(
                delta_at(samples, cycle),
                samples[i],
                samples[i + 1],
            ),
        samples.len() > 0 && samples.last().0 < cycle ==> delta_at(samples, cycle) == 0,
        samples.len() > 0 && cycle < samples[0].0 ==> paces(
            delta_at(samples, cycle),
            (0, 0),
            samples[0],
        ),
        samples.len() > 0 && 0 < cycle == samples[0].0 && (samples.len() == 1 || samples[1].0
            > cycle) ==> paces(delta_at(samples, cycle), (0, 0), samples[0]),
        samples.len() == 0 ==> delta_at(samples, cycle) == 0,
{
    law_samples_until(samples, cycle);
    let n = samples_until(samples, cycle);
    assert forall|i: int|
        0 <= i < samples.len() - 1 && (#[trigger] samples[i]).0 < cycle
            < samples[i + 1].0 implies paces(
        delta_at(samples, cycle),
        samples[i],
        samples[i + 1],
    ) by {
        assert(n == i + 1);
        lemma_paces(samples[i], samples[i + 1]);
    }
    assert forall|i: int|
        0 <= i < samples.len() - 1 && (#[trigger] samples[i]).0 < cycle == samples[i + 1].0 && (i
            + 2 == samples.len() || samples[i + 2].0 > cycle) implies paces(
        delta_at(samples, cycle),
        samples[i],
        samples[i + 1],
    ) by {
        assert(samples[i + 1].0 <= cycle);
        assert(n == i + 2);
        lemma_paces(samples[i], samples[i + 1]);
    }
    if samples.len() > 0 {
        assert(samples[0].0 <= cycle <==> 0 < n);
        assert(samples[samples.len() - 1].0 <= cycle <==> samples.len() - 1 < n);
        if samples[0].0 > 0 {
            lemma_paces((0, 0), samples[0]);
        }
        if 0 < cycle == samples[0].0 && (samples.len() == 1 || samples[1].0 > cycle) {
            assert(n == 1);
        }
    }
}

/// The edges of the buckets of a range go from its start to its end without a
/// step back, and each is where it is if all buckets are equally wide, rounded
/// down to a cycle.
pub proof fn law_bucket_edges(start: u32, end: u32, n: int, b: int)
    requires
        start < end,
        0 <= b < n,
    ensures
        bucket_edge(start, end, n, 0) == start,
        bucket_edge(start, end, n, n) == end,
        start <= bucket_edge(start, end, n, b) <= bucket_edge(start, end, n, b + 1) <= end,
        n * (bucket_edge(start, end, n, b) - start) <= b * (end - start) < n * (bucket_edge(
            start,
            end,
            n,
            b,
        ) - start) + n,
{
    let range = end - start;
    let q = b * range / n;
    let r = (b + 1) * range / n;
    vstd::arithmetic::div_mod::lemma_fundamental_div_mod(b * range, n);
    vstd::arithmetic::div_mod::lemma_fundamental_div_mod((b + 1) * range, n);
    assert(0 * range / n == 0) by (nonlinear_arith)
        requires
            n > 0,
    ;
    assert(n * range / n == range) by (nonlinear_arith)
        requires
            n > 0,
    ;
    assert(0 <= q <= r <= range) by (nonlinear_arith)
        requires
            q == b * range / n,
            r == (b + 1) * range / n,
            0 <= b < n,
            range > 0,
    ;
}

/// Whether an interval overlaps the cycles from `start` up to but not with
/// `end`.
pub open spec fn touches(iv: Interval, start: u32, end: u32) -> bool {
    iv.start < end && iv.end > start
}

/// The rates of a bucket bound the rates of all intervals that overlap it, and
/// each is the rate of one of them. Where none overlaps it both are zero.
pub proof fn law_bucket_rates(
    samples: Seq<(u32, u64)>,
    start: u32,
    end: u32,
    n: int,
    b: int,
)
    ensures
        ({
            let ivs = intervals_of(samples);
            let (from, to) = (bucket_edge(start, end, n, b), bucket_edge(start, end, n, b + 1));
            let (lo, hi) = bucket_rates(ivs, start, end, n, b);
            &&& forall|i: int|
                0 <= i < ivs.len() && #[trigger] touches(ivs[i], from, to) ==> !ivs[i].rate.less(lo)
                    && !hi.less(ivs[i].rate)
            &&& (exists|i: int| 0 <= i < ivs.len() && #[trigger] touches(ivs[i], from, to)) ==> (
            exists|i: int|
                0 <= i < ivs.len() && #[trigger] touches(ivs[i], from, to) && ivs[i].rate == lo) && (
            exists|i: int|
                0 <= i < ivs.len() && #[trigger] touches(ivs[i], from, to) && ivs[i].rate == hi)
            &&& (forall|i: int| 0 <= i < ivs.len() ==> !#[trigger] touches(ivs[i], from, to))
                ==> lo.num == 0 && hi.num == 0
        }),
{
    let ivs = intervals_of(samples);
    let (from, to) = (bucket_edge(start, end, n, b), bucket_edge(start, end, n, b + 1));
    assert forall|i: int| 0 <= i < ivs.len() implies (#[trigger] ivs[i]).rate.den > 0 by {}
    lemma_envelope(ivs, from, to, ivs.len() as int);
    lemma_envelope_found(ivs, from, to, ivs.len() as int);
}

proof fn lemma_envelope_found(ivs: Seq<Interval>, from: u32, to: u32, k: int)
    requires
        0 <= k <= ivs.len(),
    ensures
        match envelope(ivs, from, to, k) {
            Some((lo, hi)) => {
                &&& exists|i: int|
                    0 <= i < k && #[trigger] touches(ivs[i], from, to) && ivs[i].rate == lo
                &&& exists|i: int|
                    0 <= i < k && #[trigger] touches(ivs[i], from, to) && ivs[i].rate == hi
            },
            None => forall|i: int| 0 <= i < k ==> !#[trigger] touches(ivs[i], from, to),
        },
    decreases k,
{
    if k > 0 {
        lemma_envelope_found(ivs, from, to, k - 1);
        if touches(ivs[k - 1], from, to) {
            assert(ivs[k - 1].rate == ivs[k - 1].rate);
        }
        if let Some((lo, hi)) = envelope(ivs, from, to, k - 1) {
            let x = choose|i: int|
                0 <= i < k - 1 && #[trigger] touches(ivs[i], from, to) && ivs[i].rate == lo;
            let y = choose|i: int|
                0 <= i < k - 1 && #[trigger] touches(ivs[i], from, to) && ivs[i].rate == hi;
            assert(touches(ivs[x], from, to) && touches(ivs[y], from, to));
        }
    }
}

/// Between two samples that lie apart there is an interval, with the growth
/// from one to the other, modulo 2^64, over the cycles between them; before the
/// first sample there is one without growth.
pub proof fn law_intervals(samples: Seq<(u32, u64)>, i: int)
    requires
        0 <= i < samples.len() - 1,
        samples[i].0 < samples[i + 1].0,
    ensures
        ({
            let ivs = intervals_of(samples);
            let k = if samples[0].0 > 0 {
                i + 1
            } else {
                i
            };
            &&& 0 <= k < ivs.len()
            &&& ivs[k].start == samples[i].0
            &&& ivs[k].end == samples[i + 1].0
            &&& ivs[k].rate.den == samples[i + 1].0 - samples[i].0
            &&& (samples[i].1 + ivs[k].rate.num) % 0x1_0000_0000_0000_0000 == samples[i + 1].1
            &&& samples[0].0 > 0 ==> ivs[0].start == 0 && ivs[0].end == samples[0].0
                && ivs[0].rate.num == 0
        }),
{
    let ivs = intervals_of(samples);
    if samples[0].0 > 0 {
        assert(ivs[i + 1] == interval_of(samples[i], samples[i + 1]));
    } else {
        assert(ivs[i] == interval_of(samples[i], samples[i + 1]));
    }
}

/// A rate is shown in millionths of the largest, rounded down: the largest as
/// a million, and one of zero as zero.
pub proof fn law_scaled(r: Rate, top: Rate)
    requires
        r.den > 0,
        top.den > 0,
        top.num > 0,
        !top.less(r),
    ensures
        scaled(r, top) <= 1_000_000,
        scaled(r, top) * (r.den * top.num) <= 1_000_000 * (r.num * top.den) < scaled(r, top) * (
        r.den * top.num) + r.den * top.num,
        scaled(top, top) == 1_000_000,
        r.num == 0 ==> scaled(r, top) == 0,
{
    lemma_scaled(r, r, top);
    lemma_scaled(top, top, top);
    lemma_scaled_value(r, top);
    lemma_scaled_value(top, top);
    let m = top.den * top.num;
    let v = scaled(top, top) as int;
    assert(m > 0) by (nonlinear_arith)
        requires
            m == top.den * top.num,
            top.den > 0,
            top.num > 0,
    ;
    assert(top.num * top.den == m) by (nonlinear_arith)
        requires
            m == top.den * top.num,
    ;
    assert(v >= 1_000_000) by (nonlinear_arith)
        requires
            1_000_000 * m < v * m + m,
            m > 0,
    ;
    if r.num == 0 {
        let w = scaled(r, top) as int;
        let d = r.den * top.num;
        assert(r.num * top.den == 0) by (nonlinear_arith)
            requires
                r.num == 0,
        ;
        assert(w == 0) by (nonlinear_arith)
            requires
                w * d <= 0,
                d > 0,
                w >= 0,
        ;
    }
}

proof fn lemma_scaled_value(r: Rate, top: Rate)
    requires
        r.den > 0,
        top.den > 0,
        top.num > 0,
        !top.less(r),
    ensures
        r.den * top.num > 0,
        scaled(r, top) * (r.den * top.num) <= 1_000_000 * (r.num * top.den) < scaled(r, top) * (
        r.den * top.num) + r.den * top.num,
{
    let a = r.num as int * 1_000_000 * top.den as int;
    let d = r.den as int * top.num as int;
    let q = a / d;
    assert(d > 0) by (nonlinear_arith)
        requires
            d == r.den as int * top.num as int,
            r.den > 0,
            top.num > 0,
    ;
    assert(a == 1_000_000 * (r.num * top.den)) by (nonlinear_arith)
        requires
            a == r.num as int * 1_000_000 * top.den as int,
    ;
    vstd::arithmetic::div_mod::lemma_fundamental_div_mod(a, d);
    assert(d * q == q * d) by (nonlinear_arith);
    let t = top.num as int * r.den as int;
    assert(0 <= q <= 1_000_000) by (nonlinear_arith)
        requires
            q * d <= a,
            a < q * d + d,
            a == 1_000_000 * (r.num * top.den),
            d == r.den as int * top.num as int,
            t == top.num as int * r.den as int,
            t >= r.num * top.den,
            r.num >= 0,
            top.den > 0,
            d > 0,
    {
        assert(r.num * top.den >= 0);
        assert(a <= 1_000_000 * d);
        assert(q * d <= 1_000_000 * d);
        assert(q >= 0) by {
            assert(0 <= a);
            assert(0 < q * d + d);
        }
    }
}

} // verus!
