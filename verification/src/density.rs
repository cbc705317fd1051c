//! From rows to cycles and back, by the level-0 buckets of a summary.

use vstd::prelude::*;
use crate::mipmap::{counts, entry_sums, lemma_total_part, lemma_total_push, total};
use crate::summary::{MipmapEntry, SummaryView, TraceSummary};
use crate::types::lemma_views_self;


verus! {

/// How many instructions lie before bucket `b`.
pub open spec fn rows_before(level: Seq<u32>, b: int) -> nat {
    total(counts(level).take(b))
}

/// The first bucket from `from` on whose instructions reach beyond `row`: the
/// number of buckets where there is none.
pub open spec fn bucket_of_row(level: Seq<u32>, row: int, from: int) -> int
    decreases level.len() - from,
{
    if from >= level.len() {
        level.len() as int
    } else if rows_before(level, from + 1) > row {
        from
    } else {
        bucket_of_row(level, row, from + 1)
    }
}

/// The bucket of a row holds it: fewer rows lie before the bucket than up to
/// and with the row, and more before the next. A row behind all has no bucket.
pub proof fn law_bucket_of_row(level: Seq<u32>, row: int)
    requires
        row >= 0,
    ensures
        0 <= bucket_of_row(level, row, 0) <= level.len(),
        rows_before(level, bucket_of_row(level, row, 0)) <= row,
        bucket_of_row(level, row, 0) < level.len() ==> row < rows_before(
            level,
            bucket_of_row(level, row, 0) + 1,
        ),
{
    assert(counts(level).take(0) =~= Seq::<nat>::empty());
    lemma_bucket_of_row(level, row, 0);
}

proof fn lemma_bucket_of_row(level: Seq<u32>, row: int, from: int)
    requires
        0 <= from <= level.len(),
        rows_before(level, from) <= row,
    ensures
        from <= bucket_of_row(level, row, from) <= level.len(),
        rows_before(level, bucket_of_row(level, row, from)) <= row,
        bucket_of_row(level, row, from) < level.len() ==> row < rows_before(
            level,
            bucket_of_row(level, row, from) + 1,
        ),
    decreases level.len() - from,
{
    if from < level.len() && rows_before(level, from + 1) <= row {
        lemma_bucket_of_row(level, row, from + 1);
    }
}

/// The number before bucket `target`, and the part of the number in that
/// bucket that lies before the cycle.
pub open spec fn interpolated(numbers: Seq<nat>, cycle: u32, base: u32) -> nat {
    let target = cycle / base;
    if target < numbers.len() {
        total(numbers.take(target as int)) + (cycle % base) as nat * numbers[target as int]
            / base as nat
    } else {
        total(numbers)
    }
}

impl SummaryView {
    /// The cycle at which the bucket of a row starts.
    pub open spec fn cycle_of_row(self, row: int) -> int {
        if self.instruction_density.len() == 0 {
            0
        } else {
            bucket_of_row(self.instruction_density[0], row, 0) * self.base_interval_cycles
        }
    }

    /// How many instructions there are before a cycle, as far as the level-0
    /// buckets tell.
    pub open spec fn row_of_cycle(self, cycle: u32) -> nat {
        if self.instruction_density.len() == 0 {
            0
        } else {
            interpolated(
                counts(self.instruction_density[0]),
                cycle,
                self.base_interval_cycles,
            )
        }
    }

    /// How much a counter has grown before a cycle, as far as the level-0
    /// buckets tell.
    pub open spec fn counter_at(self, counter: int, cycle: u32) -> nat {
        if counter >= self.counters.len() || self.counters[counter].levels.len() == 0 {
            0
        } else {
            interpolated(
                entry_sums(self.counters[counter].levels[0]),
                cycle,
                self.base_interval_cycles,
            )
        }
    }
}

/// The part `n * d / base`, which is less than `n` for `d` below `base`.
fn part(n: u64, d: u32, base: u32) -> (r: u64)
    requires
        d < base,
    ensures
        r == d as nat * n as nat / base as nat,
        r <= n,
{
    proof {
        assert(d as nat * n as nat <= 0xFFFF_FFFF * 0xFFFF_FFFF_FFFF_FFFF) by (nonlinear_arith)
            requires
                d <= 0xFFFF_FFFF,
                n <= 0xFFFF_FFFF_FFFF_FFFF,
        ;
        assert(d as nat * n as nat / base as nat <= n) by (nonlinear_arith)
            requires
                d < base,
        ;
    }
    let product: u128 = d as u128 * n as u128;
    let r: u128 = product / base as u128;
    r as u64
}

impl TraceSummary {
    /// Find the approximate cycle for a global instruction row index: the
    /// start of the level-0 bucket that holds it.
    pub fn row_to_cycle(&self, row: usize) -> (cycle: u32)
        requires
            self@.cycle_of_row(row as int) <= u32::MAX,
        ensures
            cycle == self@.cycle_of_row(row as int),
    {
        if self.instruction_density.len() == 0 {
            return 0;
        }
        let level0 = &self.instruction_density[0];
        let base: u32 = self.base_interval_cycles;
        let n: usize = level0.len();
        proof {
            lemma_views_self(level0@);
            assert(self@.instruction_density[0] == level0@);
            assert(counts(level0@).take(0) =~= Seq::<nat>::empty());
        }
        let mut cumulative: u64 = 0;
        let mut bucket: usize = 0;
        let goal: u64 = row as u64;
        while bucket < n && level0[bucket] as u64 <= goal - cumulative
            invariant
                n == level0@.len(),
                bucket <= n,
                goal == row,
                cumulative <= goal,
                cumulative == rows_before(level0@, bucket as int),
                bucket_of_row(level0@, row as int, 0) == bucket_of_row(
                    level0@,
                    row as int,
                    bucket as int,
                ),
            decreases n - bucket,
        {
            proof {
                lemma_total_push(counts(level0@), bucket as int);
            }
            cumulative = cumulative + level0[bucket] as u64;
            bucket = bucket + 1;
        }
        proof {
            if bucket < n {
                lemma_total_push(counts(level0@), bucket as int);
            }
            assert(bucket_of_row(level0@, row as int, 0) == bucket);
        }
        if base == 0 {
            assert(bucket * base == 0) by (nonlinear_arith)
                requires
                    base == 0,
            ;
            return 0;
        }
        proof {
            assert(bucket <= bucket * base) by (nonlinear_arith)
                requires
                    base > 0,
            ;
        }
        bucket as u32 * base
    }

    /// Find the approximate global instruction index for a given cycle.
    /// Inverse of `row_to_cycle`: sums instruction counts in density buckets
    /// up to the one with the cycle, and interpolates within that one,
    /// rounding down.
    pub fn cycle_to_row(&self, cycle: u32) -> (row: usize)
        requires
            self@.instruction_density.len() > 0 ==> self.base_interval_cycles > 0,
            self@.row_of_cycle(cycle) <= usize::MAX,
        ensures
            row == self@.row_of_cycle(cycle),
    {
        if self.instruction_density.len() == 0 {
            return 0;
        }
        let level0 = &self.instruction_density[0];
        let base: u32 = self.base_interval_cycles;
        let target: usize = (cycle / base) as usize;
        let n: usize = level0.len();
        let stop: usize = if target < n {
            target
        } else {
            n
        };
        let ghost numbers = counts(level0@);
        proof {
            lemma_views_self(level0@);
            assert(self@.instruction_density[0] == level0@);
            assert(numbers.take(0) =~= Seq::<nat>::empty());
            assert(numbers.take(n as int) =~= numbers);
        }
        let mut cumulative: usize = 0;
        let mut bucket: usize = 0;
        while bucket < stop
            invariant
                bucket <= stop <= n,
                n == level0@.len(),
                numbers == counts(level0@),
                total(numbers.take(stop as int)) <= usize::MAX,
                cumulative == total(numbers.take(bucket as int)),
            decreases stop - bucket,
        {
            proof {
                lemma_total_push(numbers, bucket as int);
                lemma_total_part(numbers.take(stop as int), 0, bucket + 1);
                assert(numbers.take(stop as int).subrange(0, bucket + 1) =~= numbers.take(
                    bucket + 1,
                ));
            }
            cumulative = cumulative + level0[bucket] as usize;
            bucket = bucket + 1;
        }
        if target < n {
            let offset: u64 = part(level0[target] as u64, cycle % base, base);
            cumulative + offset as usize
        } else {
            cumulative
        }
    }

    /// Get the approximate cumulative counter value at a given cycle: the
    /// sums of the level-0 buckets before it, and the part of the one that
    /// holds it, rounding down.
    pub fn counter_value_at(&self, counter_idx: usize, cycle: u32) -> (value: u64)
        requires
            self@.known_at(counter_idx as int, cycle),
        ensures
            value == self@.counter_at(counter_idx as int, cycle),
    {
        if counter_idx >= self.counters.len() {
            return 0;
        }
        let mipmap = &self.counters[counter_idx];
        assert(self@.counters[counter_idx as int] == mipmap@);
        if mipmap.levels.len() == 0 {
            return 0;
        }
        let level0 = &mipmap.levels[0];
        let base: u32 = self.base_interval_cycles;
        let target: usize = (cycle / base) as usize;
        let n: usize = level0.len();
        let stop: usize = if target < n {
            target
        } else {
            n
        };
        let ghost numbers = entry_sums(level0@);
        proof {
            lemma_views_self(level0@);
            assert(mipmap@.levels[0] == level0@);
            assert(numbers.take(0) =~= Seq::<nat>::empty());
            assert(numbers.take(n as int) =~= numbers);
        }
        let mut cumulative: u64 = 0;
        let mut bucket: usize = 0;
        while bucket < stop
            invariant
                bucket <= stop <= n,
                n == level0@.len(),
                numbers == entry_sums(level0@),
                total(numbers.take(stop as int)) <= u64::MAX,
                cumulative == total(numbers.take(bucket as int)),
            decreases stop - bucket,
        {
            proof {
                lemma_total_push(numbers, bucket as int);
                lemma_total_part(numbers.take(stop as int), 0, bucket + 1);
                assert(numbers.take(stop as int).subrange(0, bucket + 1) =~= numbers.take(
                    bucket + 1,
                ));
            }
            cumulative = cumulative + level0[bucket].sum;
            bucket = bucket + 1;
        }
        if target < n {
            cumulative + part(level0[target].sum, cycle % base, base)
        } else {
            cumulative
        }
    }
}

// ---------------------------------------------------------------------------
// Summaries that can be looked up.

impl SummaryView {
    /// Whether the value of a counter at a cycle can be looked up: where the
    /// counter has levels, buckets have a width, and the value fits.
    pub open spec fn known_at(self, counter: int, cycle: u32) -> bool {
        &&& counter < self.counters.len() && self.counters[counter].levels.len() > 0
            ==> self.base_interval_cycles > 0
        &&& self.counter_at(counter, cycle) <= u64::MAX
    }

    /// Whether a counter can be looked up at any cycle: where it has levels,
    /// buckets have a width and nothing adds up to too much.
    pub open spec fn counter_readable(self, counter: int) -> bool {
        counter < self.counters.len() && self.counters[counter].levels.len() > 0 ==> {
            &&& self.base_interval_cycles > 0
            &&& total(entry_sums(self.counters[counter].levels[0])) <= u64::MAX
        }
    }

    /// Whether every counter can be looked up at any cycle.
    pub open spec fn readable(self) -> bool {
        forall|c: int| 0 <= c < self.counters.len() ==> #[trigger] self.counter_readable(c)
    }
}

/// A counter that can be looked up at any cycle can be looked up at each.
pub proof fn law_known_at(s: SummaryView, counter: int, cycle: u32)
    requires
        s.counter_readable(counter),
        0 <= counter,
    ensures
        s.known_at(counter, cycle),
{
    if counter < s.counters.len() && s.counters[counter].levels.len() > 0 {
        lemma_interpolated_within(
            entry_sums(s.counters[counter].levels[0]),
            cycle,
            s.base_interval_cycles,
        );
    }
}

/// What lies before a cycle is part of the whole.
pub proof fn lemma_interpolated_within(numbers: Seq<nat>, cycle: u32, base: u32)
    requires
        base > 0,
    ensures
        interpolated(numbers, cycle, base) <= total(numbers),
{
    let target = (cycle / base) as int;
    if target < numbers.len() {
        let n = numbers[target];
        let d = (cycle % base) as nat;
        assert(d * n / base as nat <= n) by (nonlinear_arith)
            requires
                d < base,
        ;
        lemma_total_push(numbers, target);
        lemma_total_part(numbers, 0, target + 1);
        assert(numbers.subrange(0, target + 1) =~= numbers.take(target + 1));
    }
}

impl TraceSummary {
    /// Whether a counter can be looked up at any cycle.
    pub fn is_counter_readable(&self, counter_idx: usize) -> (b: bool)
        ensures
            b == self@.counter_readable(counter_idx as int),
    {
        if counter_idx >= self.counters.len() {
            return true;
        }
        let mipmap = &self.counters[counter_idx];
        assert(self@.counters[counter_idx as int] == mipmap@);
        if mipmap.levels.len() == 0 {
            return true;
        }
        let level0 = &mipmap.levels[0];
        proof {
            lemma_views_self(level0@);
            assert(mipmap@.levels[0] == level0@);
        }
        self.base_interval_cycles > 0 && adds_up(level0)
    }

    /// Whether every counter can be looked up at any cycle.
    pub fn is_readable(&self) -> (b: bool)
        ensures
            b == self@.readable(),
    {
        let mut c: usize = 0;
        while c < self.counters.len()
            invariant
                c <= self.counters@.len(),
                self@.counters.len() == self.counters@.len(),
                forall|k: int| 0 <= k < c ==> #[trigger] self@.counter_readable(k),
            decreases self.counters@.len() - c,
        {
            if !self.is_counter_readable(c) {
                return false;
            }
            c = c + 1;
        }
        true
    }
}

/// Whether the sums of some entries can be added up.
fn adds_up(level: &Vec<MipmapEntry>) -> (b: bool)
    ensures
        b == (total(entry_sums(level@)) <= u64::MAX),
{
    let ghost numbers = entry_sums(level@);
    let mut sum: u64 = 0;
    let mut i: usize = 0;
    assert(numbers.take(0) =~= Seq::<nat>::empty());
    while i < level.len()
        invariant
            i <= level@.len(),
            numbers == entry_sums(level@),
            sum == total(numbers.take(i as int)),
        decreases level@.len() - i,
    {
        proof {
            lemma_total_push(numbers, i as int);
            lemma_total_part(numbers, 0, i + 1);
            assert(numbers.subrange(0, i + 1) =~= numbers.take(i + 1));
        }
        match sum.checked_add(level[i].sum) {
            Some(s) => {
                sum = s;
            },
            None => {
                return false;
            },
        }
        i = i + 1;
    }
    assert(numbers.take(i as int) =~= numbers);
    true
}

/// What lies before the start of a bucket is the sum of the buckets before it;
/// within a bucket, the part of it that has passed is added, rounded down;
/// behind all buckets everything has passed.
pub proof fn law_interpolated(numbers: Seq<nat>, cycle: u32, base: u32, b: int)
    requires
        base > 0,
        0 <= b,
        b * base <= cycle < b * base + base,
    ensures
        b >= numbers.len() ==> interpolated(numbers, cycle, base) == total(numbers),
        b < numbers.len() ==> {
            let before = total(numbers.take(b));
            let x = interpolated(numbers, cycle, base);
            &&& before <= x <= before + numbers[b]
            &&& cycle == b * base ==> x == before
            &&& base * (x - before) <= (cycle - b * base) * numbers[b] < base * (x - before) + base
        },
{
    vstd::arithmetic::div_mod::lemma_fundamental_div_mod_converse(
        cycle as int,
        base as int,
        b,
        cycle - b * base,
    );
    if b < numbers.len() {
        let d = (cycle % base) as nat;
        let n = numbers[b];
        let q = d * n / base as nat;
        vstd::arithmetic::div_mod::lemma_fundamental_div_mod((d * n) as int, base as int);
        assert(q <= n) by (nonlinear_arith)
            requires
                q == d * n / base as nat,
                d < base,
        ;
        if d == 0 {
            assert(q == 0) by (nonlinear_arith)
                requires
                    q == d * n / base as nat,
                    d == 0,
                    base > 0,
            ;
        }
    }
}

} // verus!
