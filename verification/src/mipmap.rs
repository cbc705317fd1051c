//! Buckets of counter deltas and instruction counts, and the pyramids of
//! coarser levels above them.

use vstd::prelude::*;
use crate::summary::MipmapEntry;

verus! {

/// How many child buckets are aggregated into one parent bucket.
pub const FAN_OUT: u32 = 4;

/// Number of cycles per level-0 bucket: a power of two for clean alignment.
pub const BASE_INTERVAL: u32 = 1024;

// ---------------------------------------------------------------------------
// Sums.

/// The sum of some numbers.
pub open spec fn total(s: Seq<nat>) -> nat
    decreases s.len(),
{
    if s.len() == 0 {
        0
    } else {
        total(s.drop_last()) + s.last()
    }
}

pub proof fn lemma_total_join(a: Seq<nat>, b: Seq<nat>)
    ensures
        total(a + b) == total(a) + total(b),
    decreases b.len(),
{
    if b.len() == 0 {
        assert(a + b =~= a);
    } else {
        lemma_total_join(a, b.drop_last());
        assert((a + b).drop_last() =~= a + b.drop_last());
    }
}

/// A part of some numbers has no larger sum.
pub proof fn lemma_total_part(s: Seq<nat>, i: int, j: int)
    requires
        0 <= i <= j <= s.len(),
    ensures
        total(s.subrange(i, j)) <= total(s),
{
    let a = s.subrange(0, i);
    let b = s.subrange(i, j);
    let c = s.subrange(j, s.len() as int);
    assert(s =~= (a + b) + c);
    lemma_total_join(a + b, c);
    lemma_total_join(a, b);
}

/// One more number.
pub proof fn lemma_total_push(s: Seq<nat>, i: int)
    requires
        0 <= i < s.len(),
    ensures
        total(s.take(i + 1)) == total(s.take(i)) + s[i],
{
    assert(s.take(i + 1).drop_last() =~= s.take(i));
}

/// The smallest of some numbers.
pub open spec fn least(s: Seq<u64>) -> u64
    decreases s.len(),
{
    if s.len() == 0 {
        u64::MAX
    } else {
        let m = least(s.drop_last());
        if s.last() < m {
            s.last()
        } else {
            m
        }
    }
}

/// The largest of some numbers.
pub open spec fn greatest(s: Seq<u64>) -> u64
    decreases s.len(),
{
    if s.len() == 0 {
        0
    } else {
        let m = greatest(s.drop_last());
        if s.last() > m {
            s.last()
        } else {
            m
        }
    }
}

/// The sum of some numbers.
pub open spec fn sum_of(s: Seq<u64>) -> nat
    decreases s.len(),
{
    if s.len() == 0 {
        0
    } else {
        sum_of(s.drop_last()) + s.last() as nat
    }
}

/// The smallest and the largest of some numbers bound all of them.
pub proof fn law_least_greatest(s: Seq<u64>)
    ensures
        forall|i: int| 0 <= i < s.len() ==> least(s) <= #[trigger] s[i] <= greatest(s),
        s.len() > 0 ==> s.contains(least(s)) && s.contains(greatest(s)),
    decreases s.len(),
{
    if s.len() > 0 {
        let init = s.drop_last();
        law_least_greatest(init);
        assert forall|i: int| 0 <= i < s.len() implies least(s) <= #[trigger] s[i]
            <= greatest(s) by {
            if i < init.len() {
                assert(init[i] == s[i]);
            }
        }
        assert(s[s.len() - 1] == s.last());
        if init.len() > 0 {
            let i = choose|i: int| 0 <= i < init.len() && init[i] == least(init);
            let j = choose|j: int| 0 <= j < init.len() && init[j] == greatest(init);
            assert(s[i] == least(init));
            assert(s[j] == greatest(init));
        }
    }
}

// ---------------------------------------------------------------------------
// Pyramids.

/// The children of bucket `i` of the next coarser level.
pub open spec fn children<T>(level: Seq<T>, i: int) -> Seq<T> {
    level.subrange(
        FAN_OUT * i,
        if FAN_OUT * i + FAN_OUT <= level.len() {
            FAN_OUT * i + FAN_OUT
        } else {
            level.len() as int
        },
    )
}

/// How many buckets the next coarser level has.
pub open spec fn parents(n: nat) -> nat {
    (n + 3) / 4
}

/// The sums of the next coarser level.
pub open spec fn coarser_totals(level: Seq<nat>) -> Seq<nat> {
    Seq::new(parents(level.len()), |i: int| total(children(level, i)))
}

/// A coarser level has the same sum.
pub proof fn law_coarser_total(level: Seq<nat>)
    ensures
        total(coarser_totals(level)) == total(level),
    decreases level.len(),
{
    let n = parents(level.len()) as int;
    if level.len() > 0 {
        let front = level.take(4 * (n - 1));
        let last = children(level, n - 1);
        assert(level =~= front + last);
        lemma_total_join(front, last);
        law_coarser_total(front);
        let up = coarser_totals(level);
        assert(parents(front.len()) == n - 1);
        assert forall|i: int| 0 <= i < n - 1 implies #[trigger] up.drop_last()[i]
            == coarser_totals(front)[i] by {
            assert(children(level, i) =~= children(front, i));
        }
        assert(up.drop_last() =~= coarser_totals(front));
    } else {
        assert(coarser_totals(level) =~= level);
    }
}

/// The sums of some entries.
pub open spec fn entry_sums(level: Seq<MipmapEntry>) -> Seq<nat> {
    level.map_values(|e: MipmapEntry| e.sum as nat)
}

/// The numbers of some counts.
pub open spec fn counts(level: Seq<u32>) -> Seq<nat> {
    level.map_values(|c: u32| c as nat)
}

/// One entry for several.
pub open spec fn combined(entries: Seq<MipmapEntry>) -> MipmapEntry {
    MipmapEntry {
        min_delta: least(entries.map_values(|e: MipmapEntry| e.min_delta)),
        max_delta: greatest(entries.map_values(|e: MipmapEntry| e.max_delta)),
        sum: total(entry_sums(entries)) as u64,
    }
}

/// The next coarser level.
pub open spec fn coarser_entries(level: Seq<MipmapEntry>) -> Seq<MipmapEntry> {
    Seq::new(parents(level.len()), |i: int| combined(children(level, i)))
}

/// The next coarser level of counts.
pub open spec fn coarser_counts(level: Seq<u32>) -> Seq<u32> {
    Seq::new(parents(level.len()), |i: int| total(counts(children(level, i))) as u32)
}

/// All levels from the finest to one with at most one bucket.
pub open spec fn entry_pyramid(level: Seq<MipmapEntry>) -> Seq<Seq<MipmapEntry>>
    decreases level.len(),
{
    if level.len() <= 1 {
        seq![level]
    } else {
        seq![level] + entry_pyramid(coarser_entries(level))
    }
}

/// The same of counts.
pub open spec fn count_pyramid(level: Seq<u32>) -> Seq<Seq<u32>>
    decreases level.len(),
{
    if level.len() <= 1 {
        seq![level]
    } else {
        seq![level] + count_pyramid(coarser_counts(level))
    }
}

/// A coarser level of entries has the same sum.
pub proof fn law_coarser_entries(level: Seq<MipmapEntry>)
    requires
        total(entry_sums(level)) <= u64::MAX,
    ensures
        total(entry_sums(coarser_entries(level))) == total(entry_sums(level)),
{
    let up = coarser_entries(level);
    let sums = entry_sums(level);
    assert forall|i: int| 0 <= i < up.len() implies #[trigger] entry_sums(up)[i]
        == coarser_totals(sums)[i] by {
        assert(entry_sums(children(level, i)) =~= children(sums, i));
        let stop = if 4 * i + 4 <= level.len() {
            4 * i + 4
        } else {
            level.len() as int
        };
        lemma_total_part(sums, 4 * i, stop);
    }
    assert(entry_sums(up) =~= coarser_totals(sums));
    law_coarser_total(sums);
}

/// A coarser level of counts has the same sum.
pub proof fn law_coarser_counts(level: Seq<u32>)
    requires
        total(counts(level)) <= u32::MAX,
    ensures
        total(counts(coarser_counts(level))) == total(counts(level)),
{
    let up = coarser_counts(level);
    let sums = counts(level);
    assert forall|i: int| 0 <= i < up.len() implies #[trigger] counts(up)[i] == coarser_totals(
        sums,
    )[i] by {
        assert(counts(children(level, i)) =~= children(sums, i));
        let stop = if 4 * i + 4 <= level.len() {
            4 * i + 4
        } else {
            level.len() as int
        };
        lemma_total_part(sums, 4 * i, stop);
    }
    assert(counts(up) =~= coarser_totals(sums));
    law_coarser_total(sums);
}

/// Every level of a pyramid has the same sum; the last has one bucket, unless
/// the first has none.
pub proof fn law_entry_pyramid(level: Seq<MipmapEntry>)
    requires
        total(entry_sums(level)) <= u64::MAX,
    ensures
        entry_pyramid(level).len() > 0,
        entry_pyramid(level)[0] == level,
        forall|i: int|
            0 <= i < entry_pyramid(level).len() ==> total(
                entry_sums(#[trigger] entry_pyramid(level)[i]),
            ) == total(entry_sums(level)),
        level.len() > 0 ==> entry_pyramid(level).last().len() == 1,
    decreases level.len(),
{
    if level.len() > 1 {
        let up = coarser_entries(level);
        law_coarser_entries(level);
        law_entry_pyramid(up);
        let p = entry_pyramid(level);
        assert forall|i: int| 0 <= i < p.len() implies total(entry_sums(#[trigger] p[i])) == total(
            entry_sums(level),
        ) by {
            if i > 0 {
                assert(p[i] == entry_pyramid(up)[i - 1]);
            }
        }
        assert(p.last() == entry_pyramid(up).last());
    }
}

/// The same of counts.
pub proof fn law_count_pyramid(level: Seq<u32>)
    requires
        total(counts(level)) <= u32::MAX,
    ensures
        count_pyramid(level).len() > 0,
        count_pyramid(level)[0] == level,
        forall|i: int|
            0 <= i < count_pyramid(level).len() ==> total(
                counts(#[trigger] count_pyramid(level)[i]),
            ) == total(counts(level)),
        level.len() > 0 ==> count_pyramid(level).last().len() == 1,
    decreases level.len(),
{
    if level.len() > 1 {
        let up = coarser_counts(level);
        law_coarser_counts(level);
        law_count_pyramid(up);
        let p = count_pyramid(level);
        assert forall|i: int| 0 <= i < p.len() implies total(counts(#[trigger] p[i])) == total(
            counts(level),
        ) by {
            if i > 0 {
                assert(p[i] == count_pyramid(up)[i - 1]);
            }
        }
        assert(p.last() == count_pyramid(up).last());
    }
}

/// One entry for the entries from `start` up to but not with `end`.
fn combine(level: &Vec<MipmapEntry>, start: usize, end: usize) -> (e: MipmapEntry)
    requires
        start <= end <= level@.len(),
        total(entry_sums(level@)) <= u64::MAX,
    ensures
        e == combined(level@.subrange(start as int, end as int)),
{
    let mut min_delta: u64 = u64::MAX;
    let mut max_delta: u64 = 0;
    let mut sum: u64 = 0;
    let mut i: usize = start;
    let ghost part = level@.subrange(start as int, end as int);
    let ghost mins = part.map_values(|e: MipmapEntry| e.min_delta);
    let ghost maxs = part.map_values(|e: MipmapEntry| e.max_delta);
    while i < end
        invariant
            start <= i <= end <= level@.len(),
            part == level@.subrange(start as int, end as int),
            mins == part.map_values(|e: MipmapEntry| e.min_delta),
            maxs == part.map_values(|e: MipmapEntry| e.max_delta),
            total(entry_sums(level@)) <= u64::MAX,
            min_delta == least(mins.take(i - start)),
            max_delta == greatest(maxs.take(i - start)),
            sum == total(entry_sums(part).take(i - start)),
        decreases end - i,
    {
        let e = level[i];
        proof {
            let k = i - start;
            assert(mins.take(k + 1).drop_last() =~= mins.take(k));
            assert(maxs.take(k + 1).drop_last() =~= maxs.take(k));
            lemma_total_push(entry_sums(part), k);
            lemma_total_part(entry_sums(level@), start as int, i + 1);
            assert(entry_sums(part).take(k + 1) =~= entry_sums(level@).subrange(
                start as int,
                i + 1,
            ));
        }
        if e.min_delta < min_delta {
            min_delta = e.min_delta;
        }
        if e.max_delta > max_delta {
            max_delta = e.max_delta;
        }
        sum = sum + e.sum;
        i = i + 1;
    }
    proof {
        let k = end - start;
        assert(mins.take(k) =~= mins);
        assert(maxs.take(k) =~= maxs);
        assert(entry_sums(part).take(k) =~= entry_sums(part));
    }
    MipmapEntry { min_delta, max_delta, sum }
}

/// The next coarser level.
fn coarsen_entries(level: &Vec<MipmapEntry>) -> (up: Vec<MipmapEntry>)
    requires
        total(entry_sums(level@)) <= u64::MAX,
    ensures
        up@ == coarser_entries(level@),
{
    let mut up: Vec<MipmapEntry> = Vec::new();
    let n: usize = level.len();
    let mut i: usize = 0;
    while i < n
        invariant
            n == level@.len(),
            i == n || i == 4 * up@.len(),
            i <= n,
            up@.len() == parents(i as nat),
            up@ =~= coarser_entries(level@).take(up@.len() as int),
            total(entry_sums(level@)) <= u64::MAX,
        decreases n - i,
    {
        let end: usize = if n - i < 4 {
            n
        } else {
            i + 4
        };
        let e = combine(level, i, end);
        assert(children(level@, up@.len() as int) =~= level@.subrange(i as int, end as int));
        up.push(e);
        i = end;
        assert(up@ =~= coarser_entries(level@).take(up@.len() as int));
    }
    assert(up@ =~= coarser_entries(level@));
    up
}

/// The sum of the counts from `start` up to but not with `end`.
fn sum_counts(level: &Vec<u32>, start: usize, end: usize) -> (sum: u32)
    requires
        start <= end <= level@.len(),
        total(counts(level@)) <= u32::MAX,
    ensures
        sum == total(counts(level@.subrange(start as int, end as int))),
{
    let mut sum: u32 = 0;
    let mut i: usize = start;
    let ghost part = level@.subrange(start as int, end as int);
    while i < end
        invariant
            start <= i <= end <= level@.len(),
            part == level@.subrange(start as int, end as int),
            total(counts(level@)) <= u32::MAX,
            sum == total(counts(part).take(i - start)),
        decreases end - i,
    {
        proof {
            let k = i - start;
            lemma_total_push(counts(part), k);
            lemma_total_part(counts(level@), start as int, i + 1);
            assert(counts(part).take(k + 1) =~= counts(level@).subrange(start as int, i + 1));
        }
        sum = sum + level[i];
        i = i + 1;
    }
    assert(counts(part).take(end - start) =~= counts(part));
    sum
}

/// The next coarser level of counts.
fn coarsen_counts(level: &Vec<u32>) -> (up: Vec<u32>)
    requires
        total(counts(level@)) <= u32::MAX,
    ensures
        up@ == coarser_counts(level@),
{
    let mut up: Vec<u32> = Vec::new();
    let n: usize = level.len();
    let mut i: usize = 0;
    while i < n
        invariant
            n == level@.len(),
            i == n || i == 4 * up@.len(),
            i <= n,
            up@.len() == parents(i as nat),
            up@ =~= coarser_counts(level@).take(up@.len() as int),
            total(counts(level@)) <= u32::MAX,
        decreases n - i,
    {
        let end: usize = if n - i < 4 {
            n
        } else {
            i + 4
        };
        let c: u32 = sum_counts(level, i, end);
        assert(children(level@, up@.len() as int) =~= level@.subrange(i as int, end as int));
        up.push(c);
        i = end;
        assert(up@ =~= coarser_counts(level@).take(up@.len() as int));
    }
    assert(up@ =~= coarser_counts(level@));
    up
}

/// The contents of some levels.
pub open spec fn contents<T>(levels: Seq<Vec<T>>) -> Seq<Seq<T>> {
    levels.map_values(|l: Vec<T>| l@)
}

/// Builds all levels above the finest.
pub fn build_entries(level0: Vec<MipmapEntry>) -> (levels: Vec<Vec<MipmapEntry>>)
    requires
        total(entry_sums(level0@)) <= u64::MAX,
    ensures
        contents(levels@) == entry_pyramid(level0@),
{
    let mut levels: Vec<Vec<MipmapEntry>> = Vec::new();
    let mut level: Vec<MipmapEntry> = level0;
    let ghost whole = entry_pyramid(level0@);
    assert(contents(levels@) + entry_pyramid(level@) =~= whole);
    while level.len() > 1
        invariant
            contents(levels@) + entry_pyramid(level@) == whole,
            total(entry_sums(level@)) <= u64::MAX,
        decreases level@.len(),
    {
        let up = coarsen_entries(&level);
        proof {
            law_coarser_entries(level@);
        }
        let ghost before = contents(levels@);
        let ghost mine = level@;
        levels.push(level);
        assert(contents(levels@) =~= before.push(mine));
        assert(before.push(mine) + entry_pyramid(up@) =~= before + (seq![mine] + entry_pyramid(
            up@,
        )));
        level = up;
    }
    let ghost before = contents(levels@);
    let ghost mine = level@;
    levels.push(level);
    assert(contents(levels@) =~= before + seq![mine]);
    levels
}

/// Builds all levels of counts above the finest.
pub fn build_counts(level0: Vec<u32>) -> (levels: Vec<Vec<u32>>)
    requires
        total(counts(level0@)) <= u32::MAX,
    ensures
        contents(levels@) == count_pyramid(level0@),
{
    let mut levels: Vec<Vec<u32>> = Vec::new();
    let mut level: Vec<u32> = level0;
    let ghost whole = count_pyramid(level0@);
    assert(contents(levels@) + count_pyramid(level@) =~= whole);
    while level.len() > 1
        invariant
            contents(levels@) + count_pyramid(level@) == whole,
            total(counts(level@)) <= u32::MAX,
        decreases level@.len(),
    {
        let up = coarsen_counts(&level);
        proof {
            law_coarser_counts(level@);
        }
        let ghost before = contents(levels@);
        let ghost mine = level@;
        levels.push(level);
        assert(contents(levels@) =~= before.push(mine));
        assert(before.push(mine) + count_pyramid(up@) =~= before + (seq![mine] + count_pyramid(
            up@,
        )));
        level = up;
    }
    let ghost before = contents(levels@);
    let ghost mine = level@;
    levels.push(level);
    assert(contents(levels@) =~= before + seq![mine]);
    levels
}

} // verus!
