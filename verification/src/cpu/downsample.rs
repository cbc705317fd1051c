//! Reading counters off the mipmap of a summary.

use vstd::prelude::*;
use crate::summary::{CounterMipmap, MipmapEntry};
use crate::types::lemma_views_self;

verus! {

/// The level of a mipmap of which each entry covers about one of `n` buckets
/// over `range` cycles, or slightly less, and the width of its entries.
/// The search stands at a level whose entries are `width` cycles wide.
pub open spec fn level_from(
    levels: int,
    fan: int,
    range: int,
    n: int,
    level: int,
    width: int,
) -> (int, int)
    decreases levels - level,
{
    if level + 1 < levels && width * fan * n <= range {
        level_from(levels, fan, range, n, level + 1, width * fan)
    } else {
        (level, width)
    }
}

/// The point of the stretch from `lo` to `hi` that is nearest to `x`.
pub open spec fn clamp(x: int, lo: int, hi: int) -> int {
    if x < lo {
        lo
    } else if x > hi {
        hi
    } else {
        x
    }
}

/// How much of entry `e`, with entries `w` wide, lies between `lo` and `hi`.
pub open spec fn overlap(e: int, w: int, lo: int, hi: int) -> int {
    clamp(e * w + w, lo, hi) - clamp(e * w, lo, hi)
}

/// The sums of the entries from `from` up to but not with `to`, each weighted
/// by how much of it lies between `lo` and `hi`.
pub open spec fn weighted(
    entries: Seq<MipmapEntry>,
    w: int,
    lo: int,
    hi: int,
    from: int,
    to: int,
) -> int
    decreases to - from,
{
    if to <= from {
        0
    } else {
        weighted(entries, w, lo, hi, from, to - 1) + entries[to - 1].sum * overlap(
            to - 1,
            w,
            lo,
            hi,
        )
    }
}

/// The mean sum of the entries that lie between `lo` and `hi`, rounded down:
/// 0 where there are none.
pub open spec fn mean_sum(entries: Seq<MipmapEntry>, w: int, lo: int, hi: int) -> u64 {
    let from = lo / w;
    let up = (hi + w - 1) / w;
    let to = if up < entries.len() {
        up
    } else {
        entries.len() as int
    };
    let covered = clamp(to * w, lo, hi) - clamp(from * w, lo, hi);
    if from < to && covered > 0 {
        (weighted(entries, w, lo, hi, from, to) / covered) as u64
    } else {
        0
    }
}

/// The mean sums of some entries, `width` cycles wide, in `n` buckets over
/// `range` cycles from `start` on. Lengths are counted in parts of a cycle, of
/// which a cycle has `n`.
pub open spec fn mean_sums(
    entries: Seq<MipmapEntry>,
    width: int,
    start: int,
    range: int,
    n: int,
) -> Seq<(u64, u64)> {
    Seq::new(
        n as nat,
        |b: int|
            {
                let lo = start * n + b * range;
                let m = mean_sum(entries, width * n, lo, lo + range);
                (m, m)
            },
    )
}

/// The envelope of a counter by its mipmap.
pub open spec fn mipmap_downsampled(
    levels: Seq<Seq<MipmapEntry>>,
    base: int,
    fan: int,
    start: u32,
    end: u32,
    n: int,
) -> Seq<(u64, u64)> {
    let range = end - start;
    let (level, width) = level_from(levels.len() as int, fan, range, n, 0, base);
    let entries = levels[level];
    if entries.len() == 0 {
        Seq::new(n as nat, |b: int| (0u64, 0u64))
    } else {
        mean_sums(entries, width, start as int, range, n)
    }
}

proof fn lemma_weighted_bound(
    entries: Seq<MipmapEntry>,
    w: int,
    lo: int,
    hi: int,
    from: int,
    to: int,
)
    requires
        lo <= hi,
        w > 0,
        from <= to,
    ensures
        0 <= weighted(entries, w, lo, hi, from, to) <= 0xFFFF_FFFF_FFFF_FFFF * (clamp(
            to * w,
            lo,
            hi,
        ) - clamp(from * w, lo, hi)),
        clamp(from * w, lo, hi) <= clamp(to * w, lo, hi),
    decreases to - from,
{
    if from < to {
        lemma_weighted_bound(entries, w, lo, hi, from, to - 1);
        let e = to - 1;
        let s = entries[e].sum as int;
        let ov = overlap(e, w, lo, hi);
        assert(e * w + w == to * w) by (nonlinear_arith)
            requires
                e == to - 1,
        ;
        assert(0 <= s * ov <= 0xFFFF_FFFF_FFFF_FFFF * ov) by (nonlinear_arith)
            requires
                0 <= s <= 0xFFFF_FFFF_FFFF_FFFF,
                0 <= ov,
        ;
    }
}

/// The mean sum of the entries between `lo` and `hi`.
fn find_mean(entries: &Vec<MipmapEntry>, w: u128, lo: u128, hi: u128) -> (m: u64)
    requires
        lo <= hi,
        hi - lo <= 0xFFFF_FFFF,
        0 < w <= 0x1_0000_0000_0000_0000_0000_0000,
        hi <= 0x4_0000_0000_0000_0000_0000_0000,
    ensures
        m == mean_sum(entries@, w as int, lo as int, hi as int),
{
    let n: u128 = entries.len() as u128;
    let from: u128 = lo / w;
    let up: u128 = (hi + w - 1) / w;
    let to: u128 = if up < n {
        up
    } else {
        n
    };
    if from >= to {
        return 0;
    }
    proof {
        assert(from * w <= lo) by (nonlinear_arith)
            requires
                from == lo / w,
                w > 0,
        ;
    }
    let ghost es = entries@;
    let mut e: usize = from as usize;
    let mut edge: u128 = from * w;
    let mut sum: u128 = 0;
    let mut covered: u128 = 0;
    let ghost first = clamp(from * w, lo as int, hi as int);
    proof {
        assert(from == e);
    }
    while (e as u128) < to
        invariant
            es == entries@,
            from <= e <= to <= n,
            n == es.len(),
            n <= usize::MAX,
            lo <= hi,
            hi - lo <= 0xFFFF_FFFF,
            0 < w <= 0x1_0000_0000_0000_0000_0000_0000,
            hi <= 0x4_0000_0000_0000_0000_0000_0000,
            to <= (hi + w - 1) / (w as int),
            edge == e * w,
            first == clamp(from * w, lo as int, hi as int),
            covered == clamp(e * w, lo as int, hi as int) - first,
            lo <= first <= hi,
            sum == weighted(es, w as int, lo as int, hi as int, from as int, e as int),
        decreases to - e,
    {
        proof {
            lemma_edge(e as int, w as int, hi as int, to as int);
            lemma_weighted_bound(
                es,
                w as int,
                lo as int,
                hi as int,
                from as int,
                e as int,
            );
            lemma_weighted_bound(
                es,
                w as int,
                lo as int,
                hi as int,
                from as int,
                e + 1,
            );
            assert((e + 1) * w == e * w + w) by (nonlinear_arith);
        }
        let next: u128 = edge + w;
        let a: u128 = if edge < lo {
            lo
        } else if edge > hi {
            hi
        } else {
            edge
        };
        let b: u128 = if next < lo {
            lo
        } else if next > hi {
            hi
        } else {
            next
        };
        let part: u128 = b - a;
        let ghost s = es[e as int].sum;
        proof {
            assert(part == overlap(e as int, w as int, lo as int, hi as int));
            assert(0 <= s * part <= 0xFFFF_FFFF_FFFF_FFFF * 0xFFFF_FFFF) by (nonlinear_arith)
                requires
                    s <= 0xFFFF_FFFF_FFFF_FFFF,
                    part <= 0xFFFF_FFFF,
            ;
            let c = clamp((e + 1) * w, lo as int, hi as int) - first;
            assert(0 <= c <= 0xFFFF_FFFF);
        }
        sum = sum + entries[e].sum as u128 * part;
        covered = covered + part;
        edge = next;
        e = e + 1;
    }
    if covered > 0 {
        proof {
            lemma_weighted_bound(
                es,
                w as int,
                lo as int,
                hi as int,
                from as int,
                to as int,
            );
            assert(sum / covered <= 0xFFFF_FFFF_FFFF_FFFF) by (nonlinear_arith)
                requires
                    covered > 0,
                    sum <= 0xFFFF_FFFF_FFFF_FFFF * covered,
            ;
        }
        (sum / covered) as u64
    } else {
        0
    }
}

/// The start of an entry that is looked at.
proof fn lemma_edge(e: int, w: int, hi: int, to: int)
    requires
        0 <= e < to,
        to <= (hi + w - 1) / w,
        w > 0,
        hi >= 0,
    ensures
        0 <= e * w <= hi + w,
{
    assert(to * w <= hi + w - 1) by (nonlinear_arith)
        requires
            to <= (hi + w - 1) / w,
            w > 0,
            hi >= 0,
    ;
    assert(0 <= e * w <= to * w) by (nonlinear_arith)
        requires
            0 <= e <= to,
            w > 0,
    ;
}

/// Downsamples a mipmap.
pub fn downsample_mipmap(
    mipmap: &CounterMipmap,
    base: u32,
    fan: u32,
    start: u32,
    end: u32,
    n: usize,
) -> (r: Vec<(u64, u64)>)
    requires
        base > 0,
        mipmap@.levels.len() > 1 ==> fan > 0,
        start < end,
        n > 0,
        mipmap@.levels.len() > 0,
    ensures
        r@ == mipmap_downsampled(
            mipmap@.levels,
            base as int,
            fan as int,
            start,
            end,
            n as int,
        ),
{
    let range: u32 = end - start;
    let count: usize = mipmap.levels.len();
    let mut level: usize = 0;
    let mut width: u64 = base as u64;
    let parts: u128 = n as u128;
    loop
        invariant
            level < count,
            count == mipmap@.levels.len(),
            0 < width <= 0xFFFF_FFFF,
            count > 1 ==> fan > 0,
            n > 0,
            parts == n,
            range == end - start,
            level_from(count as int, fan as int, range as int, n as int, 0, base as int)
                == level_from(
                count as int,
                fan as int,
                range as int,
                n as int,
                level as int,
                width as int,
            ),
        ensures
            level < count,
            0 < width <= 0xFFFF_FFFF,
            level_from(count as int, fan as int, range as int, n as int, 0, base as int) == (
                level as int,
                width as int,
            ),
        decreases count - level,
    {
        if level + 1 >= count {
            break;
        }
        proof {
            assert(0 < width * fan <= 0xFFFF_FFFF * 0xFFFF_FFFF) by (nonlinear_arith)
                requires
                    0 < width <= 0xFFFF_FFFF,
                    0 < fan <= 0xFFFF_FFFF,
            ;
            assert(0 < width * fan * n <= 0xFFFF_FFFF * 0xFFFF_FFFF * 0xFFFF_FFFF_FFFF_FFFF)
                by (nonlinear_arith)
                requires
                    0 < width * fan <= 0xFFFF_FFFF * 0xFFFF_FFFF,
                    0 < n <= 0xFFFF_FFFF_FFFF_FFFF,
            ;
        }
        let wider: u64 = width * fan as u64;
        if wider as u128 * parts > range as u128 {
            break;
        }
        proof {
            assert(width * fan <= width * fan * n) by (nonlinear_arith)
                requires
                    0 < width * fan,
                    n >= 1,
            ;
        }
        level = level + 1;
        width = wider;
    }
    let entries = &mipmap.levels[level];
    proof {
        lemma_views_self(entries@);
        assert(mipmap@.levels[level as int] == entries@);
    }
    let mut r: Vec<(u64, u64)> = Vec::new();
    let mut b: usize = 0;
    if entries.len() == 0 {
        while b < n
            invariant
                b <= n,
                r@ == Seq::new(b as nat, |i: int| (0u64, 0u64)),
            decreases n - b,
        {
            r.push((0, 0));
            b = b + 1;
            assert(r@ =~= Seq::new(b as nat, |i: int| (0u64, 0u64)));
        }
        return r;
    }
    let ghost want = mean_sums(
        entries@,
        width as int,
        start as int,
        range as int,
        n as int,
    );
    proof {
        lemma_parts(width as int, n as int);
        lemma_parts(start as int, n as int);
    }
    let w: u128 = width as u128 * parts;
    let first: u128 = start as u128 * parts;
    while b < n
        invariant
            b <= n,
            parts == n,
            range == end - start,
            start < end,
            0 < w <= 0x1_0000_0000_0000_0000_0000_0000,
            w == width * n,
            first == start * n,
            first <= 0x1_0000_0000_0000_0000_0000_0000,
            want == mean_sums(
                entries@,
                width as int,
                start as int,
                range as int,
                n as int,
            ),
            r@ == want.take(b as int),
        decreases n - b,
    {
        proof {
            lemma_parts(range as int, b as int);
            assert(b * range == range * b) by (nonlinear_arith);
        }
        let lo: u128 = first + b as u128 * range as u128;
        let m: u64 = find_mean(entries, w, lo, lo + range as u128);
        r.push((m, m));
        assert(want[b as int] == (m, m));
        b = b + 1;
        assert(r@ =~= want.take(b as int));
    }
    assert(want.take(n as int) =~= want);
    r
}

proof fn lemma_parts(a: int, n: int)
    requires
        0 <= a <= 0xFFFF_FFFF,
        0 <= n <= 0xFFFF_FFFF_FFFF_FFFF,
    ensures
        0 <= a * n <= 0x1_0000_0000_0000_0000_0000_0000,
        a > 0 && n > 0 ==> a * n > 0,
{
    assert(0 <= a * n <= 0xFFFF_FFFF * 0xFFFF_FFFF_FFFF_FFFF) by (nonlinear_arith)
        requires
            0 <= a <= 0xFFFF_FFFF,
            0 <= n <= 0xFFFF_FFFF_FFFF_FFFF,
    ;
    assert(a > 0 && n > 0 ==> a * n > 0) by (nonlinear_arith);
}

// ---------------------------------------------------------------------------
// What is read off a mipmap.

/// The level that is read has entries that are no wider than a bucket, unless
/// it is the finest; the next coarser level, if there is one, has wider ones.
/// Each level is `fan` times as wide as the one below it.
pub proof fn law_level_from(
    levels: int,
    fan: int,
    range: int,
    n: int,
    level: int,
    width: int,
)
    requires
        level < levels,
    ensures
        ({
            let (l, w) = level_from(levels, fan, range, n, level, width);
            &&& level <= l < levels
            &&& l > level ==> w * n <= range
            &&& l + 1 < levels ==> w * fan * n > range
            &&& l == level ==> w == width
            &&& l == level + 1 ==> w == width * fan
        }),
    decreases levels - level,
{
    if level + 1 < levels && width * fan * n <= range {
        law_level_from(levels, fan, range, n, level + 1, width * fan);
    }
}

proof fn lemma_overlap_split(e: int, w: int, lo: int, mid: int, hi: int)
    requires
        lo <= mid <= hi,
        w >= 0,
    ensures
        overlap(e, w, lo, mid) + overlap(e, w, mid, hi) == overlap(e, w, lo, hi),
        0 <= overlap(e, w, lo, hi) <= w,
        lo <= e * w && e * w + w <= hi ==> overlap(e, w, lo, hi) == w,
{
}

/// What entries weigh in two adjacent stretches they weigh in both together.
pub proof fn law_weighted_split(
    entries: Seq<MipmapEntry>,
    w: int,
    lo: int,
    mid: int,
    hi: int,
    from: int,
    to: int,
)
    requires
        lo <= mid <= hi,
        w >= 0,
    ensures
        weighted(entries, w, lo, mid, from, to) + weighted(entries, w, mid, hi, from, to)
            == weighted(entries, w, lo, hi, from, to),
    decreases to - from,
{
    if from < to {
        law_weighted_split(entries, w, lo, mid, hi, from, to - 1);
        lemma_overlap_split(to - 1, w, lo, mid, hi);
        let s = entries[to - 1].sum as int;
        let (a, b) = (overlap(to - 1, w, lo, mid), overlap(to - 1, w, mid, hi));
        assert(s * a + s * b == s * (a + b)) by (nonlinear_arith);
    }
}

proof fn lemma_weighted_within(
    entries: Seq<MipmapEntry>,
    w: int,
    lo: int,
    hi: int,
    from: int,
    to: int,
    least: int,
    most: int,
)
    requires
        lo <= hi,
        w > 0,
        from <= to,
        forall|e: int|
            from <= e < to ==> least <= (#[trigger] entries[e]).sum && entries[e].sum <= most,
    ensures
        ({
            let covered = clamp(to * w, lo, hi) - clamp(from * w, lo, hi);
            &&& covered >= 0
            &&& least * covered <= weighted(entries, w, lo, hi, from, to) <= most * covered
        }),
    decreases to - from,
{
    if from < to {
        lemma_weighted_within(entries, w, lo, hi, from, to - 1, least, most);
        let e = to - 1;
        let s = entries[e].sum as int;
        let part = overlap(e, w, lo, hi);
        assert(e * w + w == to * w) by (nonlinear_arith)
            requires
                e == to - 1,
        ;
        let before = clamp(e * w, lo, hi) - clamp(from * w, lo, hi);
        assert(part >= 0);
        assert(least * part <= s * part && s * part <= most * part) by (nonlinear_arith)
            requires
                least <= s <= most,
                part >= 0,
        ;
        assert(least * before + least * part == least * (before + part)) by (nonlinear_arith);
        assert(most * before + most * part == most * (before + part)) by (nonlinear_arith);
    } else {
        assert(least * 0 == 0 && most * 0 == 0) by (nonlinear_arith);
    }
}

/// The mean of the entries that reach into a stretch is not below the smallest
/// of their sums and not above the largest.
pub proof fn law_mean_sum(
    entries: Seq<MipmapEntry>,
    w: int,
    lo: int,
    hi: int,
    least: u64,
    most: u64,
)
    requires
        0 <= lo < hi,
        w > 0,
        lo / w < entries.len(),
        forall|e: int|
            0 <= e < entries.len() && e * w < hi && lo < e * w + w ==> least <= (
            #[trigger] entries[e]).sum && entries[e].sum <= most,
    ensures
        least <= mean_sum(entries, w, lo, hi) <= most,
{
    let from = lo / w;
    let up = (hi + w - 1) / w;
    vstd::arithmetic::div_mod::lemma_fundamental_div_mod(lo, w);
    vstd::arithmetic::div_mod::lemma_fundamental_div_mod(hi + w - 1, w);
    assert(w * from == from * w && w * up == up * w) by (nonlinear_arith);
    assert(0 <= from < up) by (nonlinear_arith)
        requires
            from * w <= lo < hi,
            hi <= up * w,
            up * w < hi + w,
            w > 0,
            from == lo / w,
            lo >= 0,
    ;
    let to = if up < entries.len() {
        up
    } else {
        entries.len() as int
    };
    assert(from * w + w <= to * w) by (nonlinear_arith)
        requires
            from + 1 <= to,
            w > 0,
    ;
    assert forall|e: int| from <= e < to implies least <= (#[trigger] entries[e]).sum
        && entries[e].sum <= most by {
        assert(e * w < hi && lo < e * w + w) by (nonlinear_arith)
            requires
                from <= e < up,
                up * w < hi + w,
                lo < from * w + w,
                w > 0,
        {
            assert((e + 1) * w <= up * w);
            assert(from * w <= e * w);
        }
    }
    lemma_weighted_within(entries, w, lo, hi, from, to, least as int, most as int);
    let covered = clamp(to * w, lo, hi) - clamp(from * w, lo, hi);
    assert(covered > 0);
    let sum = weighted(entries, w, lo, hi, from, to);
    let q = sum / covered;
    vstd::arithmetic::div_mod::lemma_fundamental_div_mod(sum, covered);
    let (a, b) = (least as int, most as int);
    assert(a <= q <= b) by (nonlinear_arith)
        requires
            a * covered <= sum <= b * covered,
            covered > 0,
            covered * q <= sum < covered * q + covered,
    {
        assert(a * covered < (q + 1) * covered);
        assert(q * covered <= b * covered);
    }
}

} // verus!
