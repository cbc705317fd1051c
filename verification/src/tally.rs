//! Counting instructions and counter deltas by level-0 bucket.

use vstd::prelude::*;
use crate::mipmap::{counts, entry_sums, greatest, least, sum_of, total};
use crate::summary::MipmapEntry;

verus! {

/// Something that is counted.
pub enum Mark {
    /// A counter grows by `delta`.
    Grow { bucket: u64, counter: int, delta: u64 },
    /// An instruction starts.
    Start { bucket: u64 },
}

impl Mark {
    /// The bucket in which the mark lies.
    pub open spec fn bucket(self) -> u64 {
        match self {
            Mark::Grow { bucket, .. } => bucket,
            Mark::Start { bucket } => bucket,
        }
    }

    /// The deltas that the mark adds to counter `c`.
    pub open spec fn deltas(self, c: int) -> Seq<u64> {
        match self {
            Mark::Grow { counter, delta, .. } => if counter == c {
                seq![delta]
            } else {
                Seq::empty()
            },
            Mark::Start { .. } => Seq::empty(),
        }
    }

    /// How many instructions the mark starts.
    pub open spec fn starts(self) -> nat {
        match self {
            Mark::Grow { .. } => 0,
            Mark::Start { .. } => 1,
        }
    }
}

/// The last bucket that some marks reached. A mark behind it counts for it.
pub open spec fn reached(marks: Seq<Mark>) -> u64
    decreases marks.len(),
{
    if marks.len() == 0 {
        0
    } else {
        let before = reached(marks.drop_last());
        if marks.last().bucket() > before {
            marks.last().bucket()
        } else {
            before
        }
    }
}

/// The deltas of counter `c` that count for bucket `b`.
pub open spec fn deltas_in(marks: Seq<Mark>, c: int, b: int) -> Seq<u64>
    decreases marks.len(),
{
    if marks.len() == 0 {
        Seq::empty()
    } else {
        let before = deltas_in(marks.drop_last(), c, b);
        if reached(marks) == b {
            before + marks.last().deltas(c)
        } else {
            before
        }
    }
}

/// How many instructions count for bucket `b`.
pub open spec fn starts_in(marks: Seq<Mark>, b: int) -> nat
    decreases marks.len(),
{
    if marks.len() == 0 {
        0
    } else {
        let before = starts_in(marks.drop_last(), b);
        if reached(marks) == b {
            before + marks.last().starts()
        } else {
            before
        }
    }
}

/// All deltas of counter `c`.
pub open spec fn deltas_of(marks: Seq<Mark>, c: int) -> Seq<u64>
    decreases marks.len(),
{
    if marks.len() == 0 {
        Seq::empty()
    } else {
        deltas_of(marks.drop_last(), c) + marks.last().deltas(c)
    }
}

/// How many instructions there are.
pub open spec fn starts_of(marks: Seq<Mark>) -> nat
    decreases marks.len(),
{
    if marks.len() == 0 {
        0
    } else {
        starts_of(marks.drop_last()) + marks.last().starts()
    }
}

/// Whether no sum is too large: each counter's, and that of instructions.
pub open spec fn countable(marks: Seq<Mark>, n: int) -> bool {
    &&& starts_of(marks) <= u32::MAX
    &&& forall|c: int| 0 <= c < n ==> sum_of(#[trigger] deltas_of(marks, c)) <= u64::MAX
}

/// The entry for some deltas. Where none is less than `u64::MAX`, the minimum
/// is given as 0.
pub open spec fn entry_of(deltas: Seq<u64>) -> MipmapEntry {
    MipmapEntry {
        min_delta: if least(deltas) == u64::MAX {
            0
        } else {
            least(deltas)
        },
        max_delta: greatest(deltas),
        sum: sum_of(deltas) as u64,
    }
}

/// The entries of counter `c` for the first `n` buckets.
pub open spec fn entries(marks: Seq<Mark>, c: int, n: int) -> Seq<MipmapEntry> {
    Seq::new(n as nat, |b: int| entry_of(deltas_in(marks, c, b)))
}

/// The instruction counts of the first `n` buckets.
pub open spec fn density(marks: Seq<Mark>, n: int) -> Seq<u32> {
    Seq::new(n as nat, |b: int| starts_in(marks, b) as u32)
}

proof fn lemma_sum_join(a: Seq<u64>, b: Seq<u64>)
    ensures
        sum_of(a + b) == sum_of(a) + sum_of(b),
    decreases b.len(),
{
    if b.len() == 0 {
        assert(a + b =~= a);
    } else {
        lemma_sum_join(a, b.drop_last());
        assert((a + b).drop_last() =~= a + b.drop_last());
    }
}

/// Nothing counts for buckets that were not reached.
proof fn lemma_beyond(marks: Seq<Mark>, c: int, b: int)
    requires
        b > reached(marks),
    ensures
        deltas_in(marks, c, b) == Seq::<u64>::empty(),
        starts_in(marks, b) == 0,
    decreases marks.len(),
{
    if marks.len() > 0 {
        lemma_beyond(marks.drop_last(), c, b);
    }
}

/// A bucket has no more than all buckets together.
proof fn lemma_bucket_within(marks: Seq<Mark>, c: int, b: int)
    ensures
        sum_of(deltas_in(marks, c, b)) <= sum_of(deltas_of(marks, c)),
        starts_in(marks, b) <= starts_of(marks),
    decreases marks.len(),
{
    if marks.len() > 0 {
        let init = marks.drop_last();
        lemma_bucket_within(init, c, b);
        lemma_sum_join(deltas_of(init, c), marks.last().deltas(c));
        lemma_sum_join(deltas_in(init, c, b), marks.last().deltas(c));
    }
}

/// Fewer marks have smaller sums.
pub proof fn lemma_countable_prefix(marks: Seq<Mark>, k: int, n: int)
    requires
        countable(marks, n),
        0 <= k <= marks.len(),
    ensures
        countable(marks.take(k), n),
    decreases marks.len(),
{
    if k == marks.len() {
        assert(marks.take(k) =~= marks);
    } else {
        let init = marks.drop_last();
        assert forall|c: int| 0 <= c < n implies sum_of(#[trigger] deltas_of(init, c))
            <= u64::MAX by {
            lemma_sum_join(deltas_of(init, c), marks.last().deltas(c));
            assert(sum_of(deltas_of(marks, c)) <= u64::MAX);
        }
        lemma_countable_prefix(init, k, n);
        assert(init.take(k) =~= marks.take(k));
    }
}

/// The sums of all buckets up to the last one reached are the whole sums.
pub proof fn law_buckets_total(marks: Seq<Mark>, n: int, c: int, m: int)
    requires
        countable(marks, n),
        m > reached(marks),
    ensures
        total(counts(density(marks, m))) == starts_of(marks),
        0 <= c < n ==> total(entry_sums(entries(marks, c, m))) == sum_of(deltas_of(marks, c)),
    decreases marks.len(),
{
    if marks.len() == 0 {
        lemma_all_zero(counts(density(marks, m)));
        lemma_all_zero(entry_sums(entries(marks, c, m)));
    } else {
        let init = marks.drop_last();
        let last = marks.last();
        let b = reached(marks) as int;
        assert(init =~= marks.take(marks.len() - 1));
        lemma_countable_prefix(marks, marks.len() - 1, n);
        law_buckets_total(init, n, c, m);
        let before = counts(density(init, m));
        let now = counts(density(marks, m));
        lemma_bucket_within(marks, c, b);
        lemma_bucket_within(init, c, b);
        assert forall|i: int| 0 <= i < m && i != b implies #[trigger] now[i] == before[i] by {}
        lemma_total_update(before, now, b, last.starts());
        if 0 <= c < n {
            let old_sums = entry_sums(entries(init, c, m));
            let sums = entry_sums(entries(marks, c, m));
            assert forall|i: int| 0 <= i < m && i != b implies #[trigger] sums[i]
                == old_sums[i] by {}
            lemma_sum_join(deltas_in(init, c, b), last.deltas(c));
            lemma_sum_join(deltas_of(init, c), last.deltas(c));
            assert(sum_of(deltas_of(marks, c)) <= u64::MAX);
            lemma_total_update(old_sums, sums, b, sum_of(last.deltas(c)));
        }
    }
}

proof fn lemma_all_zero(s: Seq<nat>)
    requires
        forall|i: int| 0 <= i < s.len() ==> #[trigger] s[i] == 0,
    ensures
        total(s) == 0,
    decreases s.len(),
{
    if s.len() > 0 {
        let init = s.drop_last();
        assert forall|i: int| 0 <= i < init.len() implies #[trigger] init[i] == 0 by {
            assert(init[i] == s[i]);
        }
        lemma_all_zero(init);
        assert(s[s.len() - 1] == 0);
    }
}

/// One number grows.
proof fn lemma_total_update(a: Seq<nat>, b: Seq<nat>, i: int, d: nat)
    requires
        a.len() == b.len(),
        0 <= i < a.len(),
        b[i] == a[i] + d,
        forall|j: int| 0 <= j < a.len() && j != i ==> #[trigger] b[j] == a[j],
    ensures
        total(b) == total(a) + d,
    decreases a.len(),
{
    let x = a.drop_last();
    let y = b.drop_last();
    if i == a.len() - 1 {
        assert(x =~= y);
    } else {
        assert forall|j: int| 0 <= j < x.len() && j != i implies #[trigger] y[j] == x[j] by {
            assert(b[j] == a[j]);
        }
        lemma_total_update(x, y, i, d);
        assert(b[a.len() - 1] == a[a.len() - 1]);
    }
}

/// What was counted so far.
pub struct Tally {
    /// The bucket that is being filled.
    bucket: u64,
    /// Of each counter, in the bucket that is being filled.
    min: Vec<u64>,
    max: Vec<u64>,
    sum: Vec<u64>,
    /// Of each counter, in all buckets.
    sums: Vec<u64>,
    /// The full buckets of each counter.
    levels: Vec<Vec<MipmapEntry>>,
    /// The instructions in the bucket that is being filled.
    count: u32,
    /// The instructions in all buckets.
    starts: u64,
    /// The instructions in the full buckets.
    density: Vec<u32>,
    marks: Ghost<Seq<Mark>>,
}

impl View for Tally {
    type V = Seq<Mark>;

    /// What was counted.
    closed spec fn view(&self) -> Seq<Mark> {
        self.marks@
    }
}

impl Tally {
    /// How many counters there are.
    pub closed spec fn counters(&self) -> int {
        self.min@.len() as int
    }

    /// Whether the tally is that of its marks.
    pub closed spec fn wf(&self) -> bool {
        self.fills() && self.bucket == reached(self@)
    }

    /// Whether the tally is that of its marks, with all buckets before the one
    /// that is being filled full.
    closed spec fn fills(&self) -> bool {
        let marks = self@;
        let n = self.counters();
        &&& self.bucket >= reached(marks)
        &&& countable(marks, n)
        &&& self.max@.len() == n
        &&& self.sum@.len() == n
        &&& self.sums@.len() == n
        &&& self.levels@.len() == n
        &&& forall|c: int| #![trigger self.min@[c]]
            0 <= c < n ==> self.min@[c] == least(deltas_in(marks, c, self.bucket as int))
        &&& forall|c: int| #![trigger self.max@[c]]
            0 <= c < n ==> self.max@[c] == greatest(deltas_in(marks, c, self.bucket as int))
        &&& forall|c: int| #![trigger self.sum@[c]]
            0 <= c < n ==> self.sum@[c] == sum_of(deltas_in(marks, c, self.bucket as int))
        &&& forall|c: int| #![trigger self.sums@[c]]
            0 <= c < n ==> self.sums@[c] == sum_of(deltas_of(marks, c))
        &&& forall|c: int| #![trigger self.levels@[c]]
            0 <= c < n ==> self.levels@[c]@ == entries(marks, c, self.bucket as int)
        &&& self.count == starts_in(marks, self.bucket as int)
        &&& self.starts == starts_of(marks)
        &&& self.density@ == density(marks, self.bucket as int)
    }

    /// Nothing was counted.
    pub fn new(n: usize) -> (t: Tally)
        ensures
            t.wf(),
            t@ == Seq::<Mark>::empty(),
            t.counters() == n,
    {
        let mut min: Vec<u64> = Vec::new();
        let mut max: Vec<u64> = Vec::new();
        let mut sum: Vec<u64> = Vec::new();
        let mut sums: Vec<u64> = Vec::new();
        let mut levels: Vec<Vec<MipmapEntry>> = Vec::new();
        let mut i: usize = 0;
        while i < n
            invariant
                i <= n,
                min@.len() == i,
                max@.len() == i,
                sum@.len() == i,
                sums@.len() == i,
                levels@.len() == i,
                forall|c: int| 0 <= c < i ==> #[trigger] min@[c] == u64::MAX,
                forall|c: int| 0 <= c < i ==> #[trigger] max@[c] == 0,
                forall|c: int| 0 <= c < i ==> #[trigger] sum@[c] == 0,
                forall|c: int| 0 <= c < i ==> #[trigger] sums@[c] == 0,
                forall|c: int| 0 <= c < i ==> (#[trigger] levels@[c])@.len() == 0,
            decreases n - i,
        {
            min.push(u64::MAX);
            max.push(0);
            sum.push(0);
            sums.push(0);
            levels.push(Vec::new());
            i = i + 1;
        }
        let t = Tally {
            bucket: 0,
            min,
            max,
            sum,
            sums,
            levels,
            count: 0,
            starts: 0,
            density: Vec::new(),
            marks: Ghost(Seq::empty()),
        };
        proof {
            let marks = Seq::<Mark>::empty();
            assert forall|c: int| #![trigger t.levels@[c]] 0 <= c < n implies t.levels@[c]@
                == entries(marks, c, 0) by {
                assert(t.levels@[c]@ =~= entries(marks, c, 0));
            }
            assert(t.density@ =~= density(marks, 0));
            assert forall|c: int| 0 <= c < n implies sum_of(#[trigger] deltas_of(marks, c))
                <= u64::MAX by {}
        }
        t
    }

    /// Completes the entries of the bucket that is being filled.
    fn close_bucket(&mut self)
        requires
            old(self).fills(),
            old(self).bucket < u64::MAX,
        ensures
            final(self).fills(),
            final(self)@ == old(self)@,
            final(self).counters() == old(self).counters(),
            final(self).bucket == old(self).bucket + 1,
    {
        let ghost marks = self@;
        let ghost n = self.counters();
        let ghost b = self.bucket as int;
        let count: usize = self.min.len();
        let mut c: usize = 0;
        while c < count
            invariant
                c <= count,
                count == n,
                b == self.bucket,
                b == old(self).bucket,
                b >= reached(marks),
                self.marks == old(self).marks,
                self.min@.len() == n,
                self.max@.len() == n,
                self.sum@.len() == n,
                self.sums == old(self).sums,
                self.levels@.len() == n,
                self.count == old(self).count,
                self.starts == old(self).starts,
                self.density == old(self).density,
                forall|j: int| #![trigger self.min@[j]]
                    0 <= j < n ==> self.min@[j] == if j < c {
                        u64::MAX
                    } else {
                        least(deltas_in(marks, j, b))
                    },
                forall|j: int| #![trigger self.max@[j]]
                    0 <= j < n ==> self.max@[j] == if j < c {
                        0
                    } else {
                        greatest(deltas_in(marks, j, b))
                    },
                forall|j: int| #![trigger self.sum@[j]]
                    0 <= j < n ==> self.sum@[j] == if j < c {
                        0
                    } else {
                        sum_of(deltas_in(marks, j, b))
                    },
                forall|j: int| #![trigger self.levels@[j]]
                    0 <= j < n ==> self.levels@[j]@ == entries(
                        marks,
                        j,
                        if j < c {
                            b + 1
                        } else {
                            b
                        },
                    ),
            decreases count - c,
        {
            let min_delta: u64 = if self.min[c] == u64::MAX {
                0
            } else {
                self.min[c]
            };
            let e = MipmapEntry { min_delta, max_delta: self.max[c], sum: self.sum[c] };
            assert(e == entry_of(deltas_in(marks, c as int, b)));
            let ghost old_levels = self.levels@;
            let mut level: Vec<MipmapEntry> = Vec::new();
            std::mem::swap(&mut level, &mut self.levels[c]);
            level.push(e);
            assert(level@ =~= entries(marks, c as int, b + 1));
            self.levels.set(c, level);
            self.min.set(c, u64::MAX);
            self.max.set(c, 0);
            self.sum.set(c, 0);
            c = c + 1;
        }
        self.density.push(self.count);
        self.count = 0;
        self.bucket = self.bucket + 1;
        proof {
            assert(self.density@ =~= density(marks, b + 1));
            lemma_beyond(marks, 0, b + 1);
            assert forall|j: int| 0 <= j < n implies #[trigger] deltas_in(marks, j, b + 1)
                == Seq::<u64>::empty() by {
                lemma_beyond(marks, j, b + 1);
            }
        }
    }

    /// Flush completed buckets up to (but not including) bucket `target`.
    fn flush_buckets(&mut self, target: u64)
        requires
            old(self).fills(),
        ensures
            final(self).fills(),
            final(self)@ == old(self)@,
            final(self).counters() == old(self).counters(),
            final(self).bucket == if target > old(self).bucket {
                target
            } else {
                old(self).bucket
            },
    {
        while self.bucket < target
            invariant
                self.fills(),
                self@ == old(self)@,
                self.counters() == old(self).counters(),
                self.bucket == old(self).bucket || self.bucket <= target,
                self.bucket >= old(self).bucket,
            decreases target - self.bucket,
        {
            self.close_bucket();
        }
    }

    /// Counts the delta of a counter. Returns whether all deltas of the
    /// counter can still be added up.
    pub fn grow(&mut self, bucket: u64, counter: usize, delta: u64) -> (ok: bool)
        requires
            old(self).wf(),
            counter < old(self).counters(),
        ensures
            ok == countable(
                old(self)@.push(Mark::Grow { bucket, counter: counter as int, delta }),
                old(self).counters(),
            ),
            ok ==> {
                &&& final(self).wf()
                &&& final(self)@ == old(self)@.push(
                    Mark::Grow { bucket, counter: counter as int, delta },
                )
                &&& final(self).counters() == old(self).counters()
            },
    {
        let ghost mark = Mark::Grow { bucket, counter: counter as int, delta };
        let ghost old_marks = self@;
        let ghost marks = old_marks.push(mark);
        let ghost n = self.counters();
        proof {
            assert(marks.drop_last() =~= old_marks);
            lemma_sum_join(deltas_of(old_marks, counter as int), seq![delta]);
            assert(seq![delta].drop_last() =~= Seq::<u64>::empty());
            assert(sum_of(seq![delta]) == delta) by {
                reveal_with_fuel(sum_of, 2);
            }
            assert forall|c: int| 0 <= c < n && c != counter implies #[trigger] deltas_of(marks, c)
                == deltas_of(old_marks, c) by {
                assert(deltas_of(marks, c) =~= deltas_of(old_marks, c));
            }
        }
        match self.sums[counter].checked_add(delta) {
            None => {
                assert(sum_of(deltas_of(marks, counter as int)) > u64::MAX);
                false
            },
            Some(all) => {
                self.flush_buckets(bucket);
                let ghost b = self.bucket as int;
                proof {
                    assert(reached(marks) == b);
                    let d = deltas_in(old_marks, counter as int, b);
                    assert(d + seq![delta] =~= d.push(delta));
                    assert(d.push(delta).drop_last() =~= d);
                    lemma_bucket_within(old_marks, counter as int, b);
                    assert forall|c: int, x: int| 0 <= c < n && (x != b || c != counter) implies
                        #[trigger] deltas_in(marks, c, x) == deltas_in(old_marks, c, x) by {
                        assert(deltas_in(marks, c, x) =~= deltas_in(old_marks, c, x));
                    }
                    assert forall|x: int| #[trigger] starts_in(marks, x) == starts_in(
                        old_marks,
                        x,
                    ) by {}
                }
                if delta < self.min[counter] {
                    self.min.set(counter, delta);
                }
                if delta > self.max[counter] {
                    self.max.set(counter, delta);
                }
                let sum: u64 = self.sum[counter];
                self.sum.set(counter, sum + delta);
                self.sums.set(counter, all);
                self.marks = Ghost(marks);
                proof {
                    assert forall|c: int| #![trigger self.levels@[c]] 0 <= c < n implies
                        self.levels@[c]@ == entries(marks, c, b) by {
                        assert(entries(marks, c, b) =~= entries(old_marks, c, b));
                    }
                    assert(density(marks, b) =~= density(old_marks, b));
                }
                true
            },
        }
    }

    /// Counts an instruction. Returns whether there are not too many.
    pub fn start(&mut self, bucket: u64) -> (ok: bool)
        requires
            old(self).wf(),
        ensures
            ok == countable(old(self)@.push(Mark::Start { bucket }), old(self).counters()),
            ok ==> {
                &&& final(self).wf()
                &&& final(self)@ == old(self)@.push(Mark::Start { bucket })
                &&& final(self).counters() == old(self).counters()
            },
    {
        let ghost mark = Mark::Start { bucket };
        let ghost old_marks = self@;
        let ghost marks = old_marks.push(mark);
        let ghost n = self.counters();
        proof {
            assert(marks.drop_last() =~= old_marks);
            assert forall|c: int| 0 <= c < n implies #[trigger] deltas_of(marks, c) == deltas_of(
                old_marks,
                c,
            ) by {
                assert(deltas_of(marks, c) =~= deltas_of(old_marks, c));
            }
        }
        if self.starts >= u32::MAX as u64 {
            return false;
        }
        self.flush_buckets(bucket);
        let ghost b = self.bucket as int;
        proof {
            assert(reached(marks) == b);
            lemma_bucket_within(old_marks, 0, b);
            assert forall|c: int, x: int| 0 <= c < n implies #[trigger] deltas_in(marks, c, x)
                == deltas_in(old_marks, c, x) by {
                assert(deltas_in(marks, c, x) =~= deltas_in(old_marks, c, x));
            }
        }
        self.count = self.count + 1;
        self.starts = self.starts + 1;
        self.marks = Ghost(marks);
        proof {
            assert forall|c: int| #![trigger self.levels@[c]] 0 <= c < n implies self.levels@[c]@
                == entries(marks, c, b) by {
                assert(entries(marks, c, b) =~= entries(old_marks, c, b));
            }
            assert(density(marks, b) =~= density(old_marks, b));
        }
        true
    }

    /// Flush the final (partial) bucket: the level-0 entries of each counter,
    /// the instruction counts, and the number of instructions.
    pub fn finish(self) -> (res: (Vec<Vec<MipmapEntry>>, Vec<u32>, u64))
        requires
            self.wf(),
            reached(self@) < u64::MAX,
        ensures
            res.0@.len() == self.counters(),
            forall|c: int|
                0 <= c < self.counters() ==> (#[trigger] res.0@[c])@ == entries(
                    self@,
                    c,
                    reached(self@) + 1,
                ),
            res.1@ == density(self@, reached(self@) + 1),
            res.2 == starts_of(self@),
            countable(self@, self.counters()),
    {
        let mut t = self;
        t.close_bucket();
        (t.levels, t.density, t.starts)
    }
}

} // verus!
