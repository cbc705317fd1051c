//! Synthetic pipeline traces: what is recorded of instructions whose fate was
//! drawn beforehand.

use vstd::prelude::*;
use vstd::string::StringExecFns;
use crate::numerals::{decimal, texts_of, to_decimal};

verus! {

// ---------------------------------------------------------------------------
// Names.

/// The short names of the first stages.
pub open spec fn short_stages() -> Seq<Seq<char>> {
    seq![
        "Fe"@,
        "De"@,
        "Rn"@,
        "Ds"@,
        "Is"@,
        "Ex"@,
        "Cp"@,
        "Rt"@,
        "Wb"@,
        "Cm"@,
    ]
}

/// The name of a stage.
pub open spec fn stage_label(i: int) -> Seq<char> {
    if i < 10 {
        short_stages()[i]
    } else {
        "S"@ + decimal(i as nat)
    }
}

fn make_stage_label(i: usize) -> (s: String)
    ensures
        s@ == stage_label(i as int),
{
    let short: [&'static str; 10] = ["Fe", "De", "Rn", "Ds", "Is", "Ex", "Cp", "Rt", "Wb", "Cm"];
    if i < 10 {
        short[i].to_owned()
    } else {
        let mut s: String = "S".to_owned();
        s.append(to_decimal(i as u64).as_str());
        s
    }
}

/// The names of `n` stages.
pub fn stage_labels(n: usize) -> (r: Vec<String>)
    ensures
        texts_of(r@) == Seq::new(n as nat, |i: int| stage_label(i)),
{
    let ghost want = Seq::new(n as nat, |i: int| stage_label(i));
    let mut r: Vec<String> = Vec::new();
    let mut i: usize = 0;
    while i < n
        invariant
            i <= n,
            want == Seq::new(n as nat, |i: int| stage_label(i)),
            texts_of(r@) == want.take(i as int),
        decreases n - i,
    {
        let s = make_stage_label(i);
        let ghost before = texts_of(r@);
        r.push(s);
        assert(texts_of(r@) =~= before.push(s@));
        i = i + 1;
        assert(texts_of(r@) =~= want.take(i as int));
    }
    assert(want.take(i as int) =~= want);
    r
}

/// The names of the first counters.
pub open spec fn known_counters() -> Seq<Seq<char>> {
    seq![
        "committed_insns"@,
        "cycles"@,
        "retired_insns"@,
        "mispredicts"@,
        "dcache_misses"@,
        "icache_misses"@,
        "dtlb_misses"@,
        "itlb_misses"@,
        "rob_full_stalls"@,
        "iq_full_stalls"@,
        "dq_full_stalls"@,
        "lsq_full_stalls"@,
        "fetch_bubbles"@,
        "decode_stalls"@,
        "br_taken"@,
        "br_not_taken"@,
        "load_ops"@,
        "store_ops"@,
        "alu_ops"@,
        "fp_ops"@,
    ]
}

/// The name of a counter.
pub open spec fn counter_label(i: int) -> Seq<char> {
    if i < 20 {
        known_counters()[i]
    } else {
        "counter_"@ + decimal(i as nat)
    }
}

fn make_counter_label(i: usize) -> (s: String)
    ensures
        s@ == counter_label(i as int),
{
    let known: [&'static str; 20] = [
        "committed_insns",
        "cycles",
        "retired_insns",
        "mispredicts",
        "dcache_misses",
        "icache_misses",
        "dtlb_misses",
        "itlb_misses",
        "rob_full_stalls",
        "iq_full_stalls",
        "dq_full_stalls",
        "lsq_full_stalls",
        "fetch_bubbles",
        "decode_stalls",
        "br_taken",
        "br_not_taken",
        "load_ops",
        "store_ops",
        "alu_ops",
        "fp_ops",
    ];
    if i < 20 {
        known[i].to_owned()
    } else {
        let mut s: String = "counter_".to_owned();
        s.append(to_decimal(i as u64).as_str());
        s
    }
}

/// The names of `n` counters.
pub fn counter_labels(n: usize) -> (r: Vec<String>)
    ensures
        texts_of(r@) == Seq::new(n as nat, |i: int| counter_label(i)),
{
    let ghost want = Seq::new(n as nat, |i: int| counter_label(i));
    let mut r: Vec<String> = Vec::new();
    let mut i: usize = 0;
    while i < n
        invariant
            i <= n,
            want == Seq::new(n as nat, |i: int| counter_label(i)),
            texts_of(r@) == want.take(i as int),
        decreases n - i,
    {
        let s = make_counter_label(i);
        let ghost before = texts_of(r@);
        r.push(s);
        assert(texts_of(r@) =~= before.push(s@));
        i = i + 1;
        assert(texts_of(r@) =~= want.take(i as int));
    }
    assert(want.take(i as int) =~= want);
    r
}

// ---------------------------------------------------------------------------
// Steps.

/// One thing to record.
#[derive(Debug, Clone, Copy, PartialEq, Eq, Structural)]
pub enum Step {
    Begin { cycle: u64 },
    Count { counter: usize, delta: u64 },
    Fetch { entity: u32, pc: u64, inst_bits: u32 },
    Stage { entity: u32, stage: u8 },
    Retire { entity: u32 },
    Flush { entity: u32 },
    Depend { producer: u32, consumer: u32 },
    End,
}

/// What was drawn for an instruction.
#[derive(Debug)]
pub struct Fate {
    /// Whether it is flushed rather than retired.
    pub flushed: bool,
    /// How many cycles it stays in each stage behind the first that it
    /// reaches.
    pub stage_cycles: Vec<u64>,
    /// An instruction that it depends on.
    pub producer: Option<u32>,
}

/// What a `Fate` says.
#[verifier::ext_equal]
pub struct FateView {
    pub flushed: bool,
    pub stage_cycles: Seq<u64>,
    pub producer: Option<u32>,
}

impl View for Fate {
    type V = FateView;

    open spec fn view(&self) -> FateView {
        FateView {
            flushed: self.flushed,
            stage_cycles: self.stage_cycles@,
            producer: self.producer,
        }
    }
}

/// An instruction enters a stage in the cycle after `cycle` and stays for `n`
/// cycles.
pub open spec fn stay(entity: u32, stage: u8, cycle: int, n: int) -> Seq<Step>
    decreases n,
{
    if n <= 0 {
        Seq::empty()
    } else {
        stay(entity, stage, cycle, n - 1) + (if n == 1 {
            seq![
                Step::Begin { cycle: (cycle + 1) as u64 },
                Step::Stage { entity, stage },
                Step::End,
            ]
        } else {
            seq![Step::Begin { cycle: (cycle + n) as u64 }, Step::End]
        })
    }
}

/// The sum of the first `k` numbers.
pub open spec fn sum_to(ns: Seq<u64>, k: int) -> int
    decreases k,
{
    if k <= 0 {
        0
    } else {
        sum_to(ns, k - 1) + ns[k - 1]
    }
}

/// An instruction goes through the first `k` stages behind its first.
pub open spec fn walk(entity: u32, f: FateView, cycle: int, k: int) -> Seq<Step>
    decreases k,
{
    if k <= 0 {
        Seq::empty()
    } else {
        walk(entity, f, cycle, k - 1) + stay(
            entity,
            k as u8,
            cycle + sum_to(f.stage_cycles, k - 1),
            f.stage_cycles[k - 1] as int,
        )
    }
}

/// An instruction ends in a cycle of its own.
pub open spec fn end_steps(entity: u32, f: FateView, cycle: int) -> Seq<Step> {
    seq![
        Step::Begin { cycle: cycle as u64 },
        if f.flushed {
            Step::Flush { entity }
        } else {
            Step::Retire { entity }
        },
    ] + (match f.producer {
        Some(producer) => seq![Step::Depend { producer, consumer: entity }, Step::End],
        None => seq![Step::End],
    })
}

/// How many cycles an instruction takes behind the one of its fetch.
pub open spec fn cycles_of(f: FateView) -> int {
    sum_to(f.stage_cycles, f.stage_cycles.len() as int) + 1
}

/// The number of an entity: they are numbered modulo 2^32.
pub open spec fn entity_at(first: u32, k: int) -> u32 {
    ((first + k) % 0x1_0000_0000) as u32
}

/// The first cycle behind the first `k` instructions of a group.
pub open spec fn cycles_until(fates: Seq<FateView>, k: int) -> int
    decreases k,
{
    if k <= 0 {
        0
    } else {
        cycles_until(fates, k - 1) + cycles_of(fates[k - 1])
    }
}

/// The first `k` instructions of a group, one after the other.
pub open spec fn lives(fates: Seq<FateView>, first: u32, cycle: int, k: int) -> Seq<Step>
    decreases k,
{
    if k <= 0 {
        Seq::empty()
    } else {
        let f = fates[k - 1];
        let start = cycle + cycles_until(fates, k - 1);
        let entity = entity_at(first, k - 1);
        lives(fates, first, cycle, k - 1) + walk(
            entity,
            f,
            start,
            f.stage_cycles.len() as int,
        ) + end_steps(entity, f, start + cycles_of(f))
    }
}

/// The first `k` counters that grow.
pub open spec fn counts(deltas: Seq<u64>, k: int) -> Seq<Step>
    decreases k,
{
    if k <= 0 {
        Seq::empty()
    } else if deltas[k - 1] > 0 {
        counts(deltas, k - 1).push(
            Step::Count { counter: (k - 1) as usize, delta: deltas[k - 1] },
        )
    } else {
        counts(deltas, k - 1)
    }
}

/// The address of the first instruction.
pub const FIRST_PC: u64 = 0x8000_0000;

/// The bits of a NOP.
pub const NOP: u32 = 0x13;

/// The first `k` instructions of a group are fetched and enter the first
/// stage. `index` is the number of the first.
pub open spec fn fetches(first: u32, index: int, k: int) -> Seq<Step>
    decreases k,
{
    if k <= 0 {
        Seq::empty()
    } else {
        let entity = entity_at(first, k - 1);
        fetches(first, index, k - 1) + seq![
            Step::Fetch {
                entity,
                pc: (FIRST_PC + (index + (k - 1)) * 4) as u64,
                inst_bits: NOP,
            },
            Step::Stage { entity, stage: 0 },
        ]
    }
}

/// A group of instructions that are fetched in the cycle after `cycle`.
pub open spec fn group(
    deltas: Seq<u64>,
    fates: Seq<FateView>,
    first: u32,
    index: int,
    cycle: int,
) -> Seq<Step> {
    seq![Step::Begin { cycle: (cycle + 1) as u64 }] + counts(deltas, deltas.len() as int) + fetches(
        first,
        index,
        fates.len() as int,
    ) + seq![Step::End] + lives(fates, first, cycle + 1, fates.len() as int)
}

/// The last cycle of a group.
pub open spec fn group_end(fates: Seq<FateView>, cycle: int) -> int {
    cycle + 1 + cycles_until(fates, fates.len() as int)
}

proof fn lemma_sums(ns: Seq<u64>, i: int, k: int)
    requires
        i <= k,
    ensures
        sum_to(ns, i) <= sum_to(ns, k),
    decreases k - i,
{
    if i < k {
        lemma_sums(ns, i, k - 1);
    }
}

proof fn lemma_cycles(fates: Seq<FateView>, i: int, k: int)
    requires
        i <= k,
    ensures
        cycles_until(fates, i) <= cycles_until(fates, k),
    decreases k - i,
{
    if i < k {
        lemma_cycles(fates, i, k - 1);
        let ns = fates[k - 1].stage_cycles;
        lemma_sums(ns, 0, ns.len() as int);
    }
}

/// Adds the steps of a stay.
fn put_stay(out: &mut Vec<Step>, entity: u32, stage: u8, cycle: u64, n: u64)
    requires
        cycle + n <= u64::MAX,
    ensures
        final(out)@ == old(out)@ + stay(entity, stage, cycle as int, n as int),
{
    let mut d: u64 = 0;
    assert(out@ =~= old(out)@ + stay(entity, stage, cycle as int, 0));
    while d < n
        invariant
            d <= n,
            cycle + n <= u64::MAX,
            out@ == old(out)@ + stay(entity, stage, cycle as int, d as int),
        decreases n - d,
    {
        let ghost before = out@;
        out.push(Step::Begin { cycle: cycle + d + 1 });
        if d == 0 {
            out.push(Step::Stage { entity, stage });
        }
        out.push(Step::End);
        d = d + 1;
        assert(out@ =~= old(out)@ + stay(entity, stage, cycle as int, d as int));
    }
}

/// Adds the steps of an instruction behind its first stage. Returns its last
/// cycle.
fn put_life(out: &mut Vec<Step>, entity: u32, f: &Fate, cycle: u64) -> (last: u64)
    requires
        cycle + cycles_of(f@) <= u64::MAX,
    ensures
        last == cycle + cycles_of(f@),
        final(out)@ == old(out)@ + walk(
            entity,
            f@,
            cycle as int,
            f@.stage_cycles.len() as int,
        ) + end_steps(entity, f@, cycle + cycles_of(f@)),
{
    let n: usize = f.stage_cycles.len();
    let mut k: usize = 0;
    let mut c: u64 = cycle;
    assert(out@ =~= old(out)@ + walk(entity, f@, cycle as int, 0));
    while k < n
        invariant
            k <= n,
            n == f.stage_cycles@.len(),
            cycle + cycles_of(f@) <= u64::MAX,
            c == cycle + sum_to(f@.stage_cycles, k as int),
            out@ == old(out)@ + walk(entity, f@, cycle as int, k as int),
        decreases n - k,
    {
        proof {
            lemma_sums(f@.stage_cycles, k + 1, n as int);
        }
        let ghost before = out@;
        let stage: u8 = #[verifier::truncate] ((k + 1) as u8);
        put_stay(out, entity, stage, c, f.stage_cycles[k]);
        c = c + f.stage_cycles[k];
        k = k + 1;
        assert(out@ =~= old(out)@ + walk(entity, f@, cycle as int, k as int));
    }
    let ghost walked = out@;
    c = c + 1;
    out.push(Step::Begin { cycle: c });
    if f.flushed {
        out.push(Step::Flush { entity });
    } else {
        out.push(Step::Retire { entity });
    }
    match f.producer {
        Some(producer) => {
            out.push(Step::Depend { producer, consumer: entity });
        },
        None => {},
    }
    out.push(Step::End);
    assert(out@ =~= walked + end_steps(entity, f@, cycle + cycles_of(f@)));
    c
}

/// The views of some fates.
pub open spec fn fate_views(fates: Seq<Fate>) -> Seq<FateView> {
    fates.map_values(|f: Fate| f@)
}

/// What is recorded of a group of instructions that are fetched in the cycle
/// after `cycle`, and the last cycle of the group. `first` is the number of
/// the first entity and `index` that of the first instruction.
pub fn group_steps(
    deltas: &Vec<u64>,
    fates: &Vec<Fate>,
    first: u32,
    index: u64,
    cycle: u64,
) -> (r: (
    Vec<Step>,
    u64,
))
    requires
        group_end(fate_views(fates@), cycle as int) <= u64::MAX,
        FIRST_PC + (index + fates@.len()) * 4 <= u64::MAX,
    ensures
        r.0@ == group(deltas@, fate_views(fates@), first, index as int, cycle as int),
        r.1 == group_end(fate_views(fates@), cycle as int),
{
    let ghost fs = fate_views(fates@);
    let n: usize = fates.len();
    proof {
        lemma_cycles(fs, 0, n as int);
    }
    let mut out: Vec<Step> = Vec::new();
    out.push(Step::Begin { cycle: cycle + 1 });
    let ghost head = seq![Step::Begin { cycle: (cycle + 1) as u64 }];
    assert(out@ =~= head + counts(deltas@, 0));
    let mut i: usize = 0;
    while i < deltas.len()
        invariant
            i <= deltas@.len(),
            out@ == head + counts(deltas@, i as int),
        decreases deltas@.len() - i,
    {
        if deltas[i] > 0 {
            out.push(Step::Count { counter: i, delta: deltas[i] });
        }
        i = i + 1;
        assert(out@ =~= head + counts(deltas@, i as int));
    }
    let ghost counted = out@;
    let mut k: usize = 0;
    assert(out@ =~= counted + fetches(first, index as int, 0));
    while k < n
        invariant
            k <= n,
            n == fates@.len(),
            FIRST_PC + (index + fates@.len()) * 4 <= u64::MAX,
            out@ == counted + fetches(first, index as int, k as int),
        decreases n - k,
    {
        let entity: u32 = number(first, k);
        out.push(Step::Fetch { entity, pc: FIRST_PC + (index + k as u64) * 4, inst_bits: NOP });
        out.push(Step::Stage { entity, stage: 0 });
        k = k + 1;
        assert(out@ =~= counted + fetches(first, index as int, k as int));
    }
    out.push(Step::End);
    let ghost begun = out@;
    let mut c: u64 = cycle + 1;
    let mut j: usize = 0;
    assert(out@ =~= begun + lives(fs, first, cycle + 1, 0));
    while j < n
        invariant
            j <= n,
            n == fates@.len(),
            fs == fate_views(fates@),
            group_end(fs, cycle as int) <= u64::MAX,
            c == cycle + 1 + cycles_until(fs, j as int),
            out@ == begun + lives(fs, first, cycle + 1, j as int),
        decreases n - j,
    {
        proof {
            assert(fs[j as int] == fates@[j as int]@);
            lemma_cycles(fs, j + 1, n as int);
        }
        let entity: u32 = number(first, j);
        c = put_life(&mut out, entity, &fates[j], c);
        j = j + 1;
        assert(out@ =~= begun + lives(fs, first, cycle + 1, j as int));
    }
    assert(out@ =~= group(deltas@, fs, first, index as int, cycle as int));
    (out, c)
}

/// The number of an entity.
fn number(first: u32, k: usize) -> (e: u32)
    ensures
        e == entity_at(first, k as int),
{
    let low: u64 = (k as u64) % 0x1_0000_0000;
    let sum: u64 = first as u64 + low;
    let e: u32 = (sum % 0x1_0000_0000) as u32;
    assert(e == (first + k) % 0x1_0000_0000);
    e
}

// ---------------------------------------------------------------------------
// Laws.

/// The cycle in which some steps are at their end, where each cycle begins
/// after the one before has ended, later than that, and holds all that
/// happens in it.
pub open spec fn paced(steps: Seq<Step>, cycle: int) -> Option<(bool, int)>
    decreases steps.len(),
{
    if steps.len() == 0 {
        Some((false, cycle))
    } else {
        match paced(steps.drop_last(), cycle) {
            None => None,
            Some((inside, c)) => match steps.last() {
                Step::Begin { cycle: next } => if !inside && next > c {
                    Some((true, next as int))
                } else {
                    None
                },
                Step::End => if inside {
                    Some((false, c))
                } else {
                    None
                },
                _ => if inside {
                    Some((true, c))
                } else {
                    None
                },
            },
        }
    }
}

/// Steps that follow others.
spec fn paced_from(start: Option<(bool, int)>, steps: Seq<Step>) -> Option<(bool, int)>
    decreases steps.len(),
{
    if steps.len() == 0 {
        start
    } else {
        match paced_from(start, steps.drop_last()) {
            None => None,
            Some((inside, c)) => match steps.last() {
                Step::Begin { cycle: next } => if !inside && next > c {
                    Some((true, next as int))
                } else {
                    None
                },
                Step::End => if inside {
                    Some((false, c))
                } else {
                    None
                },
                _ => if inside {
                    Some((true, c))
                } else {
                    None
                },
            },
        }
    }
}

proof fn lemma_paced_join(a: Seq<Step>, b: Seq<Step>, cycle: int)
    ensures
        paced(a + b, cycle) == paced_from(paced(a, cycle), b),
    decreases b.len(),
{
    if b.len() == 0 {
        assert(a + b =~= a);
    } else {
        lemma_paced_join(a, b.drop_last(), cycle);
        assert((a + b).drop_last() =~= a + b.drop_last());
    }
}

proof fn lemma_paced_push(start: Option<(bool, int)>, b: Seq<Step>, s: Step)
    ensures
        paced_from(start, b.push(s)) == match paced_from(start, b) {
            None => None,
            Some((inside, c)) => match s {
                Step::Begin { cycle: next } => if !inside && next > c {
                    Some((true, next as int))
                } else {
                    None
                },
                Step::End => if inside {
                    Some((false, c))
                } else {
                    None
                },
                _ => if inside {
                    Some((true, c))
                } else {
                    None
                },
            },
        },
{
    assert(b.push(s).drop_last() =~= b);
}

proof fn lemma_three(c: int, a: u64, s: Step, t: Step)
    requires
        a > c,
        s is Stage || s is Retire || s is Flush,
        t is Depend,
    ensures
        paced_from(Some((false, c)), seq![Step::Begin { cycle: a }, s, Step::End]) == Some(
            (false, a as int),
        ),
        paced_from(Some((false, c)), seq![Step::Begin { cycle: a }, Step::End]) == Some(
            (false, a as int),
        ),
        paced_from(
            Some((false, c)),
            seq![Step::Begin { cycle: a }, s] + seq![t, Step::End],
        ) == Some((false, a as int)),
{
    let none = Seq::<Step>::empty();
    let start = Some((false, c));
    let b1 = none.push(Step::Begin { cycle: a });
    let b2 = b1.push(s);
    lemma_paced_push(start, none, Step::Begin { cycle: a });
    lemma_paced_push(start, b1, s);
    lemma_paced_push(start, b2, Step::End);
    lemma_paced_push(start, b1, Step::End);
    assert(b2.push(Step::End) =~= seq![Step::Begin { cycle: a }, s, Step::End]);
    assert(b1.push(Step::End) =~= seq![Step::Begin { cycle: a }, Step::End]);
    lemma_paced_push(start, b2, t);
    lemma_paced_push(start, b2.push(t), Step::End);
    assert(b2.push(t).push(Step::End) =~= seq![Step::Begin { cycle: a }, s] + seq![t, Step::End]);
}

proof fn lemma_from_join(start: Option<(bool, int)>, a: Seq<Step>, b: Seq<Step>)
    ensures
        paced_from(start, a + b) == paced_from(paced_from(start, a), b),
    decreases b.len(),
{
    if b.len() == 0 {
        assert(a + b =~= a);
    } else {
        lemma_from_join(start, a, b.drop_last());
        assert((a + b).drop_last() =~= a + b.drop_last());
    }
}

proof fn lemma_stay_paced(entity: u32, stage: u8, cycle: int, n: int)
    requires
        0 <= cycle,
        0 <= n,
        cycle + n <= u64::MAX,
    ensures
        paced_from(Some((false, cycle)), stay(entity, stage, cycle, n)) == Some(
            (false, cycle + n),
        ),
    decreases n,
{
    if n > 0 {
        lemma_stay_paced(entity, stage, cycle, n - 1);
        let any = Step::Depend { producer: entity, consumer: entity };
        lemma_three(cycle + n - 1, (cycle + n) as u64, Step::Stage { entity, stage }, any);
        let last = if n == 1 {
            seq![
                Step::Begin { cycle: (cycle + 1) as u64 },
                Step::Stage { entity, stage },
                Step::End,
            ]
        } else {
            seq![Step::Begin { cycle: (cycle + n) as u64 }, Step::End]
        };
        lemma_from_join(Some((false, cycle)), stay(entity, stage, cycle, n - 1), last);
    }
}

proof fn lemma_walk_paced(entity: u32, f: FateView, cycle: int, k: int)
    requires
        0 <= cycle,
        0 <= k <= f.stage_cycles.len(),
        cycle + sum_to(f.stage_cycles, k) <= u64::MAX,
    ensures
        paced_from(Some((false, cycle)), walk(entity, f, cycle, k)) == Some(
            (false, cycle + sum_to(f.stage_cycles, k)),
        ),
    decreases k,
{
    if k > 0 {
        lemma_walk_paced(entity, f, cycle, k - 1);
        lemma_sums(f.stage_cycles, 0, k - 1);
        let at = cycle + sum_to(f.stage_cycles, k - 1);
        let n = f.stage_cycles[k - 1] as int;
        lemma_stay_paced(entity, k as u8, at, n);
        lemma_from_join(
            Some((false, cycle)),
            walk(entity, f, cycle, k - 1),
            stay(entity, k as u8, at, n),
        );
    }
}

proof fn lemma_lives_paced(fates: Seq<FateView>, first: u32, cycle: int, k: int)
    requires
        0 <= cycle,
        0 <= k <= fates.len(),
        cycle + cycles_until(fates, k) <= u64::MAX,
    ensures
        paced_from(Some((false, cycle)), lives(fates, first, cycle, k)) == Some(
            (false, cycle + cycles_until(fates, k)),
        ),
    decreases k,
{
    if k > 0 {
        let f = fates[k - 1];
        let ns = f.stage_cycles;
        lemma_sums(ns, 0, ns.len() as int);
        lemma_cycles(fates, 0, k - 1);
        lemma_lives_paced(fates, first, cycle, k - 1);
        let start = cycle + cycles_until(fates, k - 1);
        let entity = entity_at(first, k - 1);
        let before = lives(fates, first, cycle, k - 1);
        let w = walk(entity, f, start, ns.len() as int);
        let e = end_steps(entity, f, start + cycles_of(f));
        lemma_walk_paced(entity, f, start, ns.len() as int);
        let end = if f.flushed {
            Step::Flush { entity }
        } else {
            Step::Retire { entity }
        };
        let producer = match f.producer {
            Some(p) => p,
            None => entity,
        };
        let depend = Step::Depend { producer, consumer: entity };
        lemma_three(start + cycles_of(f) - 1, (start + cycles_of(f)) as u64, end, depend);
        assert(f.producer is None ==> e =~= seq![
            Step::Begin { cycle: (start + cycles_of(f)) as u64 },
            end,
            Step::End,
        ]);
        lemma_from_join(Some((false, cycle)), before, w);
        lemma_from_join(Some((false, cycle)), before + w, e);
    }
}

proof fn lemma_inside(c: int, deltas: Seq<u64>, i: int, first: u32, index: int, k: int)
    requires
        0 <= i,
        0 <= k,
    ensures
        paced_from(Some((true, c)), counts(deltas, i)) == Some((true, c)),
        paced_from(Some((true, c)), fetches(first, index, k)) == Some((true, c)),
    decreases i, k,
{
    if i > 0 {
        lemma_inside(c, deltas, i - 1, first, index, k);
        lemma_paced_push(
            Some((true, c)),
            counts(deltas, i - 1),
            Step::Count { counter: (i - 1) as usize, delta: deltas[i - 1] },
        );
    } else if k > 0 {
        lemma_inside(c, deltas, i, first, index, k - 1);
        let entity = entity_at(first, k - 1);
        let before = fetches(first, index, k - 1);
        let a = Step::Fetch {
            entity,
            pc: (FIRST_PC + (index + (k - 1)) * 4) as u64,
            inst_bits: NOP,
        };
        let b = Step::Stage { entity, stage: 0 };
        lemma_paced_push(Some((true, c)), before, a);
        lemma_paced_push(Some((true, c)), before.push(a), b);
        assert(before.push(a).push(b) =~= before + seq![a, b]);
    }
}

/// The cycles of a group follow each other, each later than the one before,
/// and everything is recorded inside a cycle. The group ends in the cycle that
/// it says.
pub proof fn law_group_paced(
    deltas: Seq<u64>,
    fates: Seq<FateView>,
    first: u32,
    index: int,
    cycle: int,
)
    requires
        0 <= cycle,
        group_end(fates, cycle) <= u64::MAX,
    ensures
        paced(group(deltas, fates, first, index, cycle), cycle) == Some(
            (false, group_end(fates, cycle)),
        ),
{
    let n = fates.len() as int;
    let none = Seq::<Step>::empty();
    lemma_cycles(fates, 0, n);
    let c = cycle + 1;
    let begin = seq![Step::Begin { cycle: c as u64 }];
    let a = counts(deltas, deltas.len() as int);
    let b = fetches(first, index, n);
    let l = lives(fates, first, c, n);
    assert(paced(none, cycle) == Some((false, cycle)));
    assert(begin.drop_last() =~= none);
    assert(paced(begin, cycle) == Some((true, c)));
    lemma_inside(c, deltas, deltas.len() as int, first, index, n);
    lemma_paced_join(begin, a, cycle);
    lemma_paced_join(begin + a, b, cycle);
    let end = seq![Step::End];
    assert(end.drop_last() =~= none);
    lemma_paced_join(begin + a + b, end, cycle);
    assert(paced_from(Some((true, c)), none) == Some((true, c)));
    lemma_paced_join(begin + a + b + end, l, cycle);
    lemma_lives_paced(fates, first, c, n);
}

// ---------------------------------------------------------------------------
// What a group records.

/// Every counter that grows is counted with its growth, and no other.
pub proof fn law_counts(deltas: Seq<u64>, k: int)
    requires
        0 <= k <= deltas.len(),
        k <= usize::MAX,
    ensures
        forall|c: int|
            0 <= c < k && (#[trigger] deltas[c]) > 0 ==> counts(deltas, k).contains(
                Step::Count { counter: c as usize, delta: deltas[c] },
            ),
        forall|i: int|
            0 <= i < counts(deltas, k).len() ==> {
                let s = #[trigger] counts(deltas, k)[i];
                &&& s is Count
                &&& s->counter < k
                &&& s->delta > 0
                &&& s->delta == deltas[s->counter as int]
            },
    decreases k,
{
    if k > 0 {
        law_counts(deltas, k - 1);
        let before = counts(deltas, k - 1);
        let now = counts(deltas, k);
        assert forall|c: int| 0 <= c < k && (#[trigger] deltas[c]) > 0 implies now.contains(
            Step::Count { counter: c as usize, delta: deltas[c] },
        ) by {
            let s = Step::Count { counter: c as usize, delta: deltas[c] };
            if c < k - 1 {
                let i = choose|i: int| 0 <= i < before.len() && before[i] == s;
                assert(now[i] == s);
            } else {
                assert(now[before.len() as int] == s);
            }
        }
        assert forall|i: int| 0 <= i < now.len() implies {
            let s = #[trigger] now[i];
            &&& s is Count
            &&& s->counter < k
            &&& s->delta > 0
            &&& s->delta == deltas[s->counter as int]
        } by {
            if i < before.len() {
                assert(now[i] == before[i]);
            }
        }
    }
}

/// The instructions of a group are fetched in their order, four bytes apart,
/// and each enters the first stage right after its fetch. They are numbered
/// one after the other, modulo 2^32.
pub proof fn law_fetches(first: u32, index: int, k: int, j: int)
    requires
        0 <= j < k,
        0 <= index,
        0x8000_0000 + (index + k) * 4 <= u64::MAX,
    ensures
        fetches(first, index, k).len() == 2 * k,
        fetches(first, index, k)[2 * j] matches Step::Fetch { entity, pc, inst_bits } && entity == (
        first + j) % 0x1_0000_0000 && pc == 0x8000_0000 + 4 * (index + j) && inst_bits == 0x13,
        fetches(first, index, k)[2 * j + 1] matches Step::Stage { entity, stage } && entity == (
        first + j) % 0x1_0000_0000 && stage == 0,
    decreases k,
{
    if j < k - 1 {
        law_fetches(first, index, k - 1, j);
        let before = fetches(first, index, k - 1);
        assert(fetches(first, index, k)[2 * j] == before[2 * j]);
        assert(fetches(first, index, k)[2 * j + 1] == before[2 * j + 1]);
    } else if k > 1 {
        law_fetches(first, index, k - 1, 0);
    } else {
        assert(fetches(first, index, 0).len() == 0);
    }
}

/// A stay of `n` cycles takes the `n` cycles after the given one: in the first
/// of them the stage is entered, and nothing else is recorded.
pub proof fn law_stay(entity: u32, stage: u8, cycle: int, n: int)
    requires
        n > 0,
        0 <= cycle,
        cycle + n <= u64::MAX,
    ensures
        ({
            let s = stay(entity, stage, cycle, n);
            &&& s.len() == 2 * n + 1
            &&& s[0] == (Step::Begin { cycle: (cycle + 1) as u64 })
            &&& s[1] == (Step::Stage { entity, stage })
            &&& s[2] == Step::End
            &&& forall|d: int|
                #![trigger s[2 * d + 1]]
                1 <= d < n ==> s[2 * d + 1] == (Step::Begin { cycle: (cycle + d + 1) as u64 })
                    && s[2 * d + 2] == Step::End
        }),
    decreases n,
{
    if n > 1 {
        law_stay(entity, stage, cycle, n - 1);
        let before = stay(entity, stage, cycle, n - 1);
        let s = stay(entity, stage, cycle, n);
        assert forall|d: int|
            #![trigger s[2 * d + 1]]
            1 <= d < n implies s[2 * d + 1] == (Step::Begin { cycle: (cycle + d + 1) as u64 })
            && s[2 * d + 2] == Step::End by {
            if d < n - 1 {
                assert(s[2 * d + 1] == before[2 * d + 1]);
                assert(s[2 * d + 2] == before[2 * d + 2]);
            }
        }
    } else {
        assert(stay(entity, stage, cycle, 0).len() == 0);
    }
}

/// An instruction ends in one cycle of its own: it is flushed if that is its
/// fate, else retired, and it is the consumer of what it depends on.
pub proof fn law_end_steps(entity: u32, f: FateView, cycle: int)
    ensures
        ({
            let s = end_steps(entity, f, cycle);
            &&& s[0] == (Step::Begin { cycle: cycle as u64 })
            &&& f.flushed ==> s[1] == (Step::Flush { entity })
            &&& !f.flushed ==> s[1] == (Step::Retire { entity })
            &&& s.last() == Step::End
            &&& f.producer is None ==> s.len() == 3
            &&& f.producer matches Some(p) ==> s.len() == 4 && (s[2] matches Step::Depend {
                producer,
                consumer,
            } && producer == p && consumer == entity)
        }),
{
}

/// Every instruction of a group ends as its fate says, and depends on what its
/// fate says: it is the consumer.
pub proof fn law_lives(fates: Seq<FateView>, first: u32, cycle: int, k: int, j: int)
    requires
        0 <= j < k <= fates.len(),
    ensures
        ({
            let s = lives(fates, first, cycle, k);
            let entity = entity_at(first, j);
            &&& entity == (first + j) % 0x1_0000_0000
            &&& fates[j].flushed ==> s.contains(Step::Flush { entity })
            &&& !fates[j].flushed ==> s.contains(Step::Retire { entity })
            &&& fates[j].producer matches Some(p) ==> s.contains(
                Step::Depend { producer: p, consumer: entity },
            )
        }),
    decreases k,
{
    let s = lives(fates, first, cycle, k);
    let entity = entity_at(first, j);
    let f = fates[k - 1];
    let before = lives(fates, first, cycle, k - 1);
    let start = cycle + cycles_until(fates, k - 1);
    let on = walk(entity_at(first, k - 1), f, start, f.stage_cycles.len() as int);
    let end = end_steps(entity_at(first, k - 1), f, start + cycles_of(f));
    assert(s == before + on + end);
    if j < k - 1 {
        law_lives(fates, first, cycle, k - 1, j);
        assert forall|x: Step| before.contains(x) implies #[trigger] s.contains(x) by {
            let i = choose|i: int| 0 <= i < before.len() && before[i] == x;
            assert(s[i] == x);
        }
    } else {
        let n = (before + on).len() as int;
        assert(s[n + 1] == end[1]);
        if f.producer is Some {
            assert(s[n + 2] == end[2]);
        }
    }
}

/// An instruction enters every stage in which it stays for at least a cycle.
pub proof fn law_walk(entity: u32, f: FateView, cycle: int, k: int, j: int)
    requires
        0 < j <= k <= f.stage_cycles.len(),
        f.stage_cycles[j - 1] > 0,
        0 <= cycle,
        cycle + sum_to(f.stage_cycles, k) <= u64::MAX,
    ensures
        walk(entity, f, cycle, k).contains(Step::Stage { entity, stage: j as u8 }),
    decreases k,
{
    let s = walk(entity, f, cycle, k);
    let x = Step::Stage { entity, stage: j as u8 };
    let before = walk(entity, f, cycle, k - 1);
    let ns = f.stage_cycles;
    lemma_sums(ns, 0, k - 1);
    if j < k {
        lemma_sums(ns, k - 1, k);
        law_walk(entity, f, cycle, k - 1, j);
        let i = choose|i: int| 0 <= i < before.len() && before[i] == x;
        assert(s[i] == x);
    } else {
        let start = cycle + sum_to(ns, k - 1);
        law_stay(entity, k as u8, start, ns[k - 1] as int);
        let here = stay(entity, k as u8, start, ns[k - 1] as int);
        assert(here[1] == x);
        assert(s[before.len() as int + 1] == x);
    }
}

} // verus!
