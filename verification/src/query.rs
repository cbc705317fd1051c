//! Questions about a CPU trace: which counters, which buffers, which
//! instructions, and what they did.

use vstd::prelude::*;
use vstd::string::StringExecFns;
use crate::cpu::buffers::buffer_at;
use crate::cpu::load::{LoadedView, SegmentLoadResult};
use crate::cpu::trace::{CpuTrace, CpuTraceView};
use crate::cpu::types::{
    empty_buffer, BufferState, BufferStateView, InstructionData, InstructionView, PropertyValue,
    PropertyValueView, RetireStatus, StageSpan,
};
use crate::error::TraceError;
use crate::numerals::{decimal, texts_of, to_decimal};
use crate::report::{contains_text, has_part};
use crate::wire::views;

verus! {

// ---------------------------------------------------------------------------
// Choosing by name.

/// Whether a name holds a text. Without a text, every name does.
pub open spec fn holds(name: Seq<char>, part: Option<Seq<char>>) -> bool {
    part matches Some(p) ==> has_part(name, p)
}

/// The numbers of those of the first `n` names that hold a text.
pub open spec fn matching(names: Seq<Seq<char>>, part: Option<Seq<char>>, n: int) -> Seq<usize>
    decreases n,
{
    if n <= 0 {
        Seq::empty()
    } else {
        let before = matching(names, part, n - 1);
        if holds(names[n - 1], part) {
            before.push((n - 1) as usize)
        } else {
            before
        }
    }
}

/// Exactly the names that hold the text are chosen, each once and in order.
pub proof fn law_matching(names: Seq<Seq<char>>, part: Option<Seq<char>>, n: int)
    requires
        0 <= n <= names.len(),
        n <= usize::MAX,
    ensures
        forall|i: int|
            0 <= i < matching(names, part, n).len() ==> {
                let k = #[trigger] matching(names, part, n)[i];
                k < n && holds(names[k as int], part)
            },
        forall|i: int, j: int|
            0 <= i < j < matching(names, part, n).len() ==> #[trigger] matching(
                names,
                part,
                n,
            )[i] < #[trigger] matching(names, part, n)[j],
        forall|k: int|
            0 <= k < n && #[trigger] holds(names[k], part) ==> matching(names, part, n).contains(k as usize),
    decreases n,
{
    if n > 0 {
        law_matching(names, part, n - 1);
        let before = matching(names, part, n - 1);
        let now = matching(names, part, n);
        assert forall|k: int|
            0 <= k < n && #[trigger] holds(names[k], part) implies now.contains(k as usize) by {
            if k < n - 1 {
                assert(before.contains(k as usize));
                let i = choose|i: int| 0 <= i < before.len() && before[i] == k as usize;
                assert(now[i] == k as usize);
            } else {
                assert(now[before.len() as int] == k as usize);
            }
        }
    }
}

/// A text that is looked for.
pub open spec fn opt_text(part: Option<&str>) -> Option<Seq<char>> {
    match part {
        Some(p) => Some(p@),
        None => None,
    }
}

fn is_chosen(name: &str, part: Option<&str>) -> (b: bool)
    ensures
        b == holds(name@, opt_text(part)),
{
    match part {
        Some(p) => contains_text(name, p),
        None => true,
    }
}

impl CpuTraceView {
    /// The names of the counters.
    pub open spec fn counter_texts(self) -> Seq<Seq<char>> {
        Seq::new(self.counters.len(), |i: int| self.counters[i].name)
    }

    /// The names of the buffers.
    pub open spec fn buffer_texts(self) -> Seq<Seq<char>> {
        Seq::new(self.buffers.len(), |i: int| self.buffers[i].name)
    }
}

/// The counters whose names hold a text: all of them where none is given.
pub fn find_counters_by_name(trace: &CpuTrace, part: Option<&str>) -> (r: Vec<usize>)
    ensures
        r@ == matching(
            trace@.counter_texts(),
            opt_text(part),
            trace@.counters.len() as int,
        ),
{
    let names = trace.counter_names();
    let ghost texts = trace@.counter_texts();
    let mut r: Vec<usize> = Vec::new();
    let mut i: usize = 0;
    while i < names.len()
        invariant
            i <= names@.len(),
            names@.len() == trace@.counters.len(),
            texts == trace@.counter_texts(),
            crate::summarize::counter_views(names@) == trace@.counters,
            r@ == matching(texts, opt_text(part), i as int),
        decreases names@.len() - i,
    {
        assert(trace@.counters[i as int] == crate::summarize::counter_views(names@)[i as int]);
        assert(texts[i as int] == names@[i as int].1@);
        if is_chosen(names[i].1.as_str(), part) {
            r.push(i);
        }
        i = i + 1;
    }
    r
}

/// The buffers whose names hold a text: all of them where none is given.
pub fn find_buffers_by_name(trace: &CpuTrace, part: Option<&str>) -> (r: Vec<usize>)
    ensures
        r@ == matching(trace@.buffer_texts(), opt_text(part), trace@.buffers.len() as int),
{
    let infos = trace.buffer_infos();
    let ghost texts = trace@.buffer_texts();
    let mut r: Vec<usize> = Vec::new();
    let mut i: usize = 0;
    while i < infos.len()
        invariant
            i <= infos@.len(),
            infos@.len() == trace@.buffers.len(),
            texts == trace@.buffer_texts(),
            crate::cpu::resolve::info_views(infos@) == trace@.buffers,
            r@ == matching(texts, opt_text(part), i as int),
        decreases infos@.len() - i,
    {
        assert(trace@.buffers[i as int] == crate::cpu::resolve::info_views(infos@)[i as int]);
        assert(texts[i as int] == infos@[i as int].name@);
        if is_chosen(infos[i].name.as_str(), part) {
            r.push(i);
        }
        i = i + 1;
    }
    r
}

// ---------------------------------------------------------------------------
// Sampling.

/// How many of `start`, `start + step`, `start + 2 * step` and so on do not go
/// beyond `end`.
pub open spec fn step_count(start: int, end: int, step: int) -> nat {
    if start <= end {
        ((end - start) / step + 1) as nat
    } else {
        0
    }
}

/// The steps from `start` to `end`, and `end` itself.
pub open spec fn steps_with_end(start: int, end: int, step: int) -> Seq<int> {
    let steps = Seq::new(step_count(start, end, step), |k: int| start + k * step);
    if steps.len() > 0 && steps.last() == end {
        steps
    } else {
        steps.push(end)
    }
}

/// How far apart samples are so that a span is divided in about `most`.
pub open spec fn step_for(span: int, most: int) -> int {
    if span > most {
        span / most
    } else {
        1
    }
}

/// The cycles at which a counter is sampled over a range: about 1000 of them.
/// The last is the end of the range.
pub open spec fn sample_cycles_of(start: u32, end: u32) -> Seq<int> {
    steps_with_end(
        start as int,
        end as int,
        step_for(
            if end >= start {
                end - start
            } else {
                0
            },
            1000,
        ),
    )
}

/// The rows of a table of `n` rows that are shown: about 200 of them, the last
/// among them.
pub open spec fn shown_rows_of(n: int) -> Seq<int> {
    if n == 0 {
        Seq::empty()
    } else {
        steps_with_end(0, n - 1, step_for(n, 200))
    }
}

/// Samples start at the start of a range, end at its end, rise, and are at
/// most a step apart.
pub proof fn law_steps(start: int, end: int, step: int)
    requires
        start <= end,
        step > 0,
    ensures
        steps_with_end(start, end, step).len() > 0,
        steps_with_end(start, end, step)[0] == start,
        steps_with_end(start, end, step).last() == end,
        forall|k: int|
            0 <= k < steps_with_end(start, end, step).len() - 1 ==> {
                let a = #[trigger] steps_with_end(start, end, step)[k];
                let b = steps_with_end(start, end, step)[k + 1];
                a < b <= a + step
            },
{
    let n = step_count(start, end, step);
    let all = steps_with_end(start, end, step);
    let q = (end - start) / step;
    lemma_quotient(end - start, step);
    assert(0 * step == 0) by (nonlinear_arith);
    assert(all[0] == start + 0 * step);
    assert forall|k: int| 0 <= k < all.len() - 1 implies {
        let a = #[trigger] all[k];
        let b = all[k + 1];
        a < b <= a + step
    } by {
        assert((k + 1) * step == k * step + step) by (nonlinear_arith);
        assert(all[k] == start + k * step);
        if k + 1 < n {
            assert(all[k + 1] == start + (k + 1) * step);
        } else {
            assert(k == q);
            assert(all[k + 1] == end);
        }
    }
}

/// Samples of a wide range are the whole of it divided by `most`, or a little
/// more, so there are between `most` and twice as many, and the end.
proof fn lemma_sample_count(range: int, most: int)
    requires
        range > most > 0,
    ensures
        range / most > 0,
        most <= range / (range / most) < 2 * most,
{
    let s = range / most;
    lemma_quotient(range, most);
    assert(s >= 1) by (nonlinear_arith)
        requires
            range < s * most + most,
            range > most > 0,
    ;
    let q = range / s;
    lemma_quotient(range, s);
    assert(most <= q < 2 * most) by (nonlinear_arith)
        requires
            q * s <= range < q * s + s,
            s * most <= range < s * most + most,
            s >= 1,
            most > 0,
    {
        assert(most * s < (q + 1) * s);
        assert(q * s < (s + 1) * most);
        assert((s + 1) * most <= 2 * most * s);
    }
}

/// A counter is sampled from the start of a range to its end, at rising
/// cycles: at every cycle of a range of up to 1000, else at steps of a
/// thousandth of the range, rounded down, and at the end.
pub proof fn law_sample_cycles(start: u32, end: u32)
    ensures
        ({
            let s = sample_cycles_of(start, end);
            let range = end - start;
            &&& start > end ==> s == seq![end as int]
            &&& start <= end ==> {
                &&& s[0] == start
                &&& s.last() == end
                &&& range <= 1000 ==> s.len() == range + 1 && forall|k: int|
                    0 <= k < s.len() ==> #[trigger] s[k] == start + k
                &&& range > 1000 ==> 1000 < s.len() <= 2001 && forall|k: int|
                    0 <= k < s.len() - 2 ==> #[trigger] s[k] + range / 1000 == s[k + 1]
                &&& range > 1000 ==> s[s.len() - 2] < end <= s[s.len() - 2] + range / 1000
            }
        }),
{
    let s = sample_cycles_of(start, end);
    let range = end - start;
    if start > end {
        assert(s =~= seq![end as int]);
    } else if range <= 1000 {
        assert(range / 1 == range);
        assert(s.len() == range + 1) by {
            assert(start + range * 1 == end);
        }
        law_steps(start as int, end as int, 1);
    } else {
        lemma_sample_count(range, 1000);
        let step = range / 1000;
        law_steps(start as int, end as int, step);
        assert forall|k: int| 0 <= k < s.len() - 2 implies #[trigger] s[k] + step == s[k + 1] by {
            assert((k + 1) * step == k * step + step) by (nonlinear_arith);
        }
        let k = s.len() - 2;
        assert(s[k] < s[k + 1] <= s[k] + step);
    }
}

/// All rows of a table of up to 200 are shown; of a longer one, rows at steps
/// of a two-hundredth of their number, rounded down, and the last.
pub proof fn law_shown_rows(n: int)
    requires
        n >= 0,
    ensures
        ({
            let s = shown_rows_of(n);
            &&& n == 0 ==> s.len() == 0
            &&& n > 0 ==> s[0] == 0 && s.last() == n - 1
            &&& n <= 200 ==> s.len() == n && forall|k: int|
                0 <= k < s.len() ==> #[trigger] s[k] == k
            &&& n > 200 ==> 200 <= s.len() <= 401 && forall|k: int|
                0 <= k < s.len() - 2 ==> #[trigger] s[k] + n / 200 == s[k + 1]
        }),
{
    let s = shown_rows_of(n);
    if 0 < n <= 200 {
        assert((n - 1) / 1 == n - 1);
        assert(0 + (n - 1) * 1 == n - 1);
        law_steps(0, n - 1, 1);
    } else if n > 200 {
        lemma_sample_count(n, 200);
        let step = n / 200;
        law_steps(0, n - 1, step);
        let (q, r) = ((n - 1) / step, n / step);
        lemma_quotient(n - 1, step);
        lemma_quotient(n, step);
        assert(r - 1 <= q <= r) by (nonlinear_arith)
            requires
                q * step <= n - 1 < q * step + step,
                r * step <= n < r * step + step,
                step >= 1,
        {
            assert(q * step < (r + 1) * step);
            assert((r - 1) * step < (q + 1) * step);
        }
        assert forall|k: int| 0 <= k < s.len() - 2 implies #[trigger] s[k] + step == s[k + 1] by {
            assert((k + 1) * step == k * step + step) by (nonlinear_arith);
        }
    }
}

proof fn lemma_quotient(a: int, b: int)
    requires
        a >= 0,
        b > 0,
    ensures
        0 <= a / b,
        (a / b) * b <= a < (a / b) * b + b,
{
    vstd::arithmetic::div_mod::lemma_fundamental_div_mod(a, b);
    assert((a / b) * b == b * (a / b)) by (nonlinear_arith);
    assert(a / b >= 0) by (nonlinear_arith)
        requires
            a >= 0,
            b > 0,
    ;
}

/// A quotient is known by the multiples around a number.
proof fn lemma_quotient_is(a: int, b: int, q: int)
    requires
        b > 0,
        q * b <= a < q * b + b,
    ensures
        a / b == q,
{
    vstd::arithmetic::div_mod::lemma_fundamental_div_mod_converse(a, b, q, a - q * b);
}

/// The cycles at which a counter is sampled over a range.
pub fn sample_cycles(start: u32, end: u32) -> (r: Vec<u32>)
    ensures
        r@.map_values(|c: u32| c as int) == sample_cycles_of(start, end),
{
    let range: u32 = if end >= start {
        end - start
    } else {
        0
    };
    let step: u32 = if range > 1000 {
        range / 1000
    } else {
        1
    };
    let ghost gap: int = step as int;
    let mut r: Vec<u32> = Vec::new();
    let mut cycle: u64 = start as u64;
    let ghost mut k: int = 0;
    assert(0 * gap == 0) by (nonlinear_arith);
    while cycle <= end as u64
        invariant
            step >= 1,
            gap == step,
            k >= 0,
            cycle == start + k * gap,
            cycle <= end + step || cycle == start,
            k > 0 ==> start + (k - 1) * gap <= end,
            r@.len() == k,
            forall|i: int| 0 <= i < k ==> #[trigger] r@[i] == start + i * gap,
        decreases end + step + 1 - cycle,
    {
        r.push(cycle as u32);
        cycle = cycle + step as u64;
        proof {
            assert((k + 1) * gap == k * gap + gap) by (nonlinear_arith);
            k = k + 1;
        }
    }
    proof {
        if k > 0 {
            assert((k - 1) * gap + gap == k * gap) by (nonlinear_arith);
            assert(start <= end) by (nonlinear_arith)
                requires
                    start + (k - 1) * gap <= end,
                    k >= 1,
                    gap >= 1,
            ;
            lemma_quotient_is(end - start, gap, k - 1);
        }
        assert(k == step_count(start as int, end as int, gap));
    }
    let last_missing = r.len() == 0 || r[r.len() - 1] != end;
    if last_missing {
        r.push(end);
    }
    assert(r@.map_values(|c: u32| c as int) =~= sample_cycles_of(start, end));
    r
}

/// The rows of a table of `n` rows that are shown.
pub fn shown_rows(n: usize) -> (r: Vec<usize>)
    ensures
        r@.map_values(|c: usize| c as int) == shown_rows_of(n as int),
{
    let mut r: Vec<usize> = Vec::new();
    if n == 0 {
        assert(r@.map_values(|c: usize| c as int) =~= shown_rows_of(n as int));
        return r;
    }
    let step: usize = if n > 200 {
        n / 200
    } else {
        1
    };
    let end: usize = n - 1;
    let ghost gap: int = step as int;
    let mut row: usize = 0;
    let ghost mut k: int = 0;
    assert(0 * gap == 0) by (nonlinear_arith);
    let mut done: bool = false;
    while !done
        invariant
            step >= 1,
            gap == step,
            end == n - 1,
            k >= 0,
            !done ==> row <= end && row == k * gap,
            done ==> k > 0 && (k - 1) * gap <= end < k * gap,
            r@.len() == k,
            forall|i: int| 0 <= i < k ==> #[trigger] r@[i] == i * gap,
        decreases n - row, (if done {
            0int
        } else {
            1int
        }),
    {
        r.push(row);
        proof {
            assert((k + 1) * gap == k * gap + gap) by (nonlinear_arith);
            k = k + 1;
        }
        if end - row < step {
            done = true;
        } else {
            row = row + step;
        }
    }
    proof {
        assert((k - 1) * gap + gap == k * gap) by (nonlinear_arith);
        lemma_quotient_is(end as int, gap, k - 1);
        assert(k == step_count(0, end as int, gap));
    }
    let last_missing = r[r.len() - 1] != end;
    if last_missing {
        r.push(end);
    }
    assert(r@.map_values(|c: usize| c as int) =~= shown_rows_of(n as int));
    r
}

/// The values of a counter at some cycles.
pub fn counter_values(trace: &CpuTrace, counter: usize, cycles: &Vec<u32>) -> (r: Vec<(u32, u64)>)
    requires
        forall|k: int|
            0 <= k < cycles@.len() ==> #[trigger] trace@.known_at(counter as int, cycles@[k]),
    ensures
        r@ == cycles@.map_values(|c: u32| (c, trace@.counter_value(counter as int, c))),
{
    let mut r: Vec<(u32, u64)> = Vec::new();
    let mut i: usize = 0;
    while i < cycles.len()
        invariant
            i <= cycles@.len(),
            forall|k: int|
                0 <= k < cycles@.len() ==> #[trigger] trace@.known_at(counter as int, cycles@[k]),
            r@.len() == i,
            forall|k: int|
                0 <= k < i ==> #[trigger] r@[k] == (
                    cycles@[k],
                    trace@.counter_value(counter as int, cycles@[k]),
                ),
        decreases cycles@.len() - i,
    {
        assert(trace@.known_at(counter as int, cycles@[i as int]));
        r.push((cycles[i], trace.counter_value_at(counter, cycles[i])));
        i = i + 1;
    }
    assert(r@ =~= cycles@.map_values(|c: u32| (c, trace@.counter_value(counter as int, c))));
    r
}

/// All cycles from `start` to `end`, both among them.
pub fn cycles_between(start: u32, end: u32) -> (r: Vec<u32>)
    ensures
        r@ == Seq::new(
            if start <= end {
                (end - start + 1) as nat
            } else {
                0
            },
            |k: int| (start + k) as u32,
        ),
{
    let mut r: Vec<u32> = Vec::new();
    let mut c: u64 = start as u64;
    while c <= end as u64
        invariant
            start <= c,
            c <= end + 1 || c == start,
            r@ == Seq::new((c - start) as nat, |k: int| (start + k) as u32),
        decreases end + 1 - c,
    {
        r.push(c as u32);
        c = c + 1;
        assert(r@ =~= Seq::new((c - start) as nat, |k: int| (start + k) as u32));
    }
    r
}

// ---------------------------------------------------------------------------
// Instructions.

/// The name of a stage: made of its number where it has none.
pub open spec fn stage_text(names: Seq<Seq<char>>, stage: u16) -> Seq<char> {
    if stage < names.len() {
        names[stage as int]
    } else {
        "stage_"@ + decimal(stage as nat)
    }
}

/// The name of a stage: made of its number where it has none.
pub fn stage_name(names: &[String], stage: u16) -> (s: String)
    ensures
        s@ == stage_text(texts_of(names@), stage),
{
    if (stage as usize) < names.len() {
        assert(texts_of(names@)[stage as int] == names@[stage as int]@);
        names[stage as usize].clone()
    } else {
        let mut s: String = "stage_".to_owned();
        s.append(to_decimal(stage as u64).as_str());
        s
    }
}

/// The stages of an instruction. What its range has beyond the list of all
/// stages is left out.
pub open spec fn spans_of(stages: Seq<StageSpan>, i: InstructionView) -> Seq<StageSpan> {
    let end = if i.stage_end <= stages.len() {
        i.stage_end as int
    } else {
        stages.len() as int
    };
    if i.stage_start < end {
        stages.subrange(i.stage_start as int, end)
    } else {
        Seq::empty()
    }
}

/// How many cycles lie between two.
pub open spec fn cycles_until(start: u32, end: u32) -> u32 {
    if end >= start {
        (end - start) as u32
    } else {
        0
    }
}

fn distance(start: u32, end: u32) -> (d: u32)
    ensures
        d == cycles_until(start, end),
{
    if end >= start {
        end - start
    } else {
        0
    }
}

/// A stage that an instruction went through.
#[derive(Debug)]
pub struct StageOutput {
    pub name: String,
    pub start_cycle: u32,
    pub end_cycle: u32,
    pub duration: u32,
}

/// What a `StageOutput` says.
#[verifier::ext_equal]
pub struct StageOutputView {
    pub name: Seq<char>,
    pub start_cycle: u32,
    pub end_cycle: u32,
    pub duration: u32,
}

impl View for StageOutput {
    type V = StageOutputView;

    open spec fn view(&self) -> StageOutputView {
        StageOutputView {
            name: self.name@,
            start_cycle: self.start_cycle,
            end_cycle: self.end_cycle,
            duration: self.duration,
        }
    }
}

/// The life of an instruction.
#[derive(Debug)]
pub struct TimelineOutput {
    pub entity_id: u32,
    pub disasm: String,
    pub first_cycle: u32,
    pub last_cycle: u32,
    pub total_latency: u32,
    pub retire_status: RetireStatus,
    pub stages: Vec<StageOutput>,
    pub tooltip: String,
}

/// What a `TimelineOutput` says.
#[verifier::ext_equal]
pub struct TimelineView {
    pub entity_id: u32,
    pub disasm: Seq<char>,
    pub first_cycle: u32,
    pub last_cycle: u32,
    pub total_latency: u32,
    pub retire_status: RetireStatus,
    pub stages: Seq<StageOutputView>,
    pub tooltip: Seq<char>,
}

impl View for TimelineOutput {
    type V = TimelineView;

    open spec fn view(&self) -> TimelineView {
        TimelineView {
            entity_id: self.entity_id,
            disasm: self.disasm@,
            first_cycle: self.first_cycle,
            last_cycle: self.last_cycle,
            total_latency: self.total_latency,
            retire_status: self.retire_status,
            stages: views(self.stages@),
            tooltip: self.tooltip@,
        }
    }
}

/// Stages with their names and durations.
pub open spec fn stage_outputs(spans: Seq<StageSpan>, names: Seq<Seq<char>>) -> Seq<
    StageOutputView,
> {
    spans.map_values(
        |s: StageSpan|
            StageOutputView {
                name: stage_text(names, s.stage_name_idx),
                start_cycle: s.start_cycle,
                end_cycle: s.end_cycle,
                duration: cycles_until(s.start_cycle, s.end_cycle),
            },
    )
}

/// The life of an instruction.
pub open spec fn timeline_of(
    stages: Seq<StageSpan>,
    names: Seq<Seq<char>>,
    i: InstructionView,
) -> TimelineView {
    TimelineView {
        entity_id: i.id,
        disasm: i.disasm,
        first_cycle: i.first_cycle,
        last_cycle: i.last_cycle,
        total_latency: cycles_until(i.first_cycle, i.last_cycle),
        retire_status: i.retire_status,
        stages: stage_outputs(spans_of(stages, i), names),
        tooltip: i.tooltip,
    }
}

/// The lives of those of the first `n` instructions that have an ID.
pub open spec fn timelines(r: LoadedView, names: Seq<Seq<char>>, entity: u32, n: int) -> Seq<
    TimelineView,
>
    decreases n,
{
    if n <= 0 {
        Seq::empty()
    } else {
        let before = timelines(r, names, entity, n - 1);
        if r.instructions[n - 1].id == entity {
            before.push(timeline_of(r.stages, names, r.instructions[n - 1]))
        } else {
            before
        }
    }
}

/// The life of an instruction shows all of its stages in their order, each
/// with its name and with as many cycles as lie between its start and its end,
/// and as many cycles in all as lie between its first and its last.
pub proof fn law_timeline(stages: Seq<StageSpan>, names: Seq<Seq<char>>, i: InstructionView)
    requires
        i.stage_start <= i.stage_end <= stages.len(),
    ensures
        ({
            let t = timeline_of(stages, names, i);
            &&& t.entity_id == i.id
            &&& t.retire_status == i.retire_status
            &&& i.first_cycle <= i.last_cycle ==> t.first_cycle + t.total_latency == t.last_cycle
            &&& t.first_cycle == i.first_cycle && t.last_cycle == i.last_cycle
            &&& t.stages.len() == i.stage_end - i.stage_start
            &&& forall|j: int|
                0 <= j < t.stages.len() ==> {
                    let s = stages[i.stage_start + j];
                    let o = #[trigger] t.stages[j];
                    &&& s.stage_name_idx < names.len() ==> o.name == names[s.stage_name_idx as int]
                    &&& o.start_cycle == s.start_cycle
                    &&& o.end_cycle == s.end_cycle
                    &&& s.start_cycle <= s.end_cycle ==> o.start_cycle + o.duration == o.end_cycle
                    &&& s.start_cycle > s.end_cycle ==> o.duration == 0
                }
        }),
{
}

/// The lives that are found for an ID are those of the instructions that have
/// it, each once and in their order.
pub proof fn law_timelines(r: LoadedView, names: Seq<Seq<char>>, entity: u32, n: int)
    requires
        0 <= n <= r.instructions.len(),
    ensures
        timelines(r, names, entity, n) == r.instructions.take(n).filter(
            |i: InstructionView| i.id == entity,
        ).map_values(|i: InstructionView| timeline_of(r.stages, names, i)),
    decreases n,
{
    reveal(Seq::filter);
    let f = |i: InstructionView| i.id == entity;
    let g = |i: InstructionView| timeline_of(r.stages, names, i);
    let some = r.instructions.take(n);
    if n > 0 {
        law_timelines(r, names, entity, n - 1);
        assert(some.drop_last() =~= r.instructions.take(n - 1));
        assert(some.last() == r.instructions[n - 1]);
        let before = r.instructions.take(n - 1).filter(f);
        if f(r.instructions[n - 1]) {
            assert(before.push(r.instructions[n - 1]).map_values(g) =~= before.map_values(g).push(
                g(r.instructions[n - 1]),
            ));
        }
    }
    assert(timelines(r, names, entity, n) =~= some.filter(f).map_values(g));
}

/// The stages of an instruction.
pub fn spans(stages: &Vec<StageSpan>, i: &InstructionData) -> (r: Vec<StageSpan>)
    ensures
        r@ == spans_of(stages@, i@),
{
    let mut r: Vec<StageSpan> = Vec::new();
    let first: u32 = i.stage_range.start;
    let last: u32 = i.stage_range.end;
    let n: usize = stages.len();
    let end: usize = if last as u64 <= n as u64 {
        last as usize
    } else {
        n
    };
    if first as u64 >= end as u64 {
        assert(r@ =~= spans_of(stages@, i@));
        return r;
    }
    let mut k: usize = first as usize;
    while k < end
        invariant
            first <= k <= end,
            end <= stages@.len(),
            r@ == stages@.subrange(first as int, k as int),
        decreases end - k,
    {
        r.push(stages[k]);
        k = k + 1;
        assert(r@ =~= stages@.subrange(first as int, k as int));
    }
    r
}

fn outputs_of(spans: &Vec<StageSpan>, names: &[String]) -> (r: Vec<StageOutput>)
    ensures
        views(r@) == stage_outputs(spans@, texts_of(names@)),
{
    let ghost want = stage_outputs(spans@, texts_of(names@));
    let mut r: Vec<StageOutput> = Vec::new();
    let mut i: usize = 0;
    while i < spans.len()
        invariant
            i <= spans@.len(),
            want == stage_outputs(spans@, texts_of(names@)),
            views(r@) == want.take(i as int),
        decreases spans@.len() - i,
    {
        let s = spans[i];
        let o = StageOutput {
            name: stage_name(names, s.stage_name_idx),
            start_cycle: s.start_cycle,
            end_cycle: s.end_cycle,
            duration: distance(s.start_cycle, s.end_cycle),
        };
        let ghost before = views(r@);
        r.push(o);
        assert(views(r@) =~= before.push(o@));
        i = i + 1;
        assert(views(r@) =~= want.take(i as int));
    }
    assert(want.take(i as int) =~= want);
    r
}

/// The lives of the instructions with an ID.
pub fn timelines_in(result: &SegmentLoadResult, names: &[String], entity: u32) -> (r: Vec<
    TimelineOutput,
>)
    ensures
        views(r@) == timelines(
            result@,
            texts_of(names@),
            entity,
            result@.instructions.len() as int,
        ),
{
    let ghost texts = texts_of(names@);
    let mut r: Vec<TimelineOutput> = Vec::new();
    let mut i: usize = 0;
    assert(views(r@) =~= timelines(result@, texts, entity, 0));
    while i < result.instructions.len()
        invariant
            i <= result.instructions@.len(),
            result@.instructions.len() == result.instructions@.len(),
            texts == texts_of(names@),
            views(r@) == timelines(result@, texts, entity, i as int),
        decreases result.instructions@.len() - i,
    {
        let inst = &result.instructions[i];
        assert(result@.instructions[i as int] == inst@);
        if inst.id == entity {
            let own = spans(&result.stages, inst);
            let t = TimelineOutput {
                entity_id: inst.id,
                disasm: inst.disasm.clone(),
                first_cycle: inst.first_cycle,
                last_cycle: inst.last_cycle,
                total_latency: distance(inst.first_cycle, inst.last_cycle),
                retire_status: inst.retire_status,
                stages: outputs_of(&own, names),
                tooltip: inst.tooltip.clone(),
            };
            assert(t@ =~= timeline_of(result@.stages, texts, inst@));
            let ghost before = views(r@);
            r.push(t);
            assert(views(r@) =~= before.push(t@));
        }
        i = i + 1;
    }
    r
}

/// The numbers of all segments.
pub open spec fn all_segments(n: nat) -> Seq<usize> {
    Seq::new(n, |i: int| i as usize)
}

impl CpuTraceView {
    /// The lives of the instructions with an ID, or why there is none.
    pub open spec fn entity_timeline(self, entity: u32) -> Result<Seq<TimelineView>, TraceError> {
        match self.loaded(all_segments(self.reader.table.len()), None) {
            Err(e) => Err(e),
            Ok(r) => {
                let found = timelines(r, self.ids.stage_names, entity, r.instructions.len() as int);
                if found.len() == 0 {
                    Err(TraceError::EntityNotFound)
                } else {
                    Ok(found)
                }
            },
        }
    }
}

/// The lives of the instructions with an ID.
pub fn entity_timeline(trace: &CpuTrace, entity: u32) -> (res: Result<
    Vec<TimelineOutput>,
    TraceError,
>)
    requires
        trace.wf(),
    ensures
        match trace@.entity_timeline(entity) {
            Ok(t) => res is Ok && views(res->Ok_0@) == t,
            Err(e) => res == Err::<Vec<TimelineOutput>, TraceError>(e),
        },
{
    let n: usize = trace.segment_count();
    let mut all: Vec<usize> = Vec::new();
    let mut i: usize = 0;
    while i < n
        invariant
            i <= n,
            all@ == all_segments(i as nat),
        decreases n - i,
    {
        all.push(i);
        i = i + 1;
        assert(all@ =~= all_segments(i as nat));
    }
    let result = match trace.load_segments(all.as_slice()) {
        Err(e) => return Err(e),
        Ok(r) => r,
    };
    let found = timelines_in(&result, trace.stage_names(), entity);
    assert(views(found@).len() == found@.len());
    if found.len() == 0 {
        return Err(TraceError::EntityNotFound);
    }
    Ok(found)
}

// ---------------------------------------------------------------------------
// Buffers.

impl CpuTraceView {
    /// A buffer at a cycle.
    pub open spec fn buffer_state(self, buffer: int, cycle: u32) -> BufferStateView {
        if buffer < self.buffers.len() {
            buffer_at(
                self.reader,
                self.buffers[buffer],
                self.ids.entities_storage_id,
                (cycle * self.period_ps) as u64,
            )
        } else {
            empty_buffer()
        }
    }
}

/// A buffer at a cycle.
#[derive(Debug)]
pub struct BufferOutput {
    pub name: String,
    pub occupied: usize,
    pub state: BufferState,
}

/// What a `BufferOutput` says.
#[verifier::ext_equal]
pub struct BufferOutputView {
    pub name: Seq<char>,
    pub occupied: nat,
    pub state: BufferStateView,
}

impl View for BufferOutput {
    type V = BufferOutputView;

    open spec fn view(&self) -> BufferOutputView {
        BufferOutputView {
            name: self.name@,
            occupied: self.occupied as nat,
            state: self.state@,
        }
    }
}

/// Some buffers at a cycle.
pub open spec fn buffer_outputs(t: CpuTraceView, buffers: Seq<usize>, cycle: u32) -> Seq<
    BufferOutputView,
> {
    buffers.map_values(
        |b: usize|
            BufferOutputView {
                name: t.buffers[b as int].name,
                occupied: t.buffer_state(b as int, cycle).slots.len(),
                state: t.buffer_state(b as int, cycle),
            },
    )
}

/// The buffers whose names hold a text, at a cycle.
pub fn buffers_at(trace: &CpuTrace, part: Option<&str>, cycle: u32) -> (r: Vec<BufferOutput>)
    requires
        trace.wf(),
    ensures
        views(r@) == buffer_outputs(
            trace@,
            matching(trace@.buffer_texts(), opt_text(part), trace@.buffers.len() as int),
            cycle,
        ),
{
    let chosen = find_buffers_by_name(trace, part);
    let infos = trace.buffer_infos();
    let count: usize = infos.len();
    let ghost want = buffer_outputs(trace@, chosen@, cycle);
    let mut r: Vec<BufferOutput> = Vec::new();
    let mut i: usize = 0;
    proof {
        assert(crate::cpu::resolve::info_views(infos@).len() == count);
        law_matching(trace@.buffer_texts(), opt_text(part), trace@.buffers.len() as int);
    }
    while i < chosen.len()
        invariant
            i <= chosen@.len(),
            trace.wf(),
            want == buffer_outputs(trace@, chosen@, cycle),
            crate::cpu::resolve::info_views(infos@) == trace@.buffers,
            forall|k: int| 0 <= k < chosen@.len() ==> #[trigger] chosen@[k] < infos@.len(),
            views(r@) == want.take(i as int),
        decreases chosen@.len() - i,
    {
        let b: usize = chosen[i];
        assert(trace@.buffers[b as int] == crate::cpu::resolve::info_views(infos@)[b as int]);
        let state = trace.buffer_state_at(b, cycle);
        assert(state@.slots.len() == state.slots@.len());
        let o = BufferOutput {
            name: infos[b].name.clone(),
            occupied: state.slots.len(),
            state,
        };
        let ghost before = views(r@);
        r.push(o);
        assert(views(r@) =~= before.push(o@));
        i = i + 1;
        assert(views(r@) =~= want.take(i as int));
    }
    assert(want.take(i as int) =~= want);
    r
}

/// The value of the last of the first `n` properties that has a role and a
/// pair ID, with its name.
pub open spec fn pointer_in(ps: Seq<PropertyValueView>, role: u8, pair_id: u8, n: int) -> Option<
    (Seq<char>, u64),
>
    decreases n,
{
    if n <= 0 {
        None
    } else if ps[n - 1].role == role && ps[n - 1].pair_id == pair_id {
        Some((ps[n - 1].name, ps[n - 1].value))
    } else {
        pointer_in(ps, role, pair_id, n - 1)
    }
}

/// A pair of a head and a tail pointer.
#[derive(Debug)]
pub struct PointerPair {
    pub pair_id: u8,
    pub head: (String, u64),
    pub tail: (String, u64),
}

/// What a `PointerPair` says.
#[verifier::ext_equal]
pub struct PointerPairView {
    pub pair_id: u8,
    pub head: (Seq<char>, u64),
    pub tail: (Seq<char>, u64),
}

impl View for PointerPair {
    type V = PointerPairView;

    open spec fn view(&self) -> PointerPairView {
        PointerPairView {
            pair_id: self.pair_id,
            head: (self.head.0@, self.head.1),
            tail: (self.tail.0@, self.tail.1),
        }
    }
}

/// The pairs of pointers with pair IDs below `n`, in the order of these.
pub open spec fn pointer_pairs_of(ps: Seq<PropertyValueView>, n: int) -> Seq<PointerPairView>
    decreases n,
{
    if n <= 0 {
        Seq::empty()
    } else {
        let before = pointer_pairs_of(ps, n - 1);
        let id = (n - 1) as u8;
        match (
            pointer_in(ps, 1, id, ps.len() as int),
            pointer_in(ps, 2, id, ps.len() as int),
        ) {
            (Some(head), Some(tail)) => before.push(PointerPairView { pair_id: id, head, tail }),
            _ => before,
        }
    }
}

fn find_pointer(ps: &Vec<PropertyValue>, role: u8, pair_id: u8) -> (r: Option<(String, u64)>)
    ensures
        match pointer_in(views(ps@), role, pair_id, ps@.len() as int) {
            Some(p) => r is Some && r->Some_0.0@ == p.0 && r->Some_0.1 == p.1,
            None => r is None,
        },
{
    let mut i: usize = ps.len();
    while i > 0
        invariant
            i <= ps@.len(),
            pointer_in(views(ps@), role, pair_id, ps@.len() as int) == pointer_in(
                views(ps@),
                role,
                pair_id,
                i as int,
            ),
        decreases i,
    {
        let p = &ps[i - 1];
        assert(views(ps@)[i - 1] == p@);
        if p.role == role && p.pair_id == pair_id {
            return Some((p.name.clone(), p.value));
        }
        i = i - 1;
    }
    None
}

/// The pairs of head and tail pointers among some properties.
pub fn pointer_pairs(ps: &Vec<PropertyValue>) -> (r: Vec<PointerPair>)
    ensures
        views(r@) == pointer_pairs_of(views(ps@), 256),
{
    let ghost all = views(ps@);
    let mut r: Vec<PointerPair> = Vec::new();
    let mut id: u16 = 0;
    assert(views(r@) =~= pointer_pairs_of(all, 0));
    while id < 256
        invariant
            id <= 256,
            all == views(ps@),
            all.len() == ps@.len(),
            views(r@) == pointer_pairs_of(all, id as int),
        decreases 256 - id,
    {
        let pair_id: u8 = id as u8;
        match (find_pointer(ps, 1, pair_id), find_pointer(ps, 2, pair_id)) {
            (Some(head), Some(tail)) => {
                let p = PointerPair { pair_id, head, tail };
                let ghost before = views(r@);
                r.push(p);
                assert(views(r@) =~= before.push(p@));
            },
            _ => {},
        }
        id = id + 1;
    }
    r
}

/// Whether one of some properties is a pointer.
pub fn has_pointers(ps: &Vec<PropertyValue>) -> (b: bool)
    ensures
        b == exists|i: int| 0 <= i < ps@.len() && 1 <= (#[trigger] ps@[i]).role <= 2,
{
    let mut i: usize = 0;
    while i < ps.len()
        invariant
            i <= ps@.len(),
            forall|k: int| 0 <= k < i ==> !(1 <= (#[trigger] ps@[k]).role <= 2),
        decreases ps@.len() - i,
    {
        if ps[i].role == 1 || ps[i].role == 2 {
            return true;
        }
        i = i + 1;
    }
    false
}

/// Whether a property is a pointer with a role and a pair ID.
pub open spec fn points(p: PropertyValueView, role: u8, pair_id: u8) -> bool {
    p.role == role && p.pair_id == pair_id
}

/// Whether the last of the first `n` properties that is a pointer with a role
/// and a pair ID has the given name and value.
#[verifier::opaque]
pub open spec fn last_pointer(
    ps: Seq<PropertyValueView>,
    n: int,
    role: u8,
    pair_id: u8,
    p: (Seq<char>, u64),
) -> bool {
    exists|i: int|
        0 <= i < n && #[trigger] points(ps[i], role, pair_id) && p == (ps[i].name, ps[i].value)
            && forall|j: int| i < j < n ==> !#[trigger] points(ps[j], role, pair_id)
}

/// Whether one of the first `n` properties is a pointer with a role and a pair
/// ID.
#[verifier::opaque]
pub open spec fn has_pointer(ps: Seq<PropertyValueView>, n: int, role: u8, pair_id: u8) -> bool {
    exists|i: int| 0 <= i < n && #[trigger] points(ps[i], role, pair_id)
}

proof fn lemma_pointer_in(ps: Seq<PropertyValueView>, role: u8, pair_id: u8, n: int)
    requires
        0 <= n <= ps.len(),
    ensures
        match pointer_in(ps, role, pair_id, n) {
            Some(p) => last_pointer(ps, n, role, pair_id, p),
            None => !has_pointer(ps, n, role, pair_id),
        },
    decreases n,
{
    reveal(last_pointer);
    reveal(has_pointer);
    if n > 0 {
        lemma_pointer_in(ps, role, pair_id, n - 1);
        if points(ps[n - 1], role, pair_id) {
            assert(ps[n - 1].name == pointer_in(ps, role, pair_id, n)->Some_0.0);
        } else if let Some(p) = pointer_in(ps, role, pair_id, n - 1) {
            let i = choose|i: int|
                0 <= i < n - 1 && #[trigger] points(ps[i], role, pair_id) && p == (
                    ps[i].name,
                    ps[i].value,
                ) && forall|j: int| i < j < n - 1 ==> !#[trigger] points(ps[j], role, pair_id);
            assert(points(ps[i], role, pair_id));
        }
    }
}

/// Every pair of pointers has a head, which is a property with role 1, and a
/// tail, which is one with role 2, both with the ID of the pair: of several the
/// last. Pairs come in ascending order of their IDs, and none that has both is
/// left out.
pub proof fn law_pointer_pairs(ps: Seq<PropertyValueView>, n: int)
    requires
        0 <= n <= 256,
    ensures
        ({
            let pairs = pointer_pairs_of(ps, n);
            let m = ps.len() as int;
            &&& forall|i: int, j: int|
                0 <= i < j < pairs.len() ==> (#[trigger] pairs[i]).pair_id < (
                #[trigger] pairs[j]).pair_id
            &&& forall|k: int|
                0 <= k < pairs.len() ==> {
                    let p = #[trigger] pairs[k];
                    &&& p.pair_id < n
                    &&& last_pointer(ps, m, 1, p.pair_id, p.head)
                    &&& last_pointer(ps, m, 2, p.pair_id, p.tail)
                }
            &&& forall|id: u8|
                id < n && #[trigger] has_pointer(ps, m, 1, id) && has_pointer(ps, m, 2, id)
                    ==> exists|k: int| 0 <= k < pairs.len() && (#[trigger] pairs[k]).pair_id == id
        }),
    decreases n,
{
    if n > 0 {
        law_pointer_pairs(ps, n - 1);
        let id = (n - 1) as u8;
        let m = ps.len() as int;
        let before = pointer_pairs_of(ps, n - 1);
        let pairs = pointer_pairs_of(ps, n);
        lemma_pointer_in(ps, 1, id, m);
        lemma_pointer_in(ps, 2, id, m);
        assert forall|x: u8|
            x < n && #[trigger] has_pointer(ps, m, 1, x) && has_pointer(
                ps,
                m,
                2,
                x,
            ) implies exists|k: int| 0 <= k < pairs.len() && (#[trigger] pairs[k]).pair_id == x by {
            if x < n - 1 {
                let k = choose|k: int|
                    0 <= k < before.len() && (#[trigger] before[k]).pair_id == x;
                assert(pairs[k] == before[k]);
            } else {
                assert(pairs[before.len() as int].pair_id == id);
            }
        }
    }
}

} // verus!
