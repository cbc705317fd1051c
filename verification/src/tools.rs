//! What the tools of the server return for their parameters.

use vstd::prelude::*;
use crate::analysis::{
    analyze_performance, counter_growth, counts_of, covers, slowest_first, spans_within, totals_of,
    CounterGrowth, CounterGrowthView, Performance,
};
use crate::commands::{
    cmd_timeline, nothing_found, say_load_failed, say_nothing_found, timeline_refusal,
};
use crate::cpu::trace::{CpuTrace, CpuTraceView};
use crate::error::TraceError;
use crate::query::{
    buffer_outputs, buffers_at, counter_values, find_counters_by_name, law_matching, opt_text,
    pointer_pairs, pointer_pairs_of, sample_cycles, sample_cycles_of, stage_text, BufferOutput,
    BufferOutputView, PointerPair, PointerPairView, TimelineOutput,
};
use crate::rpc::{missing_parameter, missing_text, number_parameter};
use crate::wire::views;

verus! {

/// All buffers at a cycle. Without a cycle, what to tell the client.
pub fn tool_state_at_cycle(trace: &CpuTrace, cycle: Option<u64>) -> (res: Result<
    (u32, Vec<BufferOutput>),
    String,
>)
    requires
        trace.wf(),
    ensures
        match cycle {
            Some(c) => {
                &&& res is Ok
                &&& res->Ok_0.0 == c as u32
                &&& views(res->Ok_0.1@) == buffer_outputs(
                    trace@,
                    trace@.chosen_buffers(None),
                    c as u32,
                )
            },
            None => res is Err && res->Err_0@ == missing_text("cycle"@),
        },
{
    let c: u32 = match number_parameter("cycle", cycle) {
        Ok(c) => c,
        Err(s) => return Err(s),
    };
    Ok((c, buffers_at(trace, None, c)))
}

/// The lives of the instructions with an ID. Where there is none, what to tell
/// the client.
pub fn tool_entity_timeline(trace: &CpuTrace, entity_id: Option<u64>) -> (res: Result<
    (u32, Vec<TimelineOutput>),
    String,
>)
    requires
        trace.wf(),
    ensures
        match entity_id {
            Some(id) => match trace@.entity_timeline(id as u32) {
                Ok(t) => res is Ok && res->Ok_0.0 == id as u32 && views(res->Ok_0.1@) == t,
                Err(e) => res is Err && res->Err_0@ == timeline_refusal(e, id as u32),
            },
            None => res is Err && res->Err_0@ == missing_text("entity_id"@),
        },
{
    let id: u32 = match number_parameter("entity_id", entity_id) {
        Ok(id) => id,
        Err(s) => return Err(s),
    };
    match cmd_timeline(trace, id) {
        Ok(t) => Ok((id, t)),
        Err(s) => Err(s),
    }
}

// ---------------------------------------------------------------------------
// Counters.

/// What a counter did over a range, and its values at cycles of the range.
#[derive(Debug)]
pub struct CounterReport {
    pub growth: CounterGrowth,
    /// Cycles and values.
    pub values: Vec<(u32, u64)>,
}

/// What a `CounterReport` says.
#[verifier::ext_equal]
pub struct CounterReportView {
    pub growth: CounterGrowthView,
    pub values: Seq<(u32, u64)>,
}

impl View for CounterReport {
    type V = CounterReportView;

    open spec fn view(&self) -> CounterReportView {
        CounterReportView { growth: self.growth@, values: self.values@ }
    }
}

/// Some counters over a range of cycles.
#[derive(Debug)]
pub struct CounterReports {
    pub start_cycle: u32,
    pub end_cycle: u32,
    /// The length of the range: 0 where it ends before it starts.
    pub range: u32,
    pub counters: Vec<CounterReport>,
}

/// What some counters did over a range.
pub open spec fn counter_reports(
    t: CpuTraceView,
    counters: Seq<usize>,
    start: u32,
    end: u32,
) -> Seq<CounterReportView> {
    counters.map_values(
        |c: usize|
            CounterReportView {
                growth: t.counter_growth(c as int, start, end),
                values: sample_cycles_of(start, end).map_values(
                    |x: int| (x as u32, t.counter_value(c as int, x as u32)),
                ),
            },
    )
}

/// Whether some counters can be looked up at the ends of a range and at the
/// cycles at which it is sampled.
pub open spec fn reportable(t: CpuTraceView, counters: Seq<usize>, start: u32, end: u32) -> bool {
    forall|i: int, x: u32|
        0 <= i < counters.len() && (x == start || x == end || sample_cycles_of(
            start,
            end,
        ).contains(x as int)) ==> #[trigger] t.known_at(counters[i] as int, x)
}

fn report_counters(trace: &CpuTrace, chosen: &Vec<usize>, start: u32, end: u32) -> (r: Vec<
    CounterReport,
>)
    requires
        reportable(trace@, chosen@, start, end),
        forall|k: int| 0 <= k < chosen@.len() ==> #[trigger] chosen@[k] < trace@.counters.len(),
    ensures
        views(r@) == counter_reports(trace@, chosen@, start, end),
{
    let cycles = sample_cycles(start, end);
    let ghost want = counter_reports(trace@, chosen@, start, end);
    proof {
        let ints = cycles@.map_values(|c: u32| c as int);
        assert(ints.len() == cycles@.len());
        assert forall|k: int| 0 <= k < cycles@.len() implies #[trigger] sample_cycles_of(
            start,
            end,
        )[k] == cycles@[k] by {
            assert(ints[k] == cycles@[k] as int);
        }
    }
    let mut r: Vec<CounterReport> = Vec::new();
    let mut i: usize = 0;
    while i < chosen.len()
        invariant
            i <= chosen@.len(),
            reportable(trace@, chosen@, start, end),
            forall|k: int|
                0 <= k < chosen@.len() ==> #[trigger] chosen@[k] < trace@.counters.len(),
            cycles@.len() == sample_cycles_of(start, end).len(),
            forall|k: int|
                0 <= k < cycles@.len() ==> #[trigger] sample_cycles_of(start, end)[k]
                    == cycles@[k],
            want == counter_reports(trace@, chosen@, start, end),
            views(r@) == want.take(i as int),
        decreases chosen@.len() - i,
    {
        let c: usize = chosen[i];
        assert forall|k: int| 0 <= k < cycles@.len() implies #[trigger] trace@.known_at(
            c as int,
            cycles@[k],
        ) by {
            assert(sample_cycles_of(start, end)[k] == cycles@[k]);
            assert(sample_cycles_of(start, end).contains(cycles@[k] as int));
            assert(trace@.known_at(chosen@[i as int] as int, cycles@[k]));
        }
        assert(trace@.known_at(chosen@[i as int] as int, start));
        assert(trace@.known_at(chosen@[i as int] as int, end));
        let o = CounterReport {
            growth: counter_growth(trace, c, start, end),
            values: counter_values(trace, c, &cycles),
        };
        assert(o@.values =~= want[i as int].values);
        let ghost before = views(r@);
        r.push(o);
        assert(views(r@) =~= before.push(o@));
        i = i + 1;
        assert(views(r@) =~= want.take(i as int));
    }
    assert(want.take(i as int) =~= want);
    r
}

/// The counters whose names hold a text, over a range of cycles. Where a
/// parameter is missing or no counter is found, what to tell the client.
pub fn tool_counter_values(
    trace: &CpuTrace,
    counter: Option<&str>,
    start_cycle: Option<u64>,
    end_cycle: Option<u64>,
) -> (res: Result<CounterReports, String>)
    requires
        match (opt_text(counter), start_cycle, end_cycle) {
            (Some(part), Some(start), Some(end)) => reportable(
                trace@,
                trace@.chosen_counters(Some(part)),
                start as u32,
                end as u32,
            ),
            _ => true,
        },
    ensures
        match (opt_text(counter), start_cycle, end_cycle) {
            (None, _, _) => res is Err && res->Err_0@ == missing_text("counter"@),
            (_, None, _) => res is Err && res->Err_0@ == missing_text("start_cycle"@),
            (_, _, None) => res is Err && res->Err_0@ == missing_text("end_cycle"@),
            (Some(part), Some(start), Some(end)) => {
                let (a, b) = (start as u32, end as u32);
                let chosen = trace@.chosen_counters(Some(part));
                if chosen.len() == 0 {
                    res is Err && res->Err_0@ == nothing_found("counters"@, Some(part))
                } else {
                    &&& res is Ok
                    &&& res->Ok_0.start_cycle == a
                    &&& res->Ok_0.end_cycle == b
                    &&& res->Ok_0.range == if b >= a {
                        b - a
                    } else {
                        0
                    }
                    &&& views(res->Ok_0.counters@) == counter_reports(trace@, chosen, a, b)
                }
            },
        },
{
    let part: &str = match counter {
        Some(p) => p,
        None => return Err(missing_parameter("counter")),
    };
    let start: u32 = match number_parameter("start_cycle", start_cycle) {
        Ok(c) => c,
        Err(s) => return Err(s),
    };
    let end: u32 = match number_parameter("end_cycle", end_cycle) {
        Ok(c) => c,
        Err(s) => return Err(s),
    };
    let chosen = find_counters_by_name(trace, Some(part));
    if chosen.len() == 0 {
        return Err(say_nothing_found("counters", Some(part)));
    }
    let names = trace.counter_names();
    let _count: usize = names.len();
    proof {
        assert(crate::summarize::counter_views(names@).len() == names@.len());
        law_matching(trace@.counter_texts(), Some(part@), trace@.counters.len() as int);
    }
    let range: u32 = if end >= start {
        end - start
    } else {
        0
    };
    Ok(
        CounterReports {
            start_cycle: start,
            end_cycle: end,
            range,
            counters: report_counters(trace, &chosen, start, end),
        },
    )
}

// ---------------------------------------------------------------------------
// Buffers.

/// A buffer at a cycle, with its pairs of pointers.
#[derive(Debug)]
pub struct BufferReport {
    pub buffer: BufferOutput,
    pub pointer_pairs: Vec<PointerPair>,
}

/// What a `BufferReport` says.
#[verifier::ext_equal]
pub struct BufferReportView {
    pub buffer: BufferOutputView,
    pub pointer_pairs: Seq<PointerPairView>,
}

impl View for BufferReport {
    type V = BufferReportView;

    open spec fn view(&self) -> BufferReportView {
        BufferReportView { buffer: self.buffer@, pointer_pairs: views(self.pointer_pairs@) }
    }
}

/// Buffers with their pairs of pointers.
pub open spec fn buffer_reports(buffers: Seq<BufferOutputView>) -> Seq<BufferReportView> {
    buffers.map_values(
        |b: BufferOutputView|
            BufferReportView {
                buffer: b,
                pointer_pairs: pointer_pairs_of(b.state.properties, 256),
            },
    )
}

/// The buffers whose names hold a text, at a cycle: `None` where there is none.
/// Where a parameter is missing, what to tell the client.
pub fn tool_buffer_occupancy(trace: &CpuTrace, buffer: Option<&str>, cycle: Option<u64>) -> (res:
    Result<Option<(u32, Vec<BufferReport>)>, String>)
    requires
        trace.wf(),
    ensures
        match (opt_text(buffer), cycle) {
            (None, _) => res is Err && res->Err_0@ == missing_text("buffer"@),
            (_, None) => res is Err && res->Err_0@ == missing_text("cycle"@),
            (Some(part), Some(c)) => {
                let chosen = trace@.chosen_buffers(Some(part));
                &&& res is Ok
                &&& res->Ok_0 is None <==> chosen.len() == 0
                &&& chosen.len() > 0 ==> ({
                    let (at, reports) = res->Ok_0->Some_0;
                    &&& at == c as u32
                    &&& views(reports@) == buffer_reports(
                        buffer_outputs(trace@, chosen, c as u32),
                    )
                })
            },
        },
{
    let part: &str = match buffer {
        Some(p) => p,
        None => return Err(missing_parameter("buffer")),
    };
    let c: u32 = match number_parameter("cycle", cycle) {
        Ok(c) => c,
        Err(s) => return Err(s),
    };
    let mut found = buffers_at(trace, Some(part), c);
    let ghost outputs = views(found@);
    assert(outputs.len() == found@.len());
    if found.len() == 0 {
        return Ok(None);
    }
    let ghost want = buffer_reports(outputs);
    let mut r: Vec<BufferReport> = Vec::new();
    let n: usize = found.len();
    while found.len() > 0
        invariant
            n == outputs.len(),
            found@.len() <= n,
            want == buffer_reports(outputs),
            forall|k: int|
                0 <= k < found@.len() ==> (#[trigger] found@[k])@ == outputs[n - found@.len() + k],
            views(r@) == want.take(n - found@.len()),
        decreases found@.len(),
    {
        let ghost i = n - found@.len();
        let buffer = found.remove(0);
        assert(buffer@ == outputs[i]);
        let pointer_pairs = pointer_pairs(&buffer.state.properties);
        assert(views(buffer.state.properties@) =~= buffer@.state.properties);
        let o = BufferReport { buffer, pointer_pairs };
        assert(o@ =~= want[i]);
        let ghost before = views(r@);
        r.push(o);
        assert(views(r@) =~= before.push(o@));
        assert(views(r@) =~= want.take(i + 1));
    }
    assert(want.take(n as int) =~= want);
    Ok(Some((c, r)))
}

// ---------------------------------------------------------------------------
// Performance.

/// A performance summary of a range of cycles. Where a parameter is missing,
/// the range is empty or its segments cannot be loaded, what to tell the
/// client.
pub fn tool_analyze_performance(
    trace: &CpuTrace,
    start_cycle: Option<u64>,
    end_cycle: Option<u64>,
) -> (res: Result<(u32, u32, Performance), String>)
    requires
        trace.wf(),
        match (start_cycle, end_cycle) {
            (Some(start), Some(end)) => trace@.analyzable(start as u32, end as u32),
            _ => true,
        },
    ensures
        match (start_cycle, end_cycle) {
            (None, _) => res is Err && res->Err_0@ == missing_text("start_cycle"@),
            (_, None) => res is Err && res->Err_0@ == missing_text("end_cycle"@),
            (Some(s), Some(e)) => {
                let (start, end) = (s as u32, e as u32);
                if start >= end {
                    res is Err && res->Err_0@ == "start_cycle must be less than end_cycle"@
                } else {
                    match trace@.loaded(trace@.segments_within(start, end), None) {
                        Err(e) => res is Err && res->Err_0@ == "failed to load segments: "@
                            + e.text(),
                        Ok(r) => {
                            &&& res is Ok
                            &&& res->Ok_0.0 == start
                            &&& res->Ok_0.1 == end
                            &&& ({
                                let p = res->Ok_0.2;
                                let spans = spans_within(
                                    r,
                                    start,
                                    end,
                                    r.instructions.len() as int,
                                );
                                &&& p.range_cycles == end - start
                                &&& p.instructions == counts_of(r.instructions, start, end)
                                &&& views(p.counters@) == Seq::new(
                                    trace@.counters.len(),
                                    |c: int| trace@.counter_growth(c, start, end),
                                )
                                &&& views(p.buffers@) == Seq::new(
                                    trace@.buffers.len(),
                                    |b: int| trace@.occupancies(b, start, end),
                                )
                                &&& covers(totals_of(p.stages@), spans, spans.len() as int)
                                &&& slowest_first(totals_of(p.stages@))
                                &&& forall|i: int|
                                    0 <= i < p.stages@.len() ==> (#[trigger] p.stages@[i]).name@
                                        == stage_text(
                                        trace@.ids.stage_names,
                                        p.stages@[i].total.stage,
                                    )
                            })
                        },
                    }
                }
            },
        },
{
    let start: u32 = match number_parameter("start_cycle", start_cycle) {
        Ok(c) => c,
        Err(s) => return Err(s),
    };
    let end: u32 = match number_parameter("end_cycle", end_cycle) {
        Ok(c) => c,
        Err(s) => return Err(s),
    };
    if start >= end {
        return Err(TraceError::EmptyRange.message());
    }
    match analyze_performance(trace, start, end) {
        Ok(p) => Ok((start, end, p)),
        Err(e) => Err(say_load_failed(&e)),
    }
}

} // verus!
