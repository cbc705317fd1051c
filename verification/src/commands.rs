//! What the commands of the inspector show of a trace.

use vstd::prelude::*;
use vstd::string::StringExecFns;
use crate::cpu::resolve::text_pairs;
use crate::cpu::trace::{CpuTrace, CpuTraceView};
use crate::error::TraceError;
use crate::numerals::{decimal, texts_of, to_decimal};
use crate::query::{
    buffer_outputs, buffers_at, counter_values, cycles_between, entity_timeline,
    find_buffers_by_name, find_counters_by_name, law_matching, matching, opt_text, BufferOutput,
    TimelineOutput,
};
use crate::report::{
    enum_infos, event_infos, list_enums, list_events, list_storages, parse_range, range_of,
    storage_infos, EnumInfo, EventInfo, StorageInfo,
};
use crate::wire::views;

verus! {

// ---------------------------------------------------------------------------
// The whole trace.

/// An overview of a trace.
#[derive(Debug)]
pub struct InfoOutput {
    pub version: String,
    /// The flags of the file header.
    pub flags: u64,
    pub segment_count: usize,
    pub total_instructions: u64,
    pub max_cycle: u32,
    pub period_ps: u64,
    pub metadata: Vec<(String, String)>,
    pub stage_names: Vec<String>,
    pub counters: Vec<String>,
    pub buffer_names: Vec<String>,
    pub storages: Vec<StorageInfo>,
    pub events: Vec<EventInfo>,
    pub enums: Vec<EnumInfo>,
}

/// Copies of some texts.
fn copy_texts(texts: &[String]) -> (r: Vec<String>)
    ensures
        texts_of(r@) == texts_of(texts@),
{
    let mut r: Vec<String> = Vec::new();
    let mut i: usize = 0;
    while i < texts.len()
        invariant
            i <= texts@.len(),
            texts_of(r@) == texts_of(texts@).take(i as int),
        decreases texts@.len() - i,
    {
        let s: String = texts[i].clone();
        let ghost before = texts_of(r@);
        r.push(s);
        assert(texts_of(r@) =~= before.push(s@));
        i = i + 1;
        assert(texts_of(r@) =~= texts_of(texts@).take(i as int));
    }
    assert(texts_of(r@) =~= texts_of(texts@));
    r
}

fn list_counter_names(trace: &CpuTrace) -> (r: Vec<String>)
    ensures
        texts_of(r@) == trace@.counter_texts(),
{
    let names = trace.counter_names();
    let ghost want = trace@.counter_texts();
    let mut r: Vec<String> = Vec::new();
    let mut i: usize = 0;
    while i < names.len()
        invariant
            i <= names@.len(),
            crate::summarize::counter_views(names@) == trace@.counters,
            want == trace@.counter_texts(),
            texts_of(r@) == want.take(i as int),
        decreases names@.len() - i,
    {
        assert(trace@.counters[i as int] == crate::summarize::counter_views(names@)[i as int]);
        let s: String = names[i].1.clone();
        let ghost before = texts_of(r@);
        r.push(s);
        assert(texts_of(r@) =~= before.push(s@));
        i = i + 1;
        assert(texts_of(r@) =~= want.take(i as int));
    }
    assert(texts_of(r@) =~= want);
    r
}

fn list_buffer_names(trace: &CpuTrace) -> (r: Vec<String>)
    ensures
        texts_of(r@) == trace@.buffer_texts(),
{
    let infos = trace.buffer_infos();
    let ghost want = trace@.buffer_texts();
    let mut r: Vec<String> = Vec::new();
    let mut i: usize = 0;
    while i < infos.len()
        invariant
            i <= infos@.len(),
            crate::cpu::resolve::info_views(infos@) == trace@.buffers,
            want == trace@.buffer_texts(),
            texts_of(r@) == want.take(i as int),
        decreases infos@.len() - i,
    {
        assert(trace@.buffers[i as int] == crate::cpu::resolve::info_views(infos@)[i as int]);
        let s: String = infos[i].name.clone();
        let ghost before = texts_of(r@);
        r.push(s);
        assert(texts_of(r@) =~= before.push(s@));
        i = i + 1;
        assert(texts_of(r@) =~= want.take(i as int));
    }
    assert(texts_of(r@) =~= want);
    r
}

/// File header, metadata, names and schema of a trace.
pub fn cmd_info(trace: &CpuTrace) -> (r: InfoOutput)
    ensures
        r.version@ == decimal(trace@.reader.header.version_major as nat) + "."@ + decimal(
            trace@.reader.header.version_minor as nat,
        ),
        r.flags == trace@.reader.header.flags,
        r.segment_count == trace@.reader.table.len(),
        r.total_instructions == match trace@.summary {
            Some(s) => s.total_instructions,
            None => 0,
        },
        r.max_cycle == trace@.max_cycle,
        r.period_ps == trace@.period_ps,
        text_pairs(r.metadata@) == trace@.metadata,
        texts_of(r.stage_names@) == trace@.ids.stage_names,
        texts_of(r.counters@) == trace@.counter_texts(),
        texts_of(r.buffer_names@) == trace@.buffer_texts(),
        views(r.storages@) == storage_infos(trace@.reader.schema),
        views(r.events@) == event_infos(trace@.reader.schema),
        views(r.enums@) == enum_infos(trace@.reader.schema),
{
    let info = trace.file_info();
    let schema = trace.schema();
    InfoOutput {
        version: info.version,
        flags: trace.reader().header().flags,
        segment_count: info.segment_count,
        total_instructions: info.total_instructions,
        max_cycle: info.max_cycle,
        period_ps: info.period_ps,
        metadata: info.metadata,
        stage_names: copy_texts(trace.stage_names()),
        counters: list_counter_names(trace),
        buffer_names: list_buffer_names(trace),
        storages: list_storages(schema),
        events: list_events(schema),
        enums: list_enums(schema),
    }
}

// ---------------------------------------------------------------------------
// Buffers.

impl CpuTraceView {
    /// The numbers of the buffers whose names hold a text.
    pub open spec fn chosen_buffers(self, part: Option<Seq<char>>) -> Seq<usize> {
        matching(self.buffer_texts(), part, self.buffers.len() as int)
    }

    /// The numbers of the counters whose names hold a text.
    pub open spec fn chosen_counters(self, part: Option<Seq<char>>) -> Seq<usize> {
        matching(self.counter_texts(), part, self.counters.len() as int)
    }
}

/// All buffers at a cycle.
pub fn cmd_state(trace: &CpuTrace, cycle: u32) -> (r: Vec<BufferOutput>)
    requires
        trace.wf(),
    ensures
        views(r@) == buffer_outputs(trace@, trace@.chosen_buffers(None), cycle),
{
    buffers_at(trace, None, cycle)
}

/// What is said where no name holds a text.
pub open spec fn nothing_found(what: Seq<char>, part: Option<Seq<char>>) -> Seq<char> {
    match part {
        Some(p) => "no "@ + what + " matching '"@ + p + "'"@,
        None => "no "@ + what + " in trace"@,
    }
}

/// Says that no name holds a text.
pub(crate) fn say_nothing_found(what: &str, part: Option<&str>) -> (s: String)
    ensures
        s@ == nothing_found(what@, opt_text(part)),
{
    let mut s: String = "no ".to_owned();
    s.append(what);
    match part {
        Some(p) => {
            s.append(" matching '");
            s.append(p);
            s.append("'");
        },
        None => {
            s.append(" in trace");
        },
    }
    s
}

/// The buffers whose names hold a text, at a cycle, or what to say where
/// there is none.
pub fn cmd_buffers(trace: &CpuTrace, part: Option<&str>, cycle: u32) -> (res: Result<
    Vec<BufferOutput>,
    String,
>)
    requires
        trace.wf(),
    ensures
        ({
            let chosen = trace@.chosen_buffers(opt_text(part));
            if chosen.len() == 0 {
                res is Err && res->Err_0@ == nothing_found("buffers"@, opt_text(part))
            } else {
                res is Ok && views(res->Ok_0@) == buffer_outputs(trace@, chosen, cycle)
            }
        }),
{
    if find_buffers_by_name(trace, part).len() == 0 {
        return Err(say_nothing_found("buffers", part));
    }
    Ok(buffers_at(trace, part, cycle))
}

// ---------------------------------------------------------------------------
// Instructions.

/// Why the life of an entity cannot be shown.
pub open spec fn timeline_refusal(e: TraceError, entity: u32) -> Seq<char> {
    if e == TraceError::EntityNotFound {
        "entity "@ + decimal(entity as nat) + " not found in trace"@
    } else {
        "failed to load segments: "@ + e.text()
    }
}

/// The lives of the instructions with an ID, or what to say where there is
/// none.
pub fn cmd_timeline(trace: &CpuTrace, entity: u32) -> (res: Result<Vec<TimelineOutput>, String>)
    requires
        trace.wf(),
    ensures
        match trace@.entity_timeline(entity) {
            Ok(t) => res is Ok && views(res->Ok_0@) == t,
            Err(e) => res is Err && res->Err_0@ == timeline_refusal(e, entity),
        },
{
    match entity_timeline(trace, entity) {
        Ok(t) => Ok(t),
        Err(TraceError::EntityNotFound) => {
            let mut s: String = "entity ".to_owned();
            s.append(to_decimal(entity as u64).as_str());
            s.append(" not found in trace");
            Err(s)
        },
        Err(e) => Err(say_load_failed(&e)),
    }
}

/// Says why segments could not be loaded.
pub(crate) fn say_load_failed(e: &TraceError) -> (s: String)
    ensures
        s@ == "failed to load segments: "@ + e.text(),
{
    let mut s: String = "failed to load segments: ".to_owned();
    s.append(e.message().as_str());
    s
}

// ---------------------------------------------------------------------------
// Counters.

/// The values of a counter.
#[derive(Debug)]
pub struct CounterOutput {
    pub name: String,
    /// Cycles and values.
    pub values: Vec<(u32, u64)>,
}

/// What a `CounterOutput` says.
#[verifier::ext_equal]
pub struct CounterOutputView {
    pub name: Seq<char>,
    pub values: Seq<(u32, u64)>,
}

impl View for CounterOutput {
    type V = CounterOutputView;

    open spec fn view(&self) -> CounterOutputView {
        CounterOutputView { name: self.name@, values: self.values@ }
    }
}

/// All cycles from the first to the last of a range.
pub open spec fn all_cycles(start: u32, end: u32) -> Seq<u32> {
    Seq::new(
        if start <= end {
            (end - start + 1) as nat
        } else {
            0
        },
        |k: int| (start + k) as u32,
    )
}

/// The cycles that a range asks for: without a range, the last cycle of the
/// trace.
pub open spec fn asked_cycles(range: Option<Seq<char>>, max_cycle: u32) -> Option<Seq<u32>> {
    match range {
        Some(text) => match range_of(text) {
            Some((start, end)) => Some(all_cycles(start, end)),
            None => None,
        },
        None => Some(seq![max_cycle]),
    }
}

/// Some counters at some cycles.
pub open spec fn counter_outputs(t: CpuTraceView, counters: Seq<usize>, cycles: Seq<u32>) -> Seq<
    CounterOutputView,
> {
    counters.map_values(
        |c: usize|
            CounterOutputView {
                name: t.counters[c as int].name,
                values: cycles.map_values(|x: u32| (x, t.counter_value(c as int, x))),
            },
    )
}

/// Whether some counters can be looked up at some cycles.
pub open spec fn known_at_all(t: CpuTraceView, counters: Seq<usize>, cycles: Seq<u32>) -> bool {
    forall|i: int, k: int|
        0 <= i < counters.len() && 0 <= k < cycles.len() ==> #[trigger] t.known_at(
            counters[i] as int,
            cycles[k],
        )
}

fn counters_at(trace: &CpuTrace, chosen: &Vec<usize>, cycles: &Vec<u32>) -> (r: Vec<CounterOutput>)
    requires
        known_at_all(trace@, chosen@, cycles@),
        forall|k: int| 0 <= k < chosen@.len() ==> #[trigger] chosen@[k] < trace@.counters.len(),
    ensures
        views(r@) == counter_outputs(trace@, chosen@, cycles@),
{
    let names = trace.counter_names();
    let ghost want = counter_outputs(trace@, chosen@, cycles@);
    let mut r: Vec<CounterOutput> = Vec::new();
    let mut i: usize = 0;
    while i < chosen.len()
        invariant
            i <= chosen@.len(),
            known_at_all(trace@, chosen@, cycles@),
            forall|k: int|
                0 <= k < chosen@.len() ==> #[trigger] chosen@[k] < trace@.counters.len(),
            crate::summarize::counter_views(names@) == trace@.counters,
            want == counter_outputs(trace@, chosen@, cycles@),
            views(r@) == want.take(i as int),
        decreases chosen@.len() - i,
    {
        let c: usize = chosen[i];
        assert(crate::summarize::counter_views(names@).len() == names@.len());
        assert(trace@.counters[c as int] == crate::summarize::counter_views(names@)[c as int]);
        assert forall|k: int| 0 <= k < cycles@.len() implies #[trigger] trace@.known_at(
            c as int,
            cycles@[k],
        ) by {
            assert(trace@.known_at(chosen@[i as int] as int, cycles@[k]));
        }
        let o = CounterOutput {
            name: names[c].1.clone(),
            values: counter_values(trace, c, cycles),
        };
        assert(o@ =~= want[i as int]);
        let ghost before = views(r@);
        r.push(o);
        assert(views(r@) =~= before.push(o@));
        i = i + 1;
        assert(views(r@) =~= want.take(i as int));
    }
    assert(want.take(i as int) =~= want);
    r
}

/// The counters whose names hold a text, at every cycle of a range, or at the
/// last cycle where no range is given. Where no counter is found or the range
/// is not one, what to say.
pub fn cmd_counters(trace: &CpuTrace, range: Option<&str>, part: Option<&str>) -> (res: Result<
    Vec<CounterOutput>,
    String,
>)
    requires
        asked_cycles(opt_text(range), trace@.max_cycle) matches Some(cycles) ==> known_at_all(
            trace@,
            trace@.chosen_counters(opt_text(part)),
            cycles,
        ),
    ensures
        ({
            let chosen = trace@.chosen_counters(opt_text(part));
            if chosen.len() == 0 {
                res is Err && res->Err_0@ == nothing_found("counters"@, opt_text(part))
            } else {
                match asked_cycles(opt_text(range), trace@.max_cycle) {
                    Some(cycles) => res is Ok && views(res->Ok_0@) == counter_outputs(
                        trace@,
                        chosen,
                        cycles,
                    ),
                    None => res is Err && res->Err_0@ == "invalid range format '"@ + opt_text(
                        range,
                    )->Some_0 + "', expected START:END"@,
                }
            }
        }),
{
    let chosen = find_counters_by_name(trace, part);
    if chosen.len() == 0 {
        return Err(say_nothing_found("counters", part));
    }
    let names = trace.counter_names();
    let _count: usize = names.len();
    proof {
        assert(crate::summarize::counter_views(names@).len() == names@.len());
        law_matching(trace@.counter_texts(), opt_text(part), trace@.counters.len() as int);
    }
    let cycles: Vec<u32> = match range {
        Some(text) => match parse_range(text) {
            Some((start, end)) => cycles_between(start, end),
            None => {
                let mut s: String = "invalid range format '".to_owned();
                s.append(text);
                s.append("', expected START:END");
                return Err(s);
            },
        },
        None => {
            let mut v: Vec<u32> = Vec::new();
            v.push(trace.max_cycle());
            v
        },
    };
    assert(asked_cycles(opt_text(range), trace@.max_cycle)->Some_0 =~= cycles@);
    Ok(counters_at(trace, &chosen, &cycles))
}

} // verus!
