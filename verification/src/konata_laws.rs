//! A log that was converted is a trace that can be opened and queried.

use vstd::prelude::*;
use crate::bytes::{group_le_len, u32_bytes};
use crate::checkpoint::allocatable;
use crate::cpu::load::{after_all, Loading};
use crate::cpu::open_laws::{keeps, lemma_draft_pool, plain_names, plain_stages, protocol_planned};
use crate::cpu::session_laws::{law_cpu_trace, law_loading_all};
use crate::cpu::trace::trace_opened;
use crate::error::TraceError;
use crate::frame::FrameItemView;
use crate::konata::CmdView;
use crate::konata_emit::{
    comes_to, dut_of, emitted, law_script_in_place, leads, log_plan, performed, plan_fits, played,
    schema_of, script_of, tempo, ActionView,
};
use crate::protocols::cpu::{
    counter_from, cpu_draft, cpu_ids, cpu_properties, entity_fields, event_item, op_item,
    with_buffers, with_counters, with_enums, with_events, with_scopes, with_storages, CpuIdsView,
    CpuPlan,
};
use crate::protocols::cpu_laws::law_cpu_storages;
use crate::query::all_segments;
use crate::roundtrip::{closing, describable, law_close_sound, law_writer_sound, sound, trace_items};
use crate::schema::{lemma_property_texts, property_texts, Draft};
use crate::state::{known_item, TimedItemView};
use crate::string_pool::law_insert_all_keeps;
use crate::trace::Recording;
use crate::types::{
    lemma_packed_size_bound, packed_size, storage_head, ClockDomainDef, EnumDef, EnumDefView,
    EnumValue, EventDef, EventDefView, FieldDef, ScopeDef, StorageDef, StorageDefView,
    SummaryFieldDef, DA_SLOT_ADD, DA_SLOT_CLEAR, DA_SLOT_SET, SF_SPARSE,
};
use crate::wire::{encode_all, Wire};
use crate::writer::{fresh, table_insert, table_place, WriterView};
use crate::writer_laws::{
    law_begin_recorded, law_close_recorded, law_end_recorded, law_item_recorded,
    law_nothing_recorded, law_string_recorded, recorded, timely,
};

verus! {

/// Writing does not change what a trace describes.
proof fn lemma_performed_keeps(a: WriterView, action: ActionView, ids: CpuIdsView, b: WriterView)
    requires
        performed(a, action, ids, b),
    ensures
        b.rec.dut == a.rec.dut,
        b.rec.schema == a.rec.schema,
{
}

proof fn lemma_leads_keeps(
    states: Seq<WriterView>,
    actions: Seq<ActionView>,
    ids: CpuIdsView,
    k: int,
)
    requires
        leads(states, actions, ids),
        0 <= k < states.len(),
    ensures
        states[k].rec.dut == states[0].rec.dut,
        states[k].rec.schema == states[0].rec.schema,
    decreases k,
{
    if k > 0 {
        lemma_leads_keeps(states, actions, ids, k - 1);
        let action = actions[k - 1];
        assert(performed(states[k - 1], action, ids, states[k - 1 + 1]));
        lemma_performed_keeps(states[k - 1], action, ids, states[k]);
    }
}

proof fn lemma_played_keeps(a: WriterView, actions: Seq<ActionView>, ids: CpuIdsView, b: WriterView)
    requires
        played(a, actions, ids, b),
    ensures
        b.rec.dut == a.rec.dut,
        b.rec.schema == a.rec.schema,
{
    let states = choose|states: Seq<WriterView>| #[trigger]
        leads(states, actions, ids) && states[0] == a && states.last() == b;
    lemma_leads_keeps(states, actions, ids, states.len() - 1);
}

/// A writer that is closed leaves a finished trace of a sound recording.
proof fn lemma_closes(w: WriterView, img: Seq<u8>) -> (rec: Recording)
    requires
        w.settled(),
        w.closes_to(img),
        describable(w.rec.dut, w.rec.schema),
    ensures
        sound(rec),
        rec.dut == w.rec.dut,
        rec.schema == w.rec.schema,
        rec.strings == w.rec.strings,
        img == rec.closed_image(w.time),
        w.items.len() == 0 ==> trace_items(rec.segments, w.base.len() as int) == recorded(w),
{
    if w.rec.frames.len() == 0 {
        law_writer_sound(w);
        if w.items.len() == 0 {
            law_close_recorded(w, Seq::empty());
        }
        w.rec
    } else {
        let blob = choose|blob: Seq<u8>| #[trigger]
            w.packs(blob) && img == w.flushed_recording(blob).closed_image(w.time);
        law_close_sound(w, blob);
        if w.items.len() == 0 {
            law_close_recorded(w, blob);
        }
        w.flushed_recording(blob)
    }
}

/// What a log was converted to is opened as a CPU trace: with the clock period
/// that was given, the stages of the log, and a counter of instructions.
pub proof fn law_converted_opens(
    cmds: Seq<CmdView>,
    stages: Seq<Seq<char>>,
    max_in_flight: u32,
    period: u64,
    dut_name: Seq<char>,
    res: Result<Vec<u8>, TraceError>,
    file_name: Seq<char>,
    total_us: Seq<char>,
)
    requires
        emitted(cmds, stages, max_in_flight, period, dut_name, res),
        res is Ok,
        period > 0,
        plain_stages(stages),
        stages.len() <= 255,
    ensures
        ({
            let plan = log_plan(stages, max_in_flight, period as u32, dut_name);
            let t = trace_opened(res->Ok_0@, file_name, total_us);
            &&& t is Ok
            &&& t->Ok_0.ids == protocol_planned(plan)
            &&& t->Ok_0.ids.stage_names == stages
            &&& t->Ok_0.period_ps == period
            &&& t->Ok_0.counters.len() == 1
            &&& t->Ok_0.counters[0].name == "committed_insns"@
            &&& t->Ok_0.buffers.len() == 0
        }),
{
    let plan = log_plan(stages, max_in_flight, period as u32, dut_name);
    lemma_log_plan(stages, max_in_flight, period as u32, dut_name);
    law_log_describable(plan);
    let w = lemma_writer(cmds, stages, max_in_flight, period, dut_name, res);
    lemma_written(w, res->Ok_0@, plan, file_name, total_us);
}

proof fn lemma_log_plan(
    stages: Seq<Seq<char>>,
    max_in_flight: u32,
    period: u32,
    dut_name: Seq<char>,
)
    requires
        stages.len() <= 255,
    ensures
        ({
            let plan = log_plan(stages, max_in_flight, period, dut_name);
            &&& log_like(plan)
            &&& plan.pipeline_stages == stages
            &&& plan.clock_period_ps == period
            &&& plan.counters == seq!["committed_insns"@]
        }),
{
}

/// The writer that a converted log was closed with.
proof fn lemma_writer(
    cmds: Seq<CmdView>,
    stages: Seq<Seq<char>>,
    max_in_flight: u32,
    period: u64,
    dut_name: Seq<char>,
    res: Result<Vec<u8>, TraceError>,
) -> (w: WriterView)
    requires
        emitted(cmds, stages, max_in_flight, period, dut_name, res),
        res is Ok,
    ensures
        period <= u32::MAX,
        ({
            let plan = log_plan(stages, max_in_flight, period as u32, dut_name);
            &&& plan_fits(plan)
            &&& w.settled()
            &&& w.closes_to(res->Ok_0@)
            &&& w.rec.dut == dut_of(plan)
            &&& w.rec.schema == schema_of(plan)
            &&& played(
                fresh(dut_of(plan), schema_of(plan), (period * 1000) as u64),
                script_of(cmds, period, stages)->Ok_0,
                cpu_ids(plan),
                w,
            )
        }),
{
    let plan = log_plan(stages, max_in_flight, period as u32, dut_name);
    let interval = (period * 1000) as u64;
    let script = script_of(cmds, period, stages)->Ok_0;
    let a = fresh(dut_of(plan), schema_of(plan), interval);
    assert(comes_to(a, script, cpu_ids(plan), res));
    let w = choose|w: WriterView| #[trigger]
        played(a, script, cpu_ids(plan), w) && w.settled() && w.closes_to(res->Ok_0@);
    lemma_played_keeps(a, script, cpu_ids(plan), w);
    w
}

/// What such a writer leaves is opened.
proof fn lemma_written(
    w: WriterView,
    img: Seq<u8>,
    plan: CpuPlan,
    file_name: Seq<char>,
    total_us: Seq<char>,
)
    requires
        plan_fits(plan),
        w.settled(),
        w.closes_to(img),
        w.rec.dut == dut_of(plan),
        w.rec.schema == schema_of(plan),
        describable(dut_of(plan), schema_of(plan)),
        plain_stages(plan.pipeline_stages),
        plan.clock_period_ps > 0,
        plan.counters == seq!["committed_insns"@],
        plan.buffers.len() == 0,
    ensures
        ({
            let t = trace_opened(img, file_name, total_us);
            &&& t is Ok
            &&& t->Ok_0.ids == protocol_planned(plan)
            &&& t->Ok_0.period_ps == plan.clock_period_ps
            &&& t->Ok_0.counters.len() == 1
            &&& t->Ok_0.counters[0].name == "committed_insns"@
            &&& t->Ok_0.buffers.len() == 0
        }),
{
    let rec = lemma_closes(w, img);
    let q = cpu_draft(plan).pool.insert_all(property_texts(cpu_properties(plan)));
    lemma_pool(plan);
    lemma_counter_name(plan);
    assert(rec.schema == (Draft { pool: q, ..cpu_draft(plan) }).finished());
    law_cpu_trace(rec, w.time, plan, q, file_name, total_us);
}

proof fn lemma_counter_name(plan: CpuPlan)
    requires
        plan.counters == seq!["committed_insns"@],
        plan.buffers.len() == 0,
    ensures
        plain_names(plan),
{
    reveal_strlit("committed_insns");
    assert forall|i: int| 0 <= i < "committed_insns"@.len() implies
        #[trigger] "committed_insns"@[i] != '\0' by {}
    assert(!"committed_insns"@.contains('\0'));
}

/// The pool of a plan with its properties.
proof fn lemma_pool(plan: CpuPlan)
    requires
        plan_fits(plan),
    ensures
        ({
            let p = cpu_draft(plan).pool;
            let props = cpu_properties(plan);
            let q = p.insert_all(property_texts(props));
            &&& keeps(p, q)
            &&& forall|i: int|
                0 <= i < props.len() ==> q.index.contains_key((#[trigger] props[i]).0)
                    && q.index.contains_key(props[i].1)
        }),
{
    let p = cpu_draft(plan).pool;
    let props = cpu_properties(plan);
    let names = property_texts(props);
    let q = p.insert_all(names);
    lemma_draft_pool(plan);
    law_insert_all_keeps(p, names);
    assert forall|i: int| 0 <= i < props.len() implies q.index.contains_key(
        (#[trigger] props[i]).0,
    ) && q.index.contains_key(props[i].1) by {
        lemma_property_texts(props, i);
        let x = names.index_of(props[i].0);
        let y = names.index_of(props[i].1);
        assert(q.index.contains_key(names[x]));
        assert(q.index.contains_key(names[y]));
    }
}

// ---------------------------------------------------------------------------
// Sizes.

/// Values that take at most `k` bytes each take no more than that together.
proof fn lemma_all_len<T: Wire>(vs: Seq<<T as View>::V>, k: int)
    requires
        forall|i: int| 0 <= i < vs.len() ==> T::encode(#[trigger] vs[i]).len() <= k,
    ensures
        encode_all::<T>(vs).len() <= k * vs.len(),
    decreases vs.len(),
{
    reveal(encode_all);
    if vs.len() > 0 {
        let init = vs.drop_last();
        assert forall|i: int| 0 <= i < init.len() implies T::encode(#[trigger] init[i]).len()
            <= k by {
            assert(init[i] == vs[i]);
        }
        lemma_all_len::<T>(init, k);
        assert(T::encode(vs[vs.len() - 1]).len() <= k);
        assert(k * init.len() + k == k * vs.len()) by (nonlinear_arith)
            requires
                vs.len() == init.len() + 1,
        ;
    } else {
        assert(k * vs.len() == 0) by (nonlinear_arith)
            requires
                vs.len() == 0,
        ;
    }
}

/// Enumerations with at most 255 values.
proof fn lemma_enum_len(v: EnumDefView)
    requires
        v.values.len() <= 255,
    ensures
        EnumDef::encode(v).len() <= 1024,
{
    broadcast use group_le_len;

    assert forall|i: int| 0 <= i < v.values.len() implies EnumValue::encode(
        #[trigger] v.values[i],
    ).len() <= 4 by {}
    lemma_all_len::<EnumValue>(v.values, 4);
}

proof fn lemma_fields_len(fields: Seq<FieldDef>)
    requires
        fields.len() <= 3,
    ensures
        encode_all::<FieldDef>(fields).len() <= 24,
{
    broadcast use group_le_len;

    assert forall|i: int| 0 <= i < fields.len() implies FieldDef::encode(#[trigger] fields[i]).len()
        <= 8 by {}
    lemma_all_len::<FieldDef>(fields, 8);
}

/// The parts of the schema of a log.
proof fn lemma_log_parts(plan: CpuPlan)
    requires
        log_like(plan),
    ensures
        ({
            let s = schema_of(plan);
            &&& s.clock_domains.len() == 1
            &&& s.scopes.len() == 2
            &&& s.enums.len() == 4
            &&& s.storages.len() == 2
            &&& s.events.len() == 5
            &&& s.summary_fields.len() == 0
            &&& s.storages == cpu_draft(plan).storages
            &&& forall|i: int|
                0 <= i < 4 ==> (#[trigger] s.enums[i]).values.len() <= 255
                    && s.enums[i].values.len() == s.enums[i].num_values
            &&& forall|i: int|
                0 <= i < 2 ==> (#[trigger] s.storages[i]).fields.len() <= 3
                    && s.storages[i].fields.len() == s.storages[i].num_fields
                    && s.storages[i].properties.len() == 0 && s.storages[i].num_properties == 0
            &&& forall|i: int|
                0 <= i < 5 ==> (#[trigger] s.events[i]).fields.len() <= 3
                    && s.events[i].fields.len() == s.events[i].num_fields
        }),
{
    let d0 = with_scopes(plan.scope_name, plan.clock_period_ps);
    let d1 = with_enums(d0, plan.pipeline_stages, plan.stall_reasons);
    assert(d0.enums =~= Seq::<EnumDefView>::empty());
    assert(d1.storages =~= Seq::<StorageDefView>::empty());
    let d2 = d1.with_storage(
        "entities"@,
        1,
        plan.entity_slots,
        SF_SPARSE,
        entity_fields(),
        Seq::empty(),
    );
    assert(with_buffers(d2, plan.buffers, 0) == d2);
    assert(with_counters(d2, plan.counters, 0) == d2);
    let d3 = with_counters(d2, plan.counters, 1);
    assert(with_storages(d1, plan) == d3);
    let d4 = with_events(d3);
    assert(cpu_draft(plan) == d4);
    assert(d4.enums == d1.enums);
    assert(d4.storages == d3.storages);
    assert(d3.events =~= Seq::<EventDefView>::empty());
    assert(d4.events.len() == 5);
}

/// Whether a plan has the shape of the plan of a log, with stages that can be
/// numbered.
pub open spec fn log_like(plan: CpuPlan) -> bool {
    &&& plan.pipeline_stages.len() <= 255
    &&& plan.stall_reasons.len() <= 255
    &&& plan.buffers.len() == 0
    &&& plan.counters.len() == 1
}

/// The trace of a log has two storages: one of entities and one of its counter.
pub proof fn law_log_storages(
    stages: Seq<Seq<char>>,
    max_in_flight: u32,
    period: u32,
    dut_name: Seq<char>,
)
    requires
        stages.len() <= 255,
    ensures
        cpu_draft(log_plan(stages, max_in_flight, period, dut_name)).storages.len() == 2,
{
    let plan = log_plan(stages, max_in_flight, period, dut_name);
    lemma_log_plan(stages, max_in_flight, period, dut_name);
    lemma_log_parts(plan);
}

// ---------------------------------------------------------------------------
// Everything that a log says is in the trace.

/// What a script has told a writer: the time of the cycle, the strings, and
/// everything else with its times.
#[verifier::ext_equal]
pub struct Told {
    pub time: u64,
    pub strings: Seq<Seq<char>>,
    pub items: Seq<TimedItemView>,
}

impl Told {
    /// With one more item, unless it is an operation on a storage that is not
    /// one of `n`.
    pub open spec fn with(self, item: FrameItemView, n: int) -> Told {
        if known_item(item.at(self.time), n) {
            Told { items: self.items.push(item.at(self.time)), ..self }
        } else {
            self
        }
    }
}

/// What some actions tell a writer of a trace with `n` storages.
pub open spec fn told(actions: Seq<ActionView>, ids: CpuIdsView, n: int) -> Told
    decreases actions.len(),
{
    if actions.len() == 0 {
        Told { time: 0, strings: Seq::empty(), items: Seq::empty() }
    } else {
        let b = told(actions.drop_last(), ids, n);
        let sid = ids.entities_storage_id;
        match actions.last() {
            ActionView::Begin { time_ps } => Told { time: time_ps, ..b },
            ActionView::End => b,
            ActionView::Fetch { id } => b.with(
                op_item(DA_SLOT_SET, sid, id as u16, ids.field_entity_id, id as u64),
                n,
            ).with(op_item(DA_SLOT_SET, sid, id as u16, ids.field_pc, 0), n).with(
                op_item(DA_SLOT_SET, sid, id as u16, ids.field_inst_bits, 0),
                n,
            ),
            ActionView::SetPc { id, pc } => b.with(
                op_item(DA_SLOT_SET, sid, id as u16, ids.field_pc, pc),
                n,
            ),
            ActionView::Annotate { id, text } => {
                let strings = table_insert(b.strings, text);
                Told { strings, ..b }.with(
                    event_item(
                        ids.annotate_event_id,
                        u32_bytes(id) + u32_bytes(table_place(strings, text) as u32),
                    ),
                    n,
                )
            },
            ActionView::Stage { id, stage } => b.with(
                event_item(ids.stage_transition_event_id, u32_bytes(id).push(stage)),
                n,
            ),
            ActionView::Retire { id } => {
                let cleared = b.with(op_item(DA_SLOT_CLEAR, sid, id as u16, 0, 0), n);
                match counter_from(ids.counters, "committed_insns"@, 0) {
                    Some((counter, field)) => cleared.with(
                        op_item(DA_SLOT_ADD, counter, 0, field, 1),
                        n,
                    ),
                    None => cleared,
                }
            },
            ActionView::Flush { id } => b.with(
                event_item(ids.flush_event_id, u32_bytes(id).push(0)),
                n,
            ),
            ActionView::Dependency { producer, consumer } => b.with(
                event_item(
                    ids.dependency_event_id,
                    (u32_bytes(producer) + u32_bytes(consumer)).push(0),
                ),
                n,
            ),
        }
    }
}

/// Whether a writer has recorded what it was told.
spec fn heeds(w: WriterView, t: Told, started: bool, n: int) -> bool {
    &&& recorded(w) == t.items
    &&& w.rec.strings == t.strings
    &&& w.time == t.time
    &&& w.base.len() == n
    &&& timely(w)
    &&& !started ==> w.items.len() == 0
}

/// A writer that heeds what it was told heeds one more item.
proof fn lemma_heeds_item(w: WriterView, t: Told, item: FrameItemView, n: int)
    requires
        heeds(w, t, true, n),
    ensures
        heeds(w.with_item(item), t.with(item, n), true, n),
{
    law_item_recorded(w, item);
}

proof fn lemma_heeds_action(
    a: WriterView,
    actions: Seq<ActionView>,
    ids: CpuIdsView,
    n: int,
    b: WriterView,
)
    requires
        actions.len() > 0,
        tempo(actions) is Some,
        heeds(
            a,
            told(actions.drop_last(), ids, n),
            tempo(actions.drop_last())->Some_0.0,
            n,
        ),
        told(actions.drop_last(), ids, n).time == tempo(actions.drop_last())->Some_0.1,
        performed(a, actions.last(), ids, b),
    ensures
        heeds(b, told(actions, ids, n), tempo(actions)->Some_0.0, n),
        told(actions, ids, n).time == tempo(actions)->Some_0.1,
{
    let t = told(actions.drop_last(), ids, n);
    let sid = ids.entities_storage_id;
    match actions.last() {
        ActionView::Begin { time_ps } => {
            law_begin_recorded(a, time_ps);
        },
        ActionView::End => {
            if a.time < a.next_checkpoint {
                law_end_recorded(a, Seq::empty());
            } else {
                let blob = choose|blob: Seq<u8>| #[trigger]
                    a.with_frame().packs(blob) && b == a.ended(blob);
                law_end_recorded(a, blob);
            }
        },
        ActionView::Fetch { id } => {
            let x = op_item(DA_SLOT_SET, sid, id as u16, ids.field_entity_id, id as u64);
            let y = op_item(DA_SLOT_SET, sid, id as u16, ids.field_pc, 0);
            let z = op_item(DA_SLOT_SET, sid, id as u16, ids.field_inst_bits, 0);
            lemma_heeds_item(a, t, x, n);
            lemma_heeds_item(a.with_item(x), t.with(x, n), y, n);
            lemma_heeds_item(a.with_item(x).with_item(y), t.with(x, n).with(y, n), z, n);
        },
        ActionView::SetPc { id, pc } => {
            lemma_heeds_item(a, t, op_item(DA_SLOT_SET, sid, id as u16, ids.field_pc, pc), n);
        },
        ActionView::Annotate { id, text } => {
            law_string_recorded(a, text);
            let named = a.with_string(text);
            let strings = table_insert(t.strings, text);
            let item = event_item(
                ids.annotate_event_id,
                u32_bytes(id) + u32_bytes(table_place(strings, text) as u32),
            );
            lemma_heeds_item(named, Told { strings, ..t }, item, n);
        },
        ActionView::Stage { id, stage } => {
            let item = event_item(ids.stage_transition_event_id, u32_bytes(id).push(stage));
            lemma_heeds_item(a, t, item, n);
        },
        ActionView::Retire { id } => {
            let x = op_item(DA_SLOT_CLEAR, sid, id as u16, 0, 0);
            lemma_heeds_item(a, t, x, n);
            if let Some((counter, field)) = counter_from(ids.counters, "committed_insns"@, 0) {
                let y = op_item(DA_SLOT_ADD, counter, 0, field, 1);
                lemma_heeds_item(a.with_item(x), t.with(x, n), y, n);
            }
        },
        ActionView::Flush { id } => {
            let item = event_item(ids.flush_event_id, u32_bytes(id).push(0));
            lemma_heeds_item(a, t, item, n);
        },
        ActionView::Dependency { producer, consumer } => {
            let item = event_item(
                ids.dependency_event_id,
                (u32_bytes(producer) + u32_bytes(consumer)).push(0),
            );
            lemma_heeds_item(a, t, item, n);
        },
    }
}

proof fn lemma_heeds(
    states: Seq<WriterView>,
    actions: Seq<ActionView>,
    ids: CpuIdsView,
    n: int,
    k: int,
)
    requires
        leads(states, actions, ids),
        tempo(actions.take(k)) is Some,
        0 <= k <= actions.len(),
        heeds(states[0], told(Seq::empty(), ids, n), false, n),
    ensures
        heeds(states[k], told(actions.take(k), ids, n), tempo(actions.take(k))->Some_0.0, n),
        told(actions.take(k), ids, n).time == tempo(actions.take(k))->Some_0.1,
    decreases k,
{
    let some = actions.take(k);
    if k == 0 {
        assert(some =~= Seq::<ActionView>::empty());
    } else {
        assert(some.drop_last() =~= actions.take(k - 1));
        assert(some.last() == actions[k - 1]);
        lemma_heeds(states, actions, ids, n, k - 1);
        assert(performed(states[k - 1], actions[k - 1], ids, states[k - 1 + 1]));
        lemma_heeds_action(states[k - 1], some, ids, n, states[k]);
    }
}

/// A writer that has played a whole script has recorded what it was told.
proof fn lemma_played_heeds(
    a: WriterView,
    actions: Seq<ActionView>,
    ids: CpuIdsView,
    n: int,
    b: WriterView,
    last_time: u64,
)
    requires
        played(a, actions, ids, b),
        tempo(actions) == Some((false, last_time)),
        heeds(a, told(Seq::empty(), ids, n), false, n),
    ensures
        heeds(b, told(actions, ids, n), false, n),
{
    let states = choose|states: Seq<WriterView>| #[trigger]
        leads(states, actions, ids) && states[0] == a && states.last() == b;
    let k = actions.len() as int;
    assert(actions.take(k) =~= actions);
    lemma_heeds(states, actions, ids, n, k);
}

/// Loading the trace that a log was converted to goes through what the log
/// says, in the order of the log: each fetch, stage, label, dependency, flush
/// and retirement once, at the time of its cycle.
pub proof fn law_converted_items(
    cmds: Seq<CmdView>,
    stages: Seq<Seq<char>>,
    max_in_flight: u32,
    period: u64,
    dut_name: Seq<char>,
    res: Result<Vec<u8>, TraceError>,
    file_name: Seq<char>,
    total_us: Seq<char>,
)
    requires
        emitted(cmds, stages, max_in_flight, period, dut_name, res),
        res is Ok,
        period > 0,
        plain_stages(stages),
        stages.len() <= 255,
    ensures
        ({
            let plan = log_plan(stages, max_in_flight, period as u32, dut_name);
            let script = script_of(cmds, period, stages)->Ok_0;
            let all = told(script, cpu_ids(plan), cpu_draft(plan).storages.len() as int);
            let t = trace_opened(res->Ok_0@, file_name, total_us)->Ok_0;
            let n = t.reader.table.len();
            &&& trace_opened(res->Ok_0@, file_name, total_us) is Ok
            &&& script_of(cmds, period, stages) is Ok
            &&& t.loading(all_segments(n), n as int) == after_all(
                Loading::empty(t.counters.len()),
                t.context(),
                all.items,
            )
            &&& t.reader.strings == if all.strings.len() == 0 {
                None
            } else {
                Some(all.strings)
            }
        }),
{
    let plan = log_plan(stages, max_in_flight, period as u32, dut_name);
    let ids = cpu_ids(plan);
    lemma_log_plan(stages, max_in_flight, period as u32, dut_name);
    law_log_describable(plan);
    let w = lemma_writer(cmds, stages, max_in_flight, period, dut_name, res);
    let img = res->Ok_0@;
    let script = script_of(cmds, period, stages)->Ok_0;
    let interval = (period * 1000) as u64;
    let a = fresh(dut_of(plan), schema_of(plan), interval);
    let n = cpu_draft(plan).storages.len() as int;
    law_nothing_recorded(dut_of(plan), schema_of(plan), interval);
    assert(heeds(a, told(Seq::empty(), ids, n), false, n));
    law_script_in_place(cmds, cmds.len() as int, period, stages);
    lemma_played_heeds(a, script, ids, n, w, tempo(script)->Some_0.1);
    let rec = lemma_closes(w, img);
    let q = cpu_draft(plan).pool.insert_all(property_texts(cpu_properties(plan)));
    lemma_pool(plan);
    lemma_counter_name(plan);
    assert(rec.schema == (Draft { pool: q, ..cpu_draft(plan) }).finished());
    law_cpu_trace(rec, w.time, plan, q, file_name, total_us);
    let t = trace_opened(img, file_name, total_us)->Ok_0;
    law_loading_all(t, rec, closing(rec));
}

/// The schema of a log with at most 255 stages can be described.
pub proof fn law_log_describable(plan: CpuPlan)
    requires
        log_like(plan),
    ensures
        describable(dut_of(plan), schema_of(plan)),
{
    broadcast use group_le_len;

    let s = schema_of(plan);
    lemma_log_parts(plan);
    law_cpu_storages(plan);
    assert forall|i: int| 0 <= i < s.clock_domains.len() implies ClockDomainDef::encode(
        #[trigger] s.clock_domains[i],
    ).len() <= 8 by {}
    lemma_all_len::<ClockDomainDef>(s.clock_domains, 8);
    assert forall|i: int| 0 <= i < s.scopes.len() implies ScopeDef::encode(
        #[trigger] s.scopes[i],
    ).len() <= 12 by {}
    lemma_all_len::<ScopeDef>(s.scopes, 12);
    assert forall|i: int| 0 <= i < s.enums.len() implies EnumDef::encode(
        #[trigger] s.enums[i],
    ).len() <= 1024 by {
        lemma_enum_len(s.enums[i]);
    }
    lemma_all_len::<EnumDef>(s.enums, 1024);
    assert forall|i: int| 0 <= i < s.storages.len() implies StorageDef::encode(
        #[trigger] s.storages[i],
    ).len() <= 64 by {
        lemma_fields_len(s.storages[i].fields);
        lemma_fields_len(s.storages[i].properties);
        reveal(storage_head);
    }
    lemma_all_len::<StorageDef>(s.storages, 64);
    assert forall|i: int| 0 <= i < s.events.len() implies EventDef::encode(
        #[trigger] s.events[i],
    ).len() <= 32 by {
        lemma_fields_len(s.events[i].fields);
    }
    lemma_all_len::<EventDef>(s.events, 32);
    assert forall|i: int| 0 <= i < s.summary_fields.len() implies SummaryFieldDef::encode(
        #[trigger] s.summary_fields[i],
    ).len() <= 8 by {}
    lemma_all_len::<SummaryFieldDef>(s.summary_fields, 8);
    assert forall|i: int| 0 <= i < s.storages.len() implies allocatable(
        #[trigger] s.storages[i],
    ) by {
        lemma_packed_small(s.storages[i]);
    }
}

/// Three fields of a storage fit in memory, however many slots it has.
proof fn lemma_packed_small(def: StorageDefView)
    requires
        def.fields.len() <= 3,
        def.properties.len() == 0,
    ensures
        allocatable(def),
{
    lemma_packed_size_bound(def.fields);
    let n = packed_size(def.fields) as int;
    assert(def.num_slots * n <= 65535 * 24) by (nonlinear_arith)
        requires
            0 <= n <= 24,
            def.num_slots <= 65535,
    ;
}

} // verus!
