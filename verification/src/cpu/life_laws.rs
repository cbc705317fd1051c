//! What becomes of an instruction between its fetch and its end, whatever else
//! is recorded meanwhile.

use vstd::prelude::*;
use crate::bytes::{lemma_u32_at, lemma_u32_bytes_len, u32_at, u32_bytes};
use crate::cpu::builder::{address_text, InstrView};
use crate::cpu::load::{
    after_all, after_item, annotated, annotation, arranged, data_of, ended, keys_of,
    law_after_item_wf, law_stage_ranges, lemma_counter_on, loaded, stage_of, with_field, Context,
    LoadedView, Loading,
};
use crate::cpu::open_laws::protocol_planned;
use crate::cpu::resolve::{cycle_of, ProtocolView};
use crate::cpu::session_laws::law_after_all_join;
use crate::cpu::types::RetireStatus;
use crate::error::TraceError;
use crate::frame::{timed_items, FrameItemView};
use crate::protocols::cpu::{cpu_ids, event_item, op_item, CpuPlan};
use crate::sort::{law_sorted_keys, sorted_keys};
use crate::state::{TimedEventView, TimedItemView, TimedOp};
use crate::types::{DA_SLOT_CLEAR, DA_SLOT_SET};

verus! {

/// Whether no two entities share an instruction.
pub open spec fn apart(l: Loading) -> bool {
    forall|a: u32, b: u32|
        #![trigger l.open.contains_key(a), l.open.contains_key(b)]
        l.open.contains_key(a) && l.open.contains_key(b) && a != b ==> l.open[a] != l.open[b]
}

/// Items leave the instructions of different entities apart.
pub proof fn law_after_item_apart(l: Loading, ctx: Context, item: TimedItemView)
    requires
        l.wf(ctx.counters.len()),
        apart(l),
        l.instrs.len() <= usize::MAX,
        after_item(l, ctx, item) is Ok,
    ensures
        apart(after_item(l, ctx, item)->Ok_0),
{
    let m = after_item(l, ctx, item)->Ok_0;
    assert forall|a: u32, b: u32|
        #![trigger m.open.contains_key(a), m.open.contains_key(b)]
        m.open.contains_key(a) && m.open.contains_key(b) && a != b implies m.open[a]
        != m.open[b] by {
        if l.open.contains_key(a) && l.open.contains_key(b) {
            assert(l.open[a] != l.open[b]);
        }
    }
}

/// Whether an entity is in flight in a slot, and in no other.
pub open spec fn held(l: Loading, entity: u32, slot: u16) -> bool {
    &&& l.open.contains_key(entity)
    &&& l.slots.contains_key(slot)
    &&& l.slots[slot] == entity
    &&& only_in(l, entity, slot)
}

/// Whether an entity is in no other slot than the given one.
pub open spec fn only_in(l: Loading, entity: u32, slot: u16) -> bool {
    forall|s: u16| #[trigger] l.slots.contains_key(s) && l.slots[s] == entity ==> s == slot
}

/// Whether an item neither ends an entity nor starts it anew, nor takes its
/// slot away.
pub open spec fn quiet(item: TimedItemView, ids: ProtocolView, entity: u32, slot: u16) -> bool {
    match item {
        TimedItemView::Op(op) => op.storage_id == ids.entities_storage_id ==> {
            &&& op.action == DA_SLOT_SET && op.field_index == ids.field_entity_id ==> op.slot != slot
                && op.value as u32 != entity
            &&& op.action == DA_SLOT_CLEAR ==> op.slot != slot
        },
        TimedItemView::Event(ev) => ev.event_type_id == ids.flush_event_id && ev.event_type_id
            != ids.stage_transition_event_id && ev.payload.len() >= 4 ==> u32_at(ev.payload, 0)
            != entity && u32_at(ev.payload, 0) as u16 != slot,
    }
}

/// What an item that is quiet about an entity does to its instruction.
pub open spec fn own_step(
    b: InstrView,
    ctx: Context,
    item: TimedItemView,
    entity: u32,
    slot: u16,
) -> InstrView {
    match item {
        TimedItemView::Op(op) => if op.storage_id == ctx.ids.entities_storage_id && op.action
            == DA_SLOT_SET && op.slot == slot {
            with_field(b, ctx.ids, op.field_index, op.value)
        } else {
            b
        },
        TimedItemView::Event(ev) => {
            let p = ev.payload;
            if ev.event_type_id == ctx.ids.stage_transition_event_id {
                if p.len() >= 5 && u32_at(p, 0) == entity {
                    b.entered(stage_of(ctx.stages, p[4]), cycle_of(ev.time_ps, ctx.period_ps))
                } else {
                    b
                }
            } else if ev.event_type_id == ctx.ids.flush_event_id {
                b
            } else if ev.event_type_id == ctx.ids.annotate_event_id && p.len() >= 8 && u32_at(p, 0)
                == entity {
                match annotation(ctx.strings, u32_at(p, 4)) {
                    Some(text) => annotated(b, text),
                    None => b,
                }
            } else {
                b
            }
        },
    }
}

/// What some quiet items do to the instruction of an entity, in turn.
pub open spec fn life(
    b: InstrView,
    ctx: Context,
    items: Seq<TimedItemView>,
    entity: u32,
    slot: u16,
) -> InstrView
    decreases items.len(),
{
    if items.len() == 0 {
        b
    } else {
        own_step(life(b, ctx, items.drop_last(), entity, slot), ctx, items.last(), entity, slot)
    }
}

/// A quiet item does to an instruction what concerns it, and nothing else.
pub proof fn law_quiet_item(
    l: Loading,
    ctx: Context,
    item: TimedItemView,
    entity: u32,
    slot: u16,
)
    requires
        l.wf(ctx.counters.len()),
        apart(l),
        l.instrs.len() <= usize::MAX,
        held(l, entity, slot),
        quiet(item, ctx.ids, entity, slot),
        after_item(l, ctx, item) is Ok,
    ensures
        ({
            let m = after_item(l, ctx, item)->Ok_0;
            &&& m.wf(ctx.counters.len())
            &&& apart(m)
            &&& held(m, entity, slot)
            &&& m.open[entity] == l.open[entity]
            &&& m.instr(entity) == own_step(l.instr(entity), ctx, item, entity, slot)
            &&& m.kept[m.open[entity] as int] == l.kept[l.open[entity] as int]
            &&& l.instrs.len() <= m.instrs.len()
        }),
{
    let m = after_item(l, ctx, item)->Ok_0;
    law_after_item_wf(l, ctx, item);
    law_after_item_apart(l, ctx, item);
    match item {
        TimedItemView::Op(op) => {
            lemma_counter_on(ctx.counters, op.storage_id);
            if op.storage_id == ctx.ids.entities_storage_id {
                if op.action == DA_SLOT_SET {
                    if op.field_index != ctx.ids.field_entity_id && l.slots.contains_key(op.slot) {
                        let other = l.slots[op.slot];
                        if l.open.contains_key(other) && other != entity {
                            assert(l.open[other] != l.open[entity]);
                        }
                    } else if op.field_index == ctx.ids.field_entity_id {
                        let other = op.value as u32;
                        if l.open.contains_key(other) {
                            assert(l.open[other] != l.open[entity]);
                        }
                    }
                } else if op.action == DA_SLOT_CLEAR && l.slots.contains_key(op.slot) {
                    let other = l.slots[op.slot];
                    if l.open.contains_key(other) {
                        assert(other != entity);
                        assert(l.open[other] != l.open[entity]);
                    }
                }
            }
        },
        TimedItemView::Event(ev) => {
            let other = u32_at(ev.payload, 0);
            if l.open.contains_key(other) && other != entity {
                assert(l.open[other] != l.open[entity]);
            }
        },
    }
    assert(only_in(m, entity, slot));
}

/// Quiet items do to an instruction what concerns it, and nothing else.
pub proof fn law_quiet(
    l: Loading,
    ctx: Context,
    items: Seq<TimedItemView>,
    entity: u32,
    slot: u16,
)
    requires
        l.wf(ctx.counters.len()),
        apart(l),
        held(l, entity, slot),
        forall|i: int| 0 <= i < items.len() ==> quiet(#[trigger] items[i], ctx.ids, entity, slot),
        after_all(l, ctx, items) is Ok,
        after_all(l, ctx, items)->Ok_0.instrs.len() <= usize::MAX,
    ensures
        ({
            let m = after_all(l, ctx, items)->Ok_0;
            &&& m.wf(ctx.counters.len())
            &&& apart(m)
            &&& held(m, entity, slot)
            &&& m.open[entity] == l.open[entity]
            &&& m.instr(entity) == life(l.instr(entity), ctx, items, entity, slot)
            &&& m.kept[m.open[entity] as int] == l.kept[l.open[entity] as int]
            &&& l.instrs.len() <= m.instrs.len()
        }),
    decreases items.len(),
{
    if items.len() > 0 {
        let init = items.drop_last();
        assert forall|i: int| 0 <= i < init.len() implies quiet(
            #[trigger] init[i],
            ctx.ids,
            entity,
            slot,
        ) by {
            assert(init[i] == items[i]);
        }
        let k = after_all(l, ctx, init)->Ok_0;
        lemma_all_growing(l, ctx, init);
        lemma_growing(k, ctx, items.last());
        law_quiet(l, ctx, init, entity, slot);
        assert(quiet(items[items.len() - 1], ctx.ids, entity, slot));
        law_quiet_item(k, ctx, items.last(), entity, slot);
    }
}

/// Instructions are never forgotten.
proof fn lemma_growing(l: Loading, ctx: Context, item: TimedItemView)
    requires
        l.wf(ctx.counters.len()),
        after_item(l, ctx, item) is Ok,
    ensures
        after_item(l, ctx, item)->Ok_0.wf(ctx.counters.len()),
        l.instrs.len() <= after_item(l, ctx, item)->Ok_0.instrs.len(),
        l.instrs.len() <= u32::MAX ==> after_item(l, ctx, item)->Ok_0.instrs.len() <= u32::MAX,
{
    law_after_item_wf(l, ctx, item);
    match item {
        TimedItemView::Op(op) => {
            lemma_counter_on(ctx.counters, op.storage_id);
        },
        TimedItemView::Event(ev) => {},
    }
}

pub proof fn lemma_all_growing(l: Loading, ctx: Context, items: Seq<TimedItemView>)
    requires
        l.wf(ctx.counters.len()),
        after_all(l, ctx, items) is Ok,
    ensures
        after_all(l, ctx, items)->Ok_0.wf(ctx.counters.len()),
        l.instrs.len() <= after_all(l, ctx, items)->Ok_0.instrs.len(),
        l.instrs.len() <= u32::MAX ==> after_all(l, ctx, items)->Ok_0.instrs.len() <= u32::MAX,
    decreases items.len(),
{
    if items.len() > 0 {
        lemma_all_growing(l, ctx, items.drop_last());
        lemma_growing(after_all(l, ctx, items.drop_last())->Ok_0, ctx, items.last());
    }
}

/// The slot of an entity.
pub open spec fn slot_of(entity: u32) -> u16 {
    entity as u16
}

/// An operation on an entity.
pub open spec fn entity_op(
    ids: ProtocolView,
    action: u8,
    entity: u32,
    field: u16,
    value: u64,
    time: u64,
) -> TimedItemView {
    TimedItemView::Op(
        TimedOp {
            time_ps: time,
            action,
            storage_id: ids.entities_storage_id,
            slot: slot_of(entity),
            field_index: field,
            value,
        },
    )
}

/// What the fetch of an instruction records.
pub open spec fn fetch_items(
    ids: ProtocolView,
    entity: u32,
    pc: u64,
    inst_bits: u32,
    time: u64,
) -> Seq<TimedItemView> {
    seq![
        entity_op(ids, DA_SLOT_SET, entity, ids.field_entity_id, entity as u64, time),
        entity_op(ids, DA_SLOT_SET, entity, ids.field_pc, pc, time),
        entity_op(
            ids,
            DA_SLOT_SET,
            entity,
            ids.field_inst_bits->Some_0,
            inst_bits as u64,
            time,
        ),
    ]
}

/// What the retirement of an instruction records.
pub open spec fn retire_item(ids: ProtocolView, entity: u32, time: u64) -> TimedItemView {
    entity_op(ids, DA_SLOT_CLEAR, entity, 0, 0, time)
}

/// What the flush of an instruction records.
pub open spec fn flush_item(
    ids: ProtocolView,
    entity: u32,
    reason: u8,
    time: u64,
) -> TimedItemView {
    TimedItemView::Event(
        TimedEventView {
            time_ps: time,
            event_type_id: ids.flush_event_id,
            payload: u32_bytes(entity).push(reason),
        },
    )
}

/// What the end of an instruction records: its flush where there is a reason
/// for one, else its retirement.
pub open spec fn end_item(
    ids: ProtocolView,
    entity: u32,
    flush: Option<u8>,
    time: u64,
) -> TimedItemView {
    match flush {
        Some(reason) => flush_item(ids, entity, reason, time),
        None => retire_item(ids, entity, time),
    }
}

/// An instruction after its end.
pub open spec fn finished(b: InstrView, flush: Option<u8>, cycle: u32) -> InstrView {
    InstrView {
        retire_status: if flush is Some {
            RetireStatus::Flushed
        } else {
            RetireStatus::Retired
        },
        ..b.closed(cycle)
    }
}

/// Whether the fields of a fetch are different ones.
pub open spec fn fields_differ(ids: ProtocolView) -> bool {
    &&& ids.field_pc != ids.field_entity_id
    &&& ids.field_inst_bits is Some
    &&& ids.field_inst_bits->Some_0 != ids.field_entity_id
    &&& ids.field_inst_bits->Some_0 != ids.field_pc
}

/// An instruction right after its fetch.
pub open spec fn fetched(
    entity: u32,
    reflex_id: u32,
    pc: u64,
    inst_bits: u32,
    cycle: u32,
) -> InstrView {
    InstrView {
        pc,
        disasm: address_text(pc as nat),
        inst_bits: Some(inst_bits),
        ..InstrView::fresh(entity, reflex_id, 0, cycle)
    }
}

/// A fetch starts an instruction with the given address and bits.
pub proof fn law_fetched(
    l: Loading,
    ctx: Context,
    entity: u32,
    pc: u64,
    inst_bits: u32,
    time: u64,
)
    requires
        l.wf(ctx.counters.len()),
        apart(l),
        l.instrs.len() < u32::MAX,
        fields_differ(ctx.ids),
        only_in(l, entity, slot_of(entity)),
    ensures
        ({
            let m = after_all(l, ctx, fetch_items(ctx.ids, entity, pc, inst_bits, time));
            &&& m is Ok
            &&& m->Ok_0.wf(ctx.counters.len())
            &&& apart(m->Ok_0)
            &&& held(m->Ok_0, entity, slot_of(entity))
            &&& m->Ok_0.open[entity] == l.instrs.len()
            &&& m->Ok_0.instrs.len() == l.instrs.len() + 1
            &&& m->Ok_0.kept[l.instrs.len() as int]
            &&& m->Ok_0.instr(entity) == fetched(
                entity,
                l.instrs.len() as u32,
                pc,
                inst_bits,
                cycle_of(time, ctx.period_ps),
            )
        }),
{
    let items = fetch_items(ctx.ids, entity, pc, inst_bits, time);
    let slot = slot_of(entity);
    let none = Seq::<TimedItemView>::empty();
    let n = l.instrs.len() as int;
    let i2 = items.drop_last();
    let i1 = i2.drop_last();
    assert(i1.drop_last() =~= none);
    assert(after_all(l, ctx, none) == Ok::<Loading, TraceError>(l));
    assert(i1.last() == items[0]);
    assert(i2.last() == items[1]);
    assert(items.last() == items[2]);
    let v = entity as u64;
    assert(v as u32 == entity);
    let a = after_item(l, ctx, items[0]);
    assert(after_all(l, ctx, i1) == a);
    lemma_counter_on(ctx.counters, ctx.ids.entities_storage_id);
    assert(a == Ok::<Loading, TraceError>(l.started(slot, entity, cycle_of(time, ctx.period_ps))));
    let m1 = a->Ok_0;
    law_after_item_wf(l, ctx, items[0]);
    law_after_item_apart(l, ctx, items[0]);
    assert(only_in(m1, entity, slot));
    assert(held(m1, entity, slot));
    law_quiet_item(m1, ctx, items[1], entity, slot);
    let m2 = after_item(m1, ctx, items[1])->Ok_0;
    assert(after_all(l, ctx, i2) == Ok::<Loading, TraceError>(m2));
    law_quiet_item(m2, ctx, items[2], entity, slot);
    let w = inst_bits as u64;
    assert(w as u32 == inst_bits);
}

/// Retiring an instruction ends its last stage and takes it out of flight.
pub proof fn law_retired(l: Loading, ctx: Context, entity: u32, time: u64)
    requires
        l.wf(ctx.counters.len()),
        apart(l),
        held(l, entity, slot_of(entity)),
    ensures
        ({
            let m = after_item(l, ctx, retire_item(ctx.ids, entity, time));
            let b = l.instr(entity).closed(cycle_of(time, ctx.period_ps));
            let i = l.open[entity] as int;
            &&& m is Ok
            &&& m->Ok_0.instrs.len() == l.instrs.len()
            &&& m->Ok_0.kept == l.kept
            &&& m->Ok_0.instrs[i] == (InstrView {
                retire_status: if b.retire_status == RetireStatus::InFlight {
                    RetireStatus::Retired
                } else {
                    b.retire_status
                },
                ..b
            })
            &&& not_open(m->Ok_0, i)
        }),
{
    let m = after_item(l, ctx, retire_item(ctx.ids, entity, time))->Ok_0;
    let i = l.open[entity] as int;
    assert forall|e: u32| #[trigger] m.open.contains_key(e) implies m.open[e] != i by {
        assert(l.open.contains_key(e) && l.open.contains_key(entity));
    }
}

/// Flushing an instruction ends its last stage and takes it out of flight.
pub proof fn law_flushed(l: Loading, ctx: Context, entity: u32, ev: TimedEventView)
    requires
        l.wf(ctx.counters.len()),
        apart(l),
        l.open.contains_key(entity),
        ev.event_type_id == ctx.ids.flush_event_id,
        ev.event_type_id != ctx.ids.stage_transition_event_id,
        ev.payload.len() >= 4,
        u32_at(ev.payload, 0) == entity,
    ensures
        ({
            let m = after_item(l, ctx, TimedItemView::Event(ev));
            let b = l.instr(entity).closed(cycle_of(ev.time_ps, ctx.period_ps));
            let i = l.open[entity] as int;
            &&& m is Ok
            &&& m->Ok_0.instrs.len() == l.instrs.len()
            &&& m->Ok_0.kept == l.kept
            &&& m->Ok_0.instrs[i] == (InstrView { retire_status: RetireStatus::Flushed, ..b })
            &&& not_open(m->Ok_0, i)
        }),
{
    let m = after_item(l, ctx, TimedItemView::Event(ev))->Ok_0;
    let i = l.open[entity] as int;
    assert forall|e: u32| #[trigger] m.open.contains_key(e) implies m.open[e] != i by {
        assert(l.open.contains_key(e) && l.open.contains_key(entity));
    }
}

/// Whether no entity in flight has instruction `i`.
pub open spec fn not_open(l: Loading, i: int) -> bool {
    forall|e: u32| #[trigger] l.open.contains_key(e) ==> l.open[e] != i
}

/// An instruction that is out of flight stays as it is.
pub proof fn law_done_stays(l: Loading, ctx: Context, items: Seq<TimedItemView>, i: int)
    requires
        l.wf(ctx.counters.len()),
        0 <= i < l.instrs.len(),
        not_open(l, i),
        after_all(l, ctx, items) is Ok,
        after_all(l, ctx, items)->Ok_0.instrs.len() <= usize::MAX,
    ensures
        ({
            let m = after_all(l, ctx, items)->Ok_0;
            &&& m.wf(ctx.counters.len())
            &&& not_open(m, i)
            &&& l.instrs.len() <= m.instrs.len()
            &&& m.instrs[i] == l.instrs[i]
            &&& m.kept[i] == l.kept[i]
        }),
    decreases items.len(),
{
    if items.len() > 0 {
        let init = items.drop_last();
        let item = items.last();
        let k = after_all(l, ctx, init)->Ok_0;
        lemma_all_growing(l, ctx, init);
        lemma_growing(k, ctx, item);
        law_done_stays(l, ctx, init, i);
        law_after_item_wf(k, ctx, item);
        let m = after_item(k, ctx, item)->Ok_0;
        match item {
            TimedItemView::Op(op) => {
                lemma_counter_on(ctx.counters, op.storage_id);
                if k.slots.contains_key(op.slot) {
                    let other = k.slots[op.slot];
                    assert(k.open.contains_key(other) ==> k.open[other] != i);
                }
                let other = op.value as u32;
                assert(k.open.contains_key(other) ==> k.open[other] != i);
            },
            TimedItemView::Event(ev) => {
                let other = u32_at(ev.payload, 0);
                assert(k.open.contains_key(other) ==> k.open[other] != i);
            },
        }
        assert forall|e: u32| #[trigger] m.open.contains_key(e) implies m.open[e] != i by {
            if k.open.contains_key(e) {
                assert(k.open[e] != i);
            }
        }
    }
}

// ---------------------------------------------------------------------------
// What is shown of an instruction in the end.

/// Whether the instruction at a place of what was loaded is the given one,
/// with all of its stages.
pub open spec fn shows(r: LoadedView, k: int, b: InstrView) -> bool {
    &&& 0 <= k < r.instructions.len()
    &&& ({
        let d = r.instructions[k];
        &&& d.id == b.entity_id
        &&& d.rbid == b.rbid
        &&& d.iq_id == b.iq_id
        &&& d.dq_id == b.dq_id
        &&& d.tooltip == b.tooltip
        &&& d.retire_status == b.retire_status
        &&& d.first_cycle == b.first_cycle
        &&& d.last_cycle == b.last_cycle
        &&& d.stage_start <= d.stage_end <= r.stages.len()
        &&& r.stages.subrange(d.stage_start as int, d.stage_end as int) == b.stages
    })
}

proof fn lemma_key(l: Loading, n: int, i: int)
    requires
        0 <= i < n <= l.instrs.len(),
        l.kept[i],
    ensures
        keys_of(l, n).contains((l.instrs[i].first_cycle, i as usize)),
    decreases n,
{
    let key = (l.instrs[i].first_cycle, i as usize);
    let before = keys_of(l, n - 1);
    let now = keys_of(l, n);
    if i < n - 1 {
        lemma_key(l, n - 1, i);
        let p = choose|p: int| 0 <= p < before.len() && before[p] == key;
        assert(now[p] == key);
    } else {
        assert(now[before.len() as int] == key);
    }
}

proof fn lemma_in_order(keys: Seq<(u32, usize)>, key: (u32, usize))
    requires
        keys.contains(key),
    ensures
        sorted_keys(keys).contains(key),
{
    broadcast use vstd::seq_lib::group_to_multiset_ensures;

    law_sorted_keys(keys);
    assert(keys.to_multiset().count(key) > 0);
    assert(sorted_keys(keys).to_multiset().count(key) > 0);
}

proof fn lemma_arranged_data(
    l: Loading,
    order: Seq<(u32, usize)>,
    mnemonics: Option<Seq<(u32, Seq<char>)>>,
    period_ps: u64,
    k: int,
    i: int,
)
    requires
        0 <= i < k,
    ensures
        arranged(l, order, mnemonics, period_ps, k).0.len() == k,
        arranged(l, order, mnemonics, period_ps, k).0[i] == data_of(
            ended(l.instrs[order[i].1 as int]),
            arranged(l, order, mnemonics, period_ps, i).1.len() as int,
            mnemonics,
            period_ps,
        ),
    decreases k,
{
    if k == 1 {
        assert(arranged(l, order, mnemonics, period_ps, 0).0.len() == 0);
    } else if i < k - 1 {
        lemma_arranged_data(l, order, mnemonics, period_ps, k - 1, i);
    } else {
        lemma_arranged_data(l, order, mnemonics, period_ps, k - 1, 0);
    }
}

/// Every instruction that counts is among those that are loaded, with all of
/// its stages, while these are not too many.
pub proof fn law_loaded_has(
    l: Loading,
    mnemonics: Option<Seq<(u32, Seq<char>)>>,
    period_ps: u64,
    i: int,
)
    requires
        0 <= i < l.instrs.len(),
        l.instrs.len() <= usize::MAX,
        l.kept.len() == l.instrs.len(),
        l.kept[i],
        loaded(l, mnemonics, period_ps).stages.len() <= u32::MAX,
    ensures
        exists|k: int| #[trigger] shows(loaded(l, mnemonics, period_ps), k, ended(l.instrs[i])),
{
    let n = l.instrs.len() as int;
    let key = (l.instrs[i].first_cycle, i as usize);
    let order = sorted_keys(keys_of(l, n));
    lemma_key(l, n, i);
    lemma_in_order(keys_of(l, n), key);
    let k = choose|k: int| 0 <= k < order.len() && order[k] == key;
    let size = order.len() as int;
    lemma_arranged_data(l, order, mnemonics, period_ps, size, k);
    law_stage_ranges(l, order, mnemonics, period_ps, size, k);
    assert(shows(loaded(l, mnemonics, period_ps), k, ended(l.instrs[i])));
}

/// Quiet items leave an instruction in flight, and it keeps its entity and
/// its first cycle.
proof fn lemma_life_keeps(
    b: InstrView,
    ctx: Context,
    items: Seq<TimedItemView>,
    entity: u32,
    slot: u16,
)
    ensures
        ({
            let c = life(b, ctx, items, entity, slot);
            &&& c.entity_id == b.entity_id
            &&& c.first_cycle == b.first_cycle
            &&& c.retire_status == b.retire_status
        }),
    decreases items.len(),
{
    if items.len() > 0 {
        lemma_life_keeps(b, ctx, items.drop_last(), entity, slot);
    }
}

/// An instruction that was fetched and later retired or flushed is shown as
/// that, with its entity, the cycle of its fetch and the stages that it went
/// through: whatever was recorded before, of others meanwhile, or after.
pub proof fn law_instruction_life(
    l: Loading,
    ctx: Context,
    entity: u32,
    pc: u64,
    inst_bits: u32,
    start: u64,
    meanwhile: Seq<TimedItemView>,
    flush: Option<u8>,
    end: u64,
    after: Seq<TimedItemView>,
    m: Loading,
    mnemonics: Option<Seq<(u32, Seq<char>)>>,
)
    requires
        l.wf(ctx.counters.len()),
        apart(l),
        l.instrs.len() < u32::MAX,
        only_in(l, entity, slot_of(entity)),
        fields_differ(ctx.ids),
        ctx.ids.flush_event_id != ctx.ids.stage_transition_event_id,
        forall|i: int|
            0 <= i < meanwhile.len() ==> quiet(
                #[trigger] meanwhile[i],
                ctx.ids,
                entity,
                slot_of(entity),
            ),
        after_all(
            l,
            ctx,
            fetch_items(ctx.ids, entity, pc, inst_bits, start) + (meanwhile + (seq![
                end_item(ctx.ids, entity, flush, end),
            ] + after)),
        ) == Ok::<Loading, TraceError>(m),
        loaded(m, mnemonics, ctx.period_ps).stages.len() <= u32::MAX,
    ensures
        ({
            let first = cycle_of(start, ctx.period_ps);
            let b = life(
                fetched(entity, l.instrs.len() as u32, pc, inst_bits, first),
                ctx,
                meanwhile,
                entity,
                slot_of(entity),
            );
            let done = finished(b, flush, cycle_of(end, ctx.period_ps));
            &&& done.entity_id == entity
            &&& done.first_cycle == first
            &&& exists|k: int| #[trigger] shows(loaded(m, mnemonics, ctx.period_ps), k, done)
        }),
{
    let slot = slot_of(entity);
    let first = cycle_of(start, ctx.period_ps);
    let fetch = fetch_items(ctx.ids, entity, pc, inst_bits, start);
    let last = end_item(ctx.ids, entity, flush, end);
    let ends = seq![last];
    let born = fetched(entity, l.instrs.len() as u32, pc, inst_bits, first);
    law_fetched(l, ctx, entity, pc, inst_bits, start);
    law_after_all_join(l, ctx, fetch, meanwhile + (ends + after));
    let m1 = after_all(l, ctx, fetch)->Ok_0;
    law_after_all_join(m1, ctx, meanwhile, ends + after);
    let m2 = after_all(m1, ctx, meanwhile)->Ok_0;
    lemma_all_growing(m1, ctx, meanwhile);
    law_quiet(m1, ctx, meanwhile, entity, slot);
    law_after_all_join(m2, ctx, ends, after);
    assert(ends.drop_last() =~= Seq::<TimedItemView>::empty());
    assert(after_all(m2, ctx, ends.drop_last()) == Ok::<Loading, TraceError>(m2));
    assert(ends.last() == last);
    match flush {
        Some(reason) => {
            let payload = u32_bytes(entity).push(reason);
            lemma_u32_bytes_len(entity);
            assert(payload.subrange(0, 4) =~= u32_bytes(entity));
            lemma_u32_at(payload, 0, entity);
            let ev = last->Event_0;
            assert(last == TimedItemView::Event(ev));
            assert(ev.payload == payload);
            law_flushed(m2, ctx, entity, ev);
        },
        None => {
            law_retired(m2, ctx, entity, end);
        },
    }
    let m3 = after_all(m2, ctx, ends)->Ok_0;
    lemma_all_growing(m2, ctx, ends);
    lemma_all_growing(m3, ctx, after);
    let i = m2.open[entity] as int;
    law_done_stays(m3, ctx, after, i);
    lemma_life_keeps(born, ctx, meanwhile, entity, slot);
    law_loaded_has(m, mnemonics, ctx.period_ps, i);
    let b = life(born, ctx, meanwhile, entity, slot);
    let done = finished(b, flush, cycle_of(end, ctx.period_ps));
    assert(m.instrs[i] == done);
    assert(ended(done) == done);
    let k = choose|k: int| #[trigger] shows(loaded(m, mnemonics, ctx.period_ps), k, done);
    assert(shows(loaded(m, mnemonics, ctx.period_ps), k, done));
}

// ---------------------------------------------------------------------------
// What a CPU writer records.

/// What a CPU writer records for a fetch, a retirement, a flush and the entry
/// into a stage is what a loader takes for them.
pub proof fn law_written_items(
    plan: CpuPlan,
    ctx: Context,
    entity: u32,
    pc: u64,
    inst_bits: u32,
    stage: u8,
    reason: u8,
    time: u64,
    b: InstrView,
    n: int,
)
    requires
        ctx.ids == protocol_planned(plan),
        n > 0,
    ensures
        ({
            let ids = cpu_ids(plan);
            let sid = ids.entities_storage_id;
            let slot = entity as u16;
            &&& fields_differ(ctx.ids)
            &&& timed_items(
                seq![
                    op_item(DA_SLOT_SET, sid, slot, ids.field_entity_id, entity as u64),
                    op_item(DA_SLOT_SET, sid, slot, ids.field_pc, pc),
                    op_item(DA_SLOT_SET, sid, slot, ids.field_inst_bits, inst_bits as u64),
                ],
                time,
                n,
            ) == fetch_items(ctx.ids, entity, pc, inst_bits, time)
            &&& op_item(DA_SLOT_CLEAR, sid, slot, 0, 0).at(time) == retire_item(
                ctx.ids,
                entity,
                time,
            )
            &&& event_item(ids.flush_event_id, u32_bytes(entity).push(reason)).at(time)
                == flush_item(ctx.ids, entity, reason, time)
            &&& ctx.ids.flush_event_id != ctx.ids.stage_transition_event_id
            &&& ({
                let item = event_item(
                    ids.stage_transition_event_id,
                    u32_bytes(entity).push(stage),
                ).at(time);
                &&& quiet(item, ctx.ids, entity, slot_of(entity))
                &&& own_step(b, ctx, item, entity, slot_of(entity)) == b.entered(
                    stage_of(ctx.stages, stage),
                    cycle_of(time, ctx.period_ps),
                )
            })
        }),
{
    let ids = cpu_ids(plan);
    let slot = entity as u16;
    let items = seq![
        op_item(DA_SLOT_SET, 0, slot, ids.field_entity_id, entity as u64),
        op_item(DA_SLOT_SET, 0, slot, ids.field_pc, pc),
        op_item(DA_SLOT_SET, 0, slot, ids.field_inst_bits, inst_bits as u64),
    ];
    let i2 = items.drop_last();
    let i1 = i2.drop_last();
    assert(i1.drop_last() =~= Seq::<FrameItemView>::empty());
    assert(items.last() == items[2]);
    assert(i2.last() == items[1]);
    assert(i1.last() == items[0]);
    reveal_with_fuel(timed_items, 4);
    assert(timed_items(items, time, n) =~= fetch_items(ctx.ids, entity, pc, inst_bits, time));
    let payload = u32_bytes(entity).push(stage);
    lemma_u32_bytes_len(entity);
    assert(payload.subrange(0, 4) =~= u32_bytes(entity));
    lemma_u32_at(payload, 0, entity);
}

} // verus!
