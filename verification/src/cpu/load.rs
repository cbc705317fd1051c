//! Reconstructing instructions from what the segments of a trace recorded.

use std::collections::HashMap;
use vstd::prelude::*;
use vstd::string::StringExecFns;
use crate::bytes::{get_u32, u32_at};
use crate::cpu::builder::{
    address, address_text, is_disasm_line, names_address, InstrBuilder, InstrView,
};
use crate::cpu::decode::{
    decode_instruction, disasm_line, make_disasm_line, mnemonic_from, mnemonic_texts,
};
use crate::cpu::resolve::{cycle_of, CpuProtocolIds, ProtocolView};
use crate::cpu::types::{
    DepKind, Dependency, InstructionData, InstructionView, RetireStatus, StageSpan,
};
use crate::error::TraceError;
use crate::reader::StringTable;
use crate::sort::{key_order, law_sorted_keys, sort_keys, sorted_keys};
use crate::state::{TimedEvent, TimedEventView, TimedItem, TimedItemView, TimedOp};
use crate::summarize::{counter_on, counter_views, find_counter, CounterView};
use crate::types::{DA_SLOT_ADD, DA_SLOT_CLEAR, DA_SLOT_SET};
use crate::wire::views;

verus! {

broadcast use vstd::std_specs::hash::group_hash_axioms;

/// What items are read by.
#[verifier::ext_equal]
pub struct Context {
    pub ids: ProtocolView,
    pub counters: Seq<CounterView>,
    pub stages: Seq<u16>,
    pub strings: Option<Seq<Seq<char>>>,
    pub period_ps: u64,
}

/// What was reconstructed so far.
#[verifier::ext_equal]
pub struct Loading {
    /// The entity in each slot of the catalog.
    pub slots: Map<u16, u32>,
    /// The instruction that is in flight for each entity.
    pub open: Map<u32, usize>,
    /// All instructions in the order in which they appeared.
    pub instrs: Seq<InstrView>,
    /// Which instructions count: those whose entity was not taken over while
    /// they were in flight.
    pub kept: Seq<bool>,
    pub dependencies: Seq<Dependency>,
    /// The value of each counter.
    pub accum: Seq<u64>,
    pub samples: Seq<Seq<(u32, u64)>>,
}

impl Loading {
    /// Nothing was read, and there are `n` counters.
    pub open spec fn empty(n: nat) -> Loading {
        Loading {
            slots: Map::empty(),
            open: Map::empty(),
            instrs: Seq::empty(),
            kept: Seq::empty(),
            dependencies: Seq::empty(),
            accum: Seq::new(n, |i: int| 0u64),
            samples: Seq::new(n, |i: int| Seq::empty()),
        }
    }

    /// Instructions in flight are among all instructions.
    pub open spec fn wf(self, n: nat) -> bool {
        &&& forall|e: u32| #[trigger] self.open.contains_key(e) ==> self.open[e] < self.instrs.len()
        &&& self.kept.len() == self.instrs.len()
        &&& self.accum.len() == n
        &&& self.samples.len() == n
    }

    /// With the instruction in flight for an entity changed.
    pub open spec fn with(self, entity: u32, instr: InstrView) -> Loading {
        Loading { instrs: self.instrs.update(self.open[entity] as int, instr), ..self }
    }

    /// The instruction in flight for an entity.
    pub open spec fn instr(self, entity: u32) -> InstrView {
        self.instrs[self.open[entity] as int]
    }

    /// With the growth of a counter, modulo 2^64.
    pub open spec fn grown(self, c: int, cycle: u32, delta: u64) -> Loading {
        let value = self.accum[c].wrapping_add(delta);
        Loading {
            accum: self.accum.update(c, value),
            samples: self.samples.update(c, self.samples[c].push((cycle, value))),
            ..self
        }
    }

    /// With a new instruction for an entity in a slot.
    pub open spec fn started(self, slot: u16, entity: u32, cycle: u32) -> Loading {
        let n = self.instrs.len();
        Loading {
            slots: self.slots.insert(slot, entity),
            open: self.open.insert(entity, n as usize),
            instrs: self.instrs.push(InstrView::fresh(entity, n as u32, 0, cycle)),
            kept: (if self.open.contains_key(entity) {
                self.kept.update(self.open[entity] as int, false)
            } else {
                self.kept
            }).push(true),
            ..self
        }
    }

    /// With the entity in a slot retired.
    pub open spec fn retired(self, slot: u16, cycle: u32) -> Loading {
        if self.slots.contains_key(slot) {
            let entity = self.slots[slot];
            let rest = Loading { slots: self.slots.remove(slot), ..self };
            if self.open.contains_key(entity) {
                let b = self.instr(entity).closed(cycle);
                Loading {
                    open: self.open.remove(entity),
                    ..rest.with(
                        entity,
                        InstrView {
                            retire_status: if b.retire_status == RetireStatus::InFlight {
                                RetireStatus::Retired
                            } else {
                                b.retire_status
                            },
                            ..b
                        },
                    )
                }
            } else {
                rest
            }
        } else {
            self
        }
    }

    /// With an entity flushed.
    pub open spec fn flushed(self, entity: u32, cycle: u32) -> Loading {
        if self.open.contains_key(entity) {
            let b = self.instr(entity).closed(cycle);
            Loading {
                slots: self.slots.remove(entity as u16),
                open: self.open.remove(entity),
                ..self.with(entity, InstrView { retire_status: RetireStatus::Flushed, ..b })
            }
        } else {
            self
        }
    }
}

/// An instruction with a field of its entity set.
pub open spec fn with_field(b: InstrView, ids: ProtocolView, field: u16, value: u64) -> InstrView {
    if field == ids.field_pc {
        InstrView { pc: value, disasm: address_text(value as nat), ..b }
    } else if ids.field_inst_bits == Some(field) {
        InstrView { inst_bits: Some(value as u32), ..b }
    } else if ids.field_rbid == Some(field) {
        InstrView { rbid: Some(value as u32), ..b }
    } else if ids.field_iq_id == Some(field) {
        InstrView { iq_id: Some(value as u32), ..b }
    } else if ids.field_dq_id == Some(field) {
        InstrView { dq_id: Some(value as u32), ..b }
    } else if ids.field_ready_time_ps == Some(field) {
        InstrView { ready_time_ps: Some(value), ..b }
    } else {
        b
    }
}

/// An instruction with an annotation: a line of disassembly where it starts
/// with the address of the instruction, else another line of the tooltip.
pub open spec fn annotated(b: InstrView, text: Seq<char>) -> InstrView {
    if names_address(text, b.pc) {
        InstrView { disasm: text, has_disasm_annotation: true, ..b }
    } else {
        InstrView {
            tooltip: (if b.tooltip.len() == 0 {
                b.tooltip
            } else {
                b.tooltip.push('\n')
            }) + text,
            ..b
        }
    }
}

/// The text that an annotation refers to.
pub open spec fn annotation(strings: Option<Seq<Seq<char>>>, place: u32) -> Option<Seq<char>> {
    match strings {
        Some(s) => if place < s.len() {
            Some(s[place as int])
        } else {
            None
        },
        None => None,
    }
}

/// The number of a stage: 0 where it is not known.
pub open spec fn stage_of(stages: Seq<u16>, stage: u8) -> u16 {
    if stage < stages.len() {
        stages[stage as int]
    } else {
        0
    }
}

/// What a dependency goes through.
pub open spec fn kind_of(dep_type: u8) -> DepKind {
    if dep_type == 3 {
        DepKind::Memory
    } else {
        DepKind::Data
    }
}

/// What an operation on the entities does.
pub open spec fn after_entity_op(l: Loading, ctx: Context, op: TimedOp) -> Result<
    Loading,
    TraceError,
> {
    let cycle = cycle_of(op.time_ps, ctx.period_ps);
    if op.action == DA_SLOT_SET {
        if op.field_index == ctx.ids.field_entity_id {
            if l.instrs.len() >= u32::MAX {
                Err(TraceError::TooManyInstructions)
            } else {
                Ok(l.started(op.slot, op.value as u32, cycle))
            }
        } else if l.slots.contains_key(op.slot) && l.open.contains_key(l.slots[op.slot]) {
            let entity = l.slots[op.slot];
            Ok(l.with(entity, with_field(l.instr(entity), ctx.ids, op.field_index, op.value)))
        } else {
            Ok(l)
        }
    } else if op.action == DA_SLOT_CLEAR {
        Ok(l.retired(op.slot, cycle))
    } else {
        Ok(l)
    }
}

/// What an operation does.
pub open spec fn after_op(l: Loading, ctx: Context, op: TimedOp) -> Result<Loading, TraceError> {
    let counter = counter_on(ctx.counters, op.storage_id);
    let counted = if op.action == DA_SLOT_ADD && counter is Some {
        l.grown(counter->Some_0, cycle_of(op.time_ps, ctx.period_ps), op.value)
    } else {
        l
    };
    if op.storage_id == ctx.ids.entities_storage_id {
        after_entity_op(counted, ctx, op)
    } else {
        Ok(counted)
    }
}

/// What an event does.
pub open spec fn after_event(l: Loading, ctx: Context, ev: TimedEventView) -> Loading {
    let cycle = cycle_of(ev.time_ps, ctx.period_ps);
    let p = ev.payload;
    let entity = u32_at(p, 0);
    if ev.event_type_id == ctx.ids.stage_transition_event_id {
        if p.len() >= 5 && l.open.contains_key(entity) {
            l.with(entity, l.instr(entity).entered(stage_of(ctx.stages, p[4]), cycle))
        } else {
            l
        }
    } else if ev.event_type_id == ctx.ids.flush_event_id {
        if p.len() >= 4 {
            l.flushed(entity, cycle)
        } else {
            l
        }
    } else if ev.event_type_id == ctx.ids.annotate_event_id {
        if p.len() >= 8 && l.open.contains_key(entity) {
            match annotation(ctx.strings, u32_at(p, 4)) {
                Some(text) => l.with(entity, annotated(l.instr(entity), text)),
                None => l,
            }
        } else {
            l
        }
    } else if ev.event_type_id == ctx.ids.dependency_event_id && p.len() >= 9 {
        Loading {
            dependencies: l.dependencies.push(
                Dependency { producer: entity, consumer: u32_at(p, 4), kind: kind_of(p[8]) },
            ),
            ..l
        }
    } else {
        l
    }
}

/// What an item does.
pub open spec fn after_item(l: Loading, ctx: Context, item: TimedItemView) -> Result<
    Loading,
    TraceError,
> {
    match item {
        TimedItemView::Op(op) => after_op(l, ctx, op),
        TimedItemView::Event(ev) => Ok(after_event(l, ctx, ev)),
    }
}

/// What some items do in turn.
pub open spec fn after_all(l: Loading, ctx: Context, items: Seq<TimedItemView>) -> Result<
    Loading,
    TraceError,
>
    decreases items.len(),
{
    if items.len() == 0 {
        Ok(l)
    } else {
        match after_all(l, ctx, items.drop_last()) {
            Err(e) => Err(e),
            Ok(m) => after_item(m, ctx, items.last()),
        }
    }
}

proof fn lemma_after_all_err(l: Loading, ctx: Context, items: Seq<TimedItemView>, k: int)
    requires
        0 <= k <= items.len(),
        after_all(l, ctx, items.take(k)) is Err,
    ensures
        after_all(l, ctx, items) == after_all(l, ctx, items.take(k)),
    decreases items.len(),
{
    if k == items.len() {
        assert(items.take(k) =~= items);
    } else {
        assert(items.drop_last().take(k) =~= items.take(k));
        lemma_after_all_err(l, ctx, items.drop_last(), k);
    }
}

/// Items keep the instructions in flight among all instructions.
pub proof fn law_after_item_wf(l: Loading, ctx: Context, item: TimedItemView)
    requires
        l.wf(ctx.counters.len()),
    ensures
        after_item(l, ctx, item) is Ok ==> after_item(l, ctx, item)->Ok_0.wf(ctx.counters.len()),
{
    match item {
        TimedItemView::Op(op) => {
            lemma_counter_on(ctx.counters, op.storage_id);
        },
        TimedItemView::Event(ev) => {},
    }
}

pub proof fn lemma_counter_on(counters: Seq<CounterView>, id: u16)
    ensures
        counter_on(counters, id) matches Some(c) ==> 0 <= c < counters.len(),
    decreases counters.len(),
{
    if counters.len() > 0 {
        lemma_counter_on(counters.drop_last(), id);
    }
}

// ---------------------------------------------------------------------------
// Doing it.

/// What items are read by.
pub struct ContextRef<'a> {
    pub ids: &'a CpuProtocolIds,
    pub counters: &'a Vec<(u16, String)>,
    pub stages: &'a Vec<u16>,
    pub strings: Option<&'a StringTable>,
    pub period_ps: u64,
}

impl<'a> View for ContextRef<'a> {
    type V = Context;

    open spec fn view(&self) -> Context {
        Context {
            ids: self.ids@,
            counters: counter_views(self.counters@),
            stages: self.stages@,
            strings: match self.strings {
                Some(t) => Some(t@),
                None => None,
            },
            period_ps: self.period_ps,
        }
    }
}

/// What was reconstructed so far.
pub struct Loader {
    pub slots: HashMap<u16, u32>,
    pub open: HashMap<u32, usize>,
    pub instrs: Vec<InstrBuilder>,
    pub kept: Vec<bool>,
    pub dependencies: Vec<Dependency>,
    pub accum: Vec<u64>,
    pub samples: Vec<Vec<(u32, u64)>>,
}

/// The samples of some counters.
pub open spec fn sample_seqs(samples: Seq<Vec<(u32, u64)>>) -> Seq<Seq<(u32, u64)>> {
    samples.map_values(|s: Vec<(u32, u64)>| s@)
}

impl View for Loader {
    type V = Loading;

    open spec fn view(&self) -> Loading {
        Loading {
            slots: self.slots@,
            open: self.open@,
            instrs: views(self.instrs@),
            kept: self.kept@,
            dependencies: self.dependencies@,
            accum: self.accum@,
            samples: sample_seqs(self.samples@),
        }
    }
}

impl Loader {
    /// Nothing was read.
    pub fn new(counters: usize) -> (l: Loader)
        ensures
            l@ == Loading::empty(counters as nat),
            l@.wf(counters as nat),
    {
        let mut accum: Vec<u64> = Vec::new();
        let mut samples: Vec<Vec<(u32, u64)>> = Vec::new();
        let mut i: usize = 0;
        while i < counters
            invariant
                i <= counters,
                accum@ == Seq::new(i as nat, |k: int| 0u64),
                sample_seqs(samples@) == Seq::new(i as nat, |k: int| Seq::<(u32, u64)>::empty()),
            decreases counters - i,
        {
            let ghost before = sample_seqs(samples@);
            accum.push(0);
            let none: Vec<(u32, u64)> = Vec::new();
            samples.push(none);
            assert(none@ =~= Seq::<(u32, u64)>::empty());
            assert(sample_seqs(samples@) =~= before.push(none@));
            i = i + 1;
            assert(accum@ =~= Seq::new(i as nat, |k: int| 0u64));
            assert(sample_seqs(samples@) =~= Seq::new(
                i as nat,
                |k: int| Seq::<(u32, u64)>::empty(),
            ));
        }
        let l = Loader {
            slots: HashMap::new(),
            open: HashMap::new(),
            instrs: Vec::new(),
            kept: Vec::new(),
            dependencies: Vec::new(),
            accum,
            samples,
        };
        assert(l@ =~= Loading::empty(counters as nat));
        l
    }

    /// Where the instruction in flight for an entity is.
    fn find(&self, entity: u32) -> (r: Option<usize>)
        ensures
            r == if self@.open.contains_key(entity) {
                Some(self@.open[entity])
            } else {
                None
            },
    {
        match self.open.get(&entity) {
            Some(i) => Some(*i),
            None => None,
        }
    }

    /// The entity in a slot.
    fn entity_in(&self, slot: u16) -> (r: Option<u32>)
        ensures
            r == if self@.slots.contains_key(slot) {
                Some(self@.slots[slot])
            } else {
                None
            },
    {
        match self.slots.get(&slot) {
            Some(e) => Some(*e),
            None => None,
        }
    }

    pub fn grow(&mut self, c: usize, cycle: u32, delta: u64)
        requires
            c < old(self)@.accum.len(),
            c < old(self)@.samples.len(),
        ensures
            final(self)@ == old(self)@.grown(c as int, cycle, delta),
    {
        let ghost o = self@;
        let value: u64 = self.accum[c].wrapping_add(delta);
        self.accum.set(c, value);
        let ghost before = self.samples@;
        self.samples[c].push((cycle, value));
        assert(sample_seqs(self.samples@) =~= sample_seqs(before).update(
            c as int,
            before[c as int]@.push((cycle, value)),
        ));
        assert(self@ =~= o.grown(c as int, cycle, delta));
    }

    fn start(&mut self, slot: u16, entity: u32, cycle: u32)
        requires
            old(self)@.wf(old(self)@.accum.len()),
            old(self)@.instrs.len() < u32::MAX,
        ensures
            final(self)@ == old(self)@.started(slot, entity, cycle),
    {
        let ghost o = self@;
        let n: usize = self.instrs.len();
        match self.find(entity) {
            Some(i) => {
                assert(o.open.contains_key(entity));
                self.kept.set(i, false);
            },
            None => {},
        }
        self.kept.push(true);
        self.slots.insert(slot, entity);
        self.open.insert(entity, n);
        let b = InstrBuilder::new(entity, n as u32, 0, cycle);
        let ghost before = self.instrs@;
        self.instrs.push(b);
        assert(views(self.instrs@) =~= views(before).push(b@));
        assert(self@ =~= o.started(slot, entity, cycle));
    }

    fn set_field(&mut self, i: usize, ids: &CpuProtocolIds, field: u16, value: u64)
        requires
            i < old(self)@.instrs.len(),
        ensures
            final(self)@ == (Loading {
                instrs: old(self)@.instrs.update(
                    i as int,
                    with_field(old(self)@.instrs[i as int], ids@, field, value),
                ),
                ..old(self)@
            }),
    {
        let ghost o = self@;
        let ghost before = self.instrs@;
        let word: u32 = #[verifier::truncate] (value as u32);
        if field == ids.field_pc {
            self.instrs[i].pc = value;
            self.instrs[i].disasm = address(value);
        } else if ids.field_inst_bits == Some(field) {
            self.instrs[i].inst_bits = Some(word);
        } else if ids.field_rbid == Some(field) {
            self.instrs[i].rbid = Some(word);
        } else if ids.field_iq_id == Some(field) {
            self.instrs[i].iq_id = Some(word);
        } else if ids.field_dq_id == Some(field) {
            self.instrs[i].dq_id = Some(word);
        } else if ids.field_ready_time_ps == Some(field) {
            self.instrs[i].ready_time_ps = Some(value);
        }
        proof {
            let want = with_field(o.instrs[i as int], ids@, field, value);
            assert(views(self.instrs@)[i as int] =~= want);
            assert(views(self.instrs@) =~= o.instrs.update(i as int, want));
        }
    }

    fn retire(&mut self, slot: u16, cycle: u32)
        requires
            old(self)@.wf(old(self)@.accum.len()),
        ensures
            final(self)@ == old(self)@.retired(slot, cycle),
    {
        let ghost o = self@;
        let entity: u32 = match self.entity_in(slot) {
            Some(e) => e,
            None => return,
        };
        self.slots.remove(&slot);
        let i: usize = match self.find(entity) {
            Some(i) => i,
            None => return,
        };
        assert(o.open.contains_key(entity));
        self.open.remove(&entity);
        let ghost before = self.instrs@;
        self.instrs[i].close_current_stage(cycle);
        if self.instrs[i].retire_status == RetireStatus::InFlight {
            self.instrs[i].retire_status = RetireStatus::Retired;
        }
        proof {
            let want = o.retired(slot, cycle);
            assert(views(self.instrs@)[i as int] =~= want.instrs[i as int]);
            assert(views(self.instrs@) =~= want.instrs);
            assert(self@ =~= want);
        }
    }

    fn flush(&mut self, entity: u32, cycle: u32)
        requires
            old(self)@.wf(old(self)@.accum.len()),
        ensures
            final(self)@ == old(self)@.flushed(entity, cycle),
    {
        let ghost o = self@;
        let i: usize = match self.find(entity) {
            Some(i) => i,
            None => return,
        };
        assert(o.open.contains_key(entity));
        self.open.remove(&entity);
        let slot: u16 = #[verifier::truncate] (entity as u16);
        self.slots.remove(&slot);
        self.instrs[i].close_current_stage(cycle);
        self.instrs[i].retire_status = RetireStatus::Flushed;
        proof {
            let want = o.flushed(entity, cycle);
            assert(views(self.instrs@)[i as int] =~= want.instrs[i as int]);
            assert(views(self.instrs@) =~= want.instrs);
            assert(self@ =~= want);
        }
    }

    fn enter(&mut self, entity: u32, stage: u16, cycle: u32)
        requires
            old(self)@.wf(old(self)@.accum.len()),
        ensures
            final(self)@ == if old(self)@.open.contains_key(entity) {
                old(self)@.with(entity, old(self)@.instr(entity).entered(stage, cycle))
            } else {
                old(self)@
            },
    {
        let ghost o = self@;
        let i: usize = match self.find(entity) {
            Some(i) => i,
            None => return,
        };
        assert(o.open.contains_key(entity));
        self.instrs[i].open_stage(stage, cycle);
        proof {
            let want = o.with(entity, o.instr(entity).entered(stage, cycle));
            assert(views(self.instrs@) =~= want.instrs);
            assert(self@ =~= want);
        }
    }

    fn annotate(&mut self, entity: u32, text: &str)
        requires
            old(self)@.wf(old(self)@.accum.len()),
        ensures
            final(self)@ == if old(self)@.open.contains_key(entity) {
                old(self)@.with(entity, annotated(old(self)@.instr(entity), text@))
            } else {
                old(self)@
            },
    {
        let ghost o = self@;
        let i: usize = match self.find(entity) {
            Some(i) => i,
            None => return,
        };
        assert(o.open.contains_key(entity));
        if is_disasm_line(text, self.instrs[i].pc) {
            self.instrs[i].disasm = text.to_owned();
            self.instrs[i].has_disasm_annotation = true;
        } else {
            let mut tooltip: String = self.instrs[i].tooltip.clone();
            if !tooltip.as_str().is_empty() {
                tooltip.push('\n');
            }
            tooltip.append(text);
            self.instrs[i].tooltip = tooltip;
        }
        proof {
            let want = o.with(entity, annotated(o.instr(entity), text@));
            assert(views(self.instrs@)[i as int] =~= want.instrs[i as int]);
            assert(views(self.instrs@) =~= want.instrs);
            assert(self@ =~= want);
        }
    }

    fn apply_entity_op(&mut self, ctx: &ContextRef<'_>, op: &TimedOp) -> (res: Result<
        (),
        TraceError,
    >)
        requires
            ctx.period_ps > 0,
            old(self)@.wf(ctx@.counters.len()),
        ensures
            match after_entity_op(old(self)@, ctx@, *op) {
                Ok(l) => res is Ok && final(self)@ == l,
                Err(e) => res == Err::<(), TraceError>(e),
            },
    {
        let cycle: u32 = #[verifier::truncate] ((op.time_ps / ctx.period_ps) as u32);
        if op.action == DA_SLOT_SET {
            if op.field_index == ctx.ids.field_entity_id {
                if self.instrs.len() >= u32::MAX as usize {
                    return Err(TraceError::TooManyInstructions);
                }
                let entity: u32 = #[verifier::truncate] (op.value as u32);
                self.start(op.slot, entity, cycle);
            } else {
                match self.entity_in(op.slot) {
                    Some(entity) => match self.find(entity) {
                        Some(i) => {
                            assert(self@.open.contains_key(entity));
                            self.set_field(i, ctx.ids, op.field_index, op.value);
                        },
                        None => {},
                    },
                    None => {},
                }
            }
        } else if op.action == DA_SLOT_CLEAR {
            self.retire(op.slot, cycle);
        }
        Ok(())
    }

    fn apply_op(&mut self, ctx: &ContextRef<'_>, op: &TimedOp) -> (res: Result<(), TraceError>)
        requires
            ctx.period_ps > 0,
            old(self)@.wf(ctx@.counters.len()),
        ensures
            match after_op(old(self)@, ctx@, *op) {
                Ok(l) => res is Ok && final(self)@ == l,
                Err(e) => res == Err::<(), TraceError>(e),
            },
    {
        if op.action == DA_SLOT_ADD {
            match find_counter(ctx.counters, op.storage_id) {
                Some(c) => {
                    let cycle: u32 = #[verifier::truncate] ((op.time_ps / ctx.period_ps) as u32);
                    self.grow(c, cycle, op.value);
                },
                None => {},
            }
        }
        if op.storage_id == ctx.ids.entities_storage_id {
            self.apply_entity_op(ctx, op)
        } else {
            Ok(())
        }
    }

    fn apply_event(&mut self, ctx: &ContextRef<'_>, ev: &TimedEvent)
        requires
            ctx.period_ps > 0,
            old(self)@.wf(ctx@.counters.len()),
        ensures
            final(self)@ == after_event(old(self)@, ctx@, ev@),
    {
        let cycle: u32 = #[verifier::truncate] ((ev.time_ps / ctx.period_ps) as u32);
        let p = ev.payload.as_slice();
        if ev.event_type_id == ctx.ids.stage_transition_event_id {
            if p.len() >= 5 {
                let stage: usize = p[4] as usize;
                let stage_idx: u16 = if stage < ctx.stages.len() {
                    ctx.stages[stage]
                } else {
                    0
                };
                self.enter(get_u32(p, 0), stage_idx, cycle);
            }
        } else if ev.event_type_id == ctx.ids.flush_event_id {
            if p.len() >= 4 {
                self.flush(get_u32(p, 0), cycle);
            }
        } else if ev.event_type_id == ctx.ids.annotate_event_id {
            if p.len() >= 8 {
                match ctx.strings {
                    Some(table) => match table.get(get_u32(p, 4)) {
                        Some(text) => {
                            self.annotate(get_u32(p, 0), text);
                        },
                        None => {},
                    },
                    None => {},
                }
            }
        } else if ev.event_type_id == ctx.ids.dependency_event_id && p.len() >= 9 {
            let kind: DepKind = if p[8] == 3 {
                DepKind::Memory
            } else {
                DepKind::Data
            };
            self.dependencies.push(
                Dependency { producer: get_u32(p, 0), consumer: get_u32(p, 4), kind },
            );
        }
    }

    /// Reads some items in turn.
    pub fn apply_items(&mut self, ctx: &ContextRef<'_>, items: &Vec<TimedItem>) -> (res: Result<
        (),
        TraceError,
    >)
        requires
            ctx.period_ps > 0,
            old(self)@.wf(ctx@.counters.len()),
        ensures
            match after_all(old(self)@, ctx@, views(items@)) {
                Ok(l) => res is Ok && final(self)@ == l && l.wf(ctx@.counters.len()),
                Err(e) => res == Err::<(), TraceError>(e),
            },
    {
        let ghost l0 = self@;
        let ghost all = views(items@);
        let ghost n = ctx@.counters.len();
        let mut i: usize = 0;
        assert(all.take(0) =~= Seq::<TimedItemView>::empty());
        while i < items.len()
            invariant
                i <= items@.len(),
                all == views(items@),
                n == ctx@.counters.len(),
                ctx.period_ps > 0,
                self@.wf(n),
                after_all(l0, ctx@, all.take(i as int)) == Ok::<Loading, TraceError>(self@),
                l0 == old(self)@,
            decreases items@.len() - i,
        {
            proof {
                assert(all.take(i + 1).drop_last() =~= all.take(i as int));
                assert(all.take(i + 1).last() == items@[i as int]@);
                law_after_item_wf(self@, ctx@, all[i as int]);
                if after_all(l0, ctx@, all.take(i + 1)) is Err {
                    lemma_after_all_err(l0, ctx@, all, i + 1);
                }
            }
            match &items[i] {
                TimedItem::Op(op) => match self.apply_op(ctx, op) {
                    Ok(()) => {},
                    Err(e) => return Err(e),
                },
                TimedItem::Event(ev) => {
                    self.apply_event(ctx, ev);
                },
            }
            i = i + 1;
        }
        assert(all.take(i as int) =~= all);
        Ok(())
    }
}

// ---------------------------------------------------------------------------
// The result.

/// Result of loading instruction data from one or more segments.
#[derive(Debug)]
pub struct SegmentLoadResult {
    pub instructions: Vec<InstructionData>,
    pub stages: Vec<StageSpan>,
    pub dependencies: Vec<Dependency>,
    /// Per-counter (cycle, cumulative_value) samples extracted during replay.
    pub counter_samples: Vec<Vec<(u32, u64)>>,
}

/// What a `SegmentLoadResult` holds.
#[verifier::ext_equal]
pub struct LoadedView {
    pub instructions: Seq<InstructionView>,
    pub stages: Seq<StageSpan>,
    pub dependencies: Seq<Dependency>,
    pub counter_samples: Seq<Seq<(u32, u64)>>,
}

impl View for SegmentLoadResult {
    type V = LoadedView;

    open spec fn view(&self) -> LoadedView {
        LoadedView {
            instructions: views(self.instructions@),
            stages: self.stages@,
            dependencies: self.dependencies@,
            counter_samples: sample_seqs(self.counter_samples@),
        }
    }
}

/// An instruction at the end: one that is still in flight ends its stage one
/// cycle after the last that is known of it.
pub open spec fn ended(b: InstrView) -> InstrView {
    if b.retire_status == RetireStatus::InFlight {
        b.closed(
            if b.last_cycle == u32::MAX {
                u32::MAX
            } else {
                (b.last_cycle + 1) as u32
            },
        )
    } else {
        b
    }
}

/// The first cycles and the numbers of those of the first `n` instructions
/// that count.
pub open spec fn keys_of(l: Loading, n: int) -> Seq<(u32, usize)>
    decreases n,
{
    if n <= 0 {
        Seq::empty()
    } else {
        let before = keys_of(l, n - 1);
        if l.kept[n - 1] {
            before.push((l.instrs[n - 1].first_cycle, (n - 1) as usize))
        } else {
            before
        }
    }
}

/// The disassembly of an instruction. Where no annotation gave it, it is the
/// mnemonic of the decoder, if there is one.
pub open spec fn disasm_of(b: InstrView, mnemonics: Option<Seq<(u32, Seq<char>)>>) -> Seq<char> {
    match (b.inst_bits, mnemonics) {
        (Some(bits), Some(m)) => if b.has_disasm_annotation {
            b.disasm
        } else {
            disasm_line(b.pc, mnemonic_from(m, bits, 0))
        },
        _ => b.disasm,
    }
}

/// The data of an instruction whose stages start at `start`.
pub open spec fn data_of(
    b: InstrView,
    start: int,
    mnemonics: Option<Seq<(u32, Seq<char>)>>,
    period_ps: u64,
) -> InstructionView {
    InstructionView {
        id: b.entity_id,
        sim_id: b.entity_id as u64,
        thread_id: 0,
        rbid: b.rbid,
        iq_id: b.iq_id,
        dq_id: b.dq_id,
        ready_cycle: match b.ready_time_ps {
            Some(t) => Some(cycle_of(t, period_ps)),
            None => None,
        },
        disasm: disasm_of(b, mnemonics),
        tooltip: b.tooltip,
        stage_start: start as u32,
        stage_end: (start + b.stages.len()) as u32,
        retire_status: b.retire_status,
        first_cycle: b.first_cycle,
        last_cycle: b.last_cycle,
    }
}

/// The first `k` instructions in the given order, and their stages.
pub open spec fn arranged(
    l: Loading,
    order: Seq<(u32, usize)>,
    mnemonics: Option<Seq<(u32, Seq<char>)>>,
    period_ps: u64,
    k: int,
) -> (Seq<InstructionView>, Seq<StageSpan>)
    decreases k,
{
    if k <= 0 {
        (Seq::empty(), Seq::empty())
    } else {
        let before = arranged(l, order, mnemonics, period_ps, k - 1);
        let b = ended(l.instrs[order[k - 1].1 as int]);
        (
            before.0.push(data_of(b, before.1.len() as int, mnemonics, period_ps)),
            before.1 + b.stages,
        )
    }
}

/// Everything that was reconstructed: the instructions in the order of their
/// first cycles, those with the same first cycle in the order in which they
/// appeared.
pub open spec fn loaded(
    l: Loading,
    mnemonics: Option<Seq<(u32, Seq<char>)>>,
    period_ps: u64,
) -> LoadedView {
    let order = sorted_keys(keys_of(l, l.instrs.len() as int));
    let all = arranged(l, order, mnemonics, period_ps, order.len() as int);
    LoadedView {
        instructions: all.0,
        stages: all.1,
        dependencies: l.dependencies,
        counter_samples: l.samples,
    }
}

/// The numbers of the keys are numbers of instructions.
proof fn lemma_keys_of(l: Loading, n: int)
    requires
        0 <= n <= l.instrs.len(),
        l.instrs.len() <= usize::MAX,
    ensures
        forall|i: int|
            0 <= i < keys_of(l, n).len() ==> {
                let k = #[trigger] keys_of(l, n)[i];
                k.1 < n && l.kept[k.1 as int] && k.0 == l.instrs[k.1 as int].first_cycle
            },
    decreases n,
{
    if n > 0 {
        lemma_keys_of(l, n - 1);
        let before = keys_of(l, n - 1);
        let now = keys_of(l, n);
        assert forall|i: int| 0 <= i < now.len() implies {
            let k = #[trigger] now[i];
            k.1 < n && l.kept[k.1 as int] && k.0 == l.instrs[k.1 as int].first_cycle
        } by {
            if i < before.len() {
                assert(now[i] == before[i]);
            }
        }
    }
}

/// What is sorted was there before.
proof fn lemma_sorted_from(keys: Seq<(u32, usize)>, i: int)
    requires
        0 <= i < sorted_keys(keys).len(),
    ensures
        keys.contains(sorted_keys(keys)[i]),
{
    broadcast use vstd::seq_lib::group_to_multiset_ensures;

    law_sorted_keys(keys);
    let s = sorted_keys(keys);
    assert(s.contains(s[i]));
    assert(s.to_multiset().count(s[i]) > 0);
    assert(keys.to_multiset().count(s[i]) > 0);
}

/// The instructions come in the order of their first cycles.
pub proof fn law_loaded_order(
    l: Loading,
    mnemonics: Option<Seq<(u32, Seq<char>)>>,
    period_ps: u64,
    i: int,
    j: int,
)
    requires
        l.kept.len() == l.instrs.len(),
        l.instrs.len() <= usize::MAX,
        0 <= i <= j < loaded(l, mnemonics, period_ps).instructions.len(),
    ensures
        loaded(l, mnemonics, period_ps).instructions[i].first_cycle <= loaded(
            l,
            mnemonics,
            period_ps,
        ).instructions[j].first_cycle,
        loaded(l, mnemonics, period_ps).instructions.len() == keys_of(
            l,
            l.instrs.len() as int,
        ).len(),
{
    let n = l.instrs.len() as int;
    let keys = keys_of(l, n);
    let order = sorted_keys(keys);
    law_sorted_keys(keys);
    lemma_arranged_len(l, order, mnemonics, period_ps, order.len() as int);
    lemma_keys_of(l, n);
    lemma_arranged_at(l, order, mnemonics, period_ps, order.len() as int, i);
    lemma_arranged_at(l, order, mnemonics, period_ps, order.len() as int, j);
    lemma_sorted_from(keys, i);
    lemma_sorted_from(keys, j);
    let p = choose|p: int| 0 <= p < keys.len() && keys[p] == order[i];
    let q = choose|q: int| 0 <= q < keys.len() && keys[q] == order[j];
    assert(keys[p].0 == l.instrs[keys[p].1 as int].first_cycle);
    assert(keys[q].0 == l.instrs[keys[q].1 as int].first_cycle);
    if i < j {
        assert(key_order()(order[i], order[j]));
    }
}

proof fn lemma_arranged_len(
    l: Loading,
    order: Seq<(u32, usize)>,
    mnemonics: Option<Seq<(u32, Seq<char>)>>,
    period_ps: u64,
    k: int,
)
    requires
        0 <= k,
    ensures
        arranged(l, order, mnemonics, period_ps, k).0.len() == k,
    decreases k,
{
    if k > 0 {
        lemma_arranged_len(l, order, mnemonics, period_ps, k - 1);
    }
}

proof fn lemma_arranged_at(
    l: Loading,
    order: Seq<(u32, usize)>,
    mnemonics: Option<Seq<(u32, Seq<char>)>>,
    period_ps: u64,
    k: int,
    i: int,
)
    requires
        0 <= i < k,
    ensures
        arranged(l, order, mnemonics, period_ps, k).0[i].first_cycle
            == l.instrs[order[i].1 as int].first_cycle,
    decreases k,
{
    lemma_arranged_len(l, order, mnemonics, period_ps, k - 1);
    if i < k - 1 {
        lemma_arranged_at(l, order, mnemonics, period_ps, k - 1, i);
    }
}

/// The stages of each instruction stand in the list of stages where its range
/// says, while that list is not too long.
pub proof fn law_stage_ranges(
    l: Loading,
    order: Seq<(u32, usize)>,
    mnemonics: Option<Seq<(u32, Seq<char>)>>,
    period_ps: u64,
    k: int,
    i: int,
)
    requires
        0 <= i < k,
        arranged(l, order, mnemonics, period_ps, k).1.len() <= u32::MAX,
    ensures
        ({
            let (instructions, stages) = arranged(l, order, mnemonics, period_ps, k);
            let d = instructions[i];
            &&& d.stage_start <= d.stage_end <= stages.len()
            &&& stages.subrange(d.stage_start as int, d.stage_end as int) == ended(
                l.instrs[order[i].1 as int],
            ).stages
        }),
    decreases k,
{
    lemma_arranged_len(l, order, mnemonics, period_ps, k - 1);
    let before = arranged(l, order, mnemonics, period_ps, k - 1);
    let now = arranged(l, order, mnemonics, period_ps, k);
    let b = ended(l.instrs[order[k - 1].1 as int]);
    if i < k - 1 {
        law_stage_ranges(l, order, mnemonics, period_ps, k - 1, i);
        let d = before.0[i];
        assert(now.1.subrange(d.stage_start as int, d.stage_end as int) =~= before.1.subrange(
            d.stage_start as int,
            d.stage_end as int,
        ));
    } else {
        assert(now.1.subrange(before.1.len() as int, now.1.len() as int) =~= b.stages);
    }
}

/// Appends the stages of an instruction.
fn put_stages(out: &mut Vec<StageSpan>, stages: &Vec<StageSpan>)
    ensures
        final(out)@ == old(out)@ + stages@,
{
    let mut i: usize = 0;
    assert(out@ =~= old(out)@ + stages@.take(0));
    while i < stages.len()
        invariant
            i <= stages@.len(),
            out@ == old(out)@ + stages@.take(i as int),
        decreases stages@.len() - i,
    {
        out.push(stages[i]);
        i = i + 1;
        assert(out@ =~= old(out)@ + stages@.take(i as int));
    }
    assert(stages@.take(i as int) =~= stages@);
}

/// The mnemonics of a decoder.
pub open spec fn opt_mnemonics(m: Option<&Vec<(u32, String)>>) -> Option<Seq<(u32, Seq<char>)>> {
    match m {
        Some(v) => Some(mnemonic_texts(v@)),
        None => None,
    }
}

/// The data of an instruction whose stages start at `start` and end at `end`.
fn describe(
    b: &InstrBuilder,
    start: usize,
    end: usize,
    mnemonics: Option<&Vec<(u32, String)>>,
    period_ps: u64,
) -> (d: InstructionData)
    requires
        period_ps > 0,
        end == start + b.stages@.len(),
    ensures
        d@ == data_of(b@, start as int, opt_mnemonics(mnemonics), period_ps),
{
    let mut disasm: String = b.disasm.clone();
    if !b.has_disasm_annotation {
        match (b.inst_bits, mnemonics) {
            (Some(bits), Some(m)) => {
                disasm = make_disasm_line(b.pc, decode_instruction(m, bits));
            },
            _ => {},
        }
    }
    let ready_cycle: Option<u32> = match b.ready_time_ps {
        Some(t) => Some(#[verifier::truncate] ((t / period_ps) as u32)),
        None => None,
    };
    let first: u32 = #[verifier::truncate] (start as u32);
    let last: u32 = #[verifier::truncate] (end as u32);
    InstructionData {
        id: b.entity_id,
        sim_id: b.entity_id as u64,
        thread_id: 0,
        rbid: b.rbid,
        iq_id: b.iq_id,
        dq_id: b.dq_id,
        ready_cycle,
        disasm,
        tooltip: b.tooltip.clone(),
        stage_range: first..last,
        retire_status: b.retire_status,
        first_cycle: b.first_cycle,
        last_cycle: b.last_cycle,
    }
}

impl Loader {
    /// The first cycles and the numbers of the instructions that count.
    fn keys(&self) -> (keys: Vec<(u32, usize)>)
        requires
            self@.kept.len() == self@.instrs.len(),
        ensures
            keys@ == keys_of(self@, self@.instrs.len() as int),
    {
        let mut keys: Vec<(u32, usize)> = Vec::new();
        let mut i: usize = 0;
        assert(keys@ =~= keys_of(self@, 0));
        while i < self.instrs.len()
            invariant
                i <= self.instrs@.len(),
                self@.kept.len() == self@.instrs.len(),
                keys@ == keys_of(self@, i as int),
            decreases self.instrs@.len() - i,
        {
            if self.kept[i] {
                keys.push((self.instrs[i].first_cycle, i));
            }
            i = i + 1;
        }
        keys
    }

    /// Ends all instructions that are still in flight.
    fn end_all(&mut self)
        ensures
            final(self)@ == (Loading {
                instrs: old(self)@.instrs.map_values(|b: InstrView| ended(b)),
                ..old(self)@
            }),
    {
        let ghost o = self@;
        let ghost want = o.instrs.map_values(|b: InstrView| ended(b));
        let mut i: usize = 0;
        while i < self.instrs.len()
            invariant
                i <= self.instrs@.len(),
                want == o.instrs.map_values(|b: InstrView| ended(b)),
                self@ == (Loading { instrs: self@.instrs, ..o }),
                self@.instrs.len() == o.instrs.len(),
                forall|k: int|
                    0 <= k < self@.instrs.len() ==> #[trigger] self@.instrs[k] == if k < i {
                        want[k]
                    } else {
                        o.instrs[k]
                    },
            decreases self.instrs@.len() - i,
        {
            let ghost before = self@;
            assert(before.instrs[i as int] == o.instrs[i as int]);
            if self.instrs[i].retire_status == RetireStatus::InFlight {
                let last: u32 = self.instrs[i].last_cycle;
                let end: u32 = if last == u32::MAX {
                    last
                } else {
                    last + 1
                };
                self.instrs[i].close_current_stage(end);
            }
            assert(self@.instrs =~= before.instrs.update(i as int, want[i as int]));
            i = i + 1;
        }
        assert(self@.instrs =~= want);
        assert(self@ =~= (Loading { instrs: want, ..o }));
    }

    /// Puts the instructions in order.
    pub fn finish(self, mnemonics: Option<&Vec<(u32, String)>>, period_ps: u64) -> (r:
        SegmentLoadResult)
        requires
            period_ps > 0,
            self@.kept.len() == self@.instrs.len(),
        ensures
            r@ == loaded(self@, opt_mnemonics(mnemonics), period_ps),
    {
        let ghost l = self@;
        let ghost m = opt_mnemonics(mnemonics);
        let ghost n = l.instrs.len() as int;
        let keys = self.keys();
        let count: usize = self.instrs.len();
        let order = sort_keys(keys);
        let mut all = self;
        all.end_all();
        let mut instructions: Vec<InstructionData> = Vec::new();
        let mut stages: Vec<StageSpan> = Vec::new();
        let mut k: usize = 0;
        proof {
            lemma_keys_of(l, n);
            assert(views(instructions@) =~= Seq::<InstructionView>::empty());
            assert(stages@ =~= Seq::<StageSpan>::empty());
        }
        while k < order.len()
            invariant
                k <= order@.len(),
                period_ps > 0,
                n == l.instrs.len(),
                n == count,
                m == opt_mnemonics(mnemonics),
                order@ == sorted_keys(keys_of(l, n)),
                all@ == (Loading { instrs: all@.instrs, ..l }),
                all@.instrs == l.instrs.map_values(|b: InstrView| ended(b)),
                forall|i: int|
                    0 <= i < keys_of(l, n).len() ==> (#[trigger] keys_of(l, n)[i]).1 < n,
                (views(instructions@), stages@) == arranged(l, order@, m, period_ps, k as int),
            decreases order@.len() - k,
        {
            let i: usize = order[k].1;
            proof {
                lemma_sorted_from(keys_of(l, n), k as int);
                let p = choose|p: int|
                    0 <= p < keys_of(l, n).len() && keys_of(l, n)[p] == order@[k as int];
                assert(keys_of(l, n)[p].1 < n);
                assert(all@.instrs.len() == n);
                assert(all.instrs@.len() == n);
                assert(all@.instrs[i as int] == all.instrs@[i as int]@);
            }
            let b = &all.instrs[i];
            assert(b@ == ended(l.instrs[i as int]));
            let start: usize = stages.len();
            put_stages(&mut stages, &b.stages);
            let end: usize = stages.len();
            let d = describe(b, start, end, mnemonics, period_ps);
            let ghost before = views(instructions@);
            instructions.push(d);
            assert(views(instructions@) =~= before.push(d@));
            k = k + 1;
        }
        SegmentLoadResult {
            instructions,
            stages,
            dependencies: all.dependencies,
            counter_samples: all.samples,
        }
    }
}

// ---------------------------------------------------------------------------
// Fields and annotations.

/// Setting a field of the slot of an entity in flight sets what the field says
/// of its instruction, and nothing else.
pub proof fn law_field_set(l: Loading, ctx: Context, entity: u32, op: TimedOp)
    requires
        l.wf(ctx.counters.len()),
        op.storage_id == ctx.ids.entities_storage_id,
        op.action == DA_SLOT_SET,
        op.field_index != ctx.ids.field_entity_id,
        l.slots.contains_key(op.slot),
        l.slots[op.slot] == entity,
        l.open.contains_key(entity),
    ensures
        ({
            let m = after_item(l, ctx, TimedItemView::Op(op));
            let a = l.instr(entity);
            let b = m->Ok_0.instr(entity);
            let f = op.field_index;
            let ids = ctx.ids;
            &&& m is Ok
            &&& m->Ok_0.open == l.open
            &&& m->Ok_0.slots == l.slots
            &&& b.pc == if f == ids.field_pc {
                op.value
            } else {
                a.pc
            }
            &&& f != ids.field_pc ==> {
                &&& b.disasm == a.disasm
                &&& ids.field_inst_bits == Some(f) ==> b.inst_bits == Some(op.value as u32)
                &&& ids.field_inst_bits != Some(f) ==> {
                    &&& b.inst_bits == a.inst_bits
                    &&& ids.field_rbid == Some(f) ==> b.rbid == Some(op.value as u32)
                    &&& ids.field_rbid != Some(f) ==> {
                        &&& b.rbid == a.rbid
                        &&& ids.field_iq_id == Some(f) ==> b.iq_id == Some(op.value as u32)
                        &&& ids.field_iq_id != Some(f) ==> {
                            &&& b.iq_id == a.iq_id
                            &&& ids.field_dq_id == Some(f) ==> b.dq_id == Some(op.value as u32)
                            &&& ids.field_dq_id != Some(f) ==> {
                                &&& b.dq_id == a.dq_id
                                &&& ids.field_ready_time_ps == Some(f) ==> b.ready_time_ps == Some(
                                    op.value,
                                )
                                &&& ids.field_ready_time_ps != Some(f) ==> b == a
                            }
                        }
                    }
                }
            }
            &&& b.stages == a.stages && b.current_stage == a.current_stage
            &&& b.first_cycle == a.first_cycle && b.last_cycle == a.last_cycle
            &&& b.tooltip == a.tooltip && b.retire_status == a.retire_status
        }),
{
}

/// An annotation that does not start with the address of its instruction is
/// another line of the tooltip; one that does is the disassembly.
pub proof fn law_annotated(b: InstrView, text: Seq<char>)
    ensures
        ({
            let now = annotated(b, text);
            &&& names_address(text, b.pc) ==> now.disasm == text && now.tooltip == b.tooltip
            &&& !names_address(text, b.pc) ==> {
                &&& now.disasm == b.disasm
                &&& b.tooltip.len() == 0 ==> now.tooltip == text
                &&& b.tooltip.len() > 0 ==> {
                    let n = b.tooltip.len() as int;
                    &&& now.tooltip.len() == n + 1 + text.len()
                    &&& now.tooltip.take(n) == b.tooltip
                    &&& now.tooltip[n] == '\n'
                    &&& now.tooltip.subrange(n + 1, now.tooltip.len() as int) == text
                }
            }
            &&& now.stages == b.stages && now.retire_status == b.retire_status
        }),
{
    let now = annotated(b, text);
    let n = b.tooltip.len() as int;
    if !names_address(text, b.pc) {
        if n == 0 {
            assert(now.tooltip =~= text);
        } else {
            assert(now.tooltip.take(n) =~= b.tooltip);
            assert(now.tooltip.subrange(n + 1, now.tooltip.len() as int) =~= text);
        }
    }
}

/// What is recorded as an annotation of an entity in flight is annotated with
/// the text that it refers to.
pub proof fn law_annotation_read(l: Loading, ctx: Context, entity: u32, ev: TimedEventView)
    requires
        l.wf(ctx.counters.len()),
        l.open.contains_key(entity),
        ev.event_type_id == ctx.ids.annotate_event_id,
        ev.event_type_id != ctx.ids.stage_transition_event_id,
        ev.event_type_id != ctx.ids.flush_event_id,
        ev.payload.len() >= 8,
        u32_at(ev.payload, 0) == entity,
        ctx.strings is Some,
        u32_at(ev.payload, 4) < ctx.strings->Some_0.len(),
    ensures
        ({
            let m = after_item(l, ctx, TimedItemView::Event(ev));
            let text = ctx.strings->Some_0[u32_at(ev.payload, 4) as int];
            &&& m is Ok
            &&& m->Ok_0.open == l.open
            &&& m->Ok_0.instr(entity) == annotated(l.instr(entity), text)
        }),
{
}

/// An instruction that is still in flight at the end is shown in its last stage
/// until one cycle after the last that is known of it.
pub proof fn law_ended(b: InstrView)
    requires
        b.retire_status == RetireStatus::InFlight,
        b.last_cycle < u32::MAX,
    ensures
        ({
            let e = ended(b);
            &&& e.current_stage is None
            &&& e.retire_status == RetireStatus::InFlight
            &&& b.current_stage is None ==> e == b
            &&& b.current_stage matches Some((stage, start)) ==> {
                &&& e.stages.len() == b.stages.len() + 1
                &&& e.stages.drop_last() == b.stages
                &&& e.stages.last().stage_name_idx == stage
                &&& e.stages.last().start_cycle == start
                &&& e.stages.last().end_cycle == b.last_cycle + 1
                &&& e.last_cycle == b.last_cycle + 1
            }
        }),
{
    if b.current_stage is Some {
        assert(ended(b).stages.drop_last() =~= b.stages);
    }
}

/// Setting the ID of an entity starts a new instruction for it in the slot, in
/// the cycle of the operation. One that was in flight for the same entity is
/// not shown any more.
pub proof fn law_started(l: Loading, ctx: Context, op: TimedOp)
    requires
        l.wf(ctx.counters.len()),
        l.instrs.len() < u32::MAX,
        op.storage_id == ctx.ids.entities_storage_id,
        op.action == DA_SLOT_SET,
        op.field_index == ctx.ids.field_entity_id,
        op.value <= u32::MAX,
        ctx.period_ps > 0,
        op.time_ps / ctx.period_ps <= u32::MAX,
    ensures
        ({
            let m = after_item(l, ctx, TimedItemView::Op(op));
            let n = l.instrs.len() as int;
            let entity = op.value as u32;
            let b = m->Ok_0.instrs[n];
            &&& m is Ok
            &&& m->Ok_0.instrs.len() == n + 1
            &&& m->Ok_0.instrs.take(n) == l.instrs
            &&& m->Ok_0.slots.contains_key(op.slot) && m->Ok_0.slots[op.slot] == entity
            &&& m->Ok_0.open.contains_key(entity) && m->Ok_0.open[entity] == n
            &&& m->Ok_0.kept[n]
            &&& l.open.contains_key(entity) ==> !m->Ok_0.kept[l.open[entity] as int]
            &&& b.entity_id == entity
            &&& b.first_cycle == op.time_ps / ctx.period_ps
            &&& b.last_cycle == b.first_cycle
            &&& b.retire_status == RetireStatus::InFlight
            &&& b.stages.len() == 0 && b.current_stage is None && b.tooltip.len() == 0
        }),
{
    let m = after_item(l, ctx, TimedItemView::Op(op))->Ok_0;
    assert(m.instrs.take(l.instrs.len() as int) =~= l.instrs);
    let (t, p) = (op.time_ps, ctx.period_ps);
    assert(t / p >= 0) by (nonlinear_arith)
        requires
            p > 0,
    ;
}

/// An instruction is shown with its entity as its ID, in thread 0, with the
/// cycle in which it was ready, and with the disassembly that an annotation
/// gave it, whatever a decoder says.
pub proof fn law_data_of(
    b: InstrView,
    start: int,
    mnemonics: Option<Seq<(u32, Seq<char>)>>,
    period_ps: u64,
)
    requires
        period_ps > 0,
        0 <= start,
        start + b.stages.len() <= u32::MAX,
        b.ready_time_ps matches Some(t) ==> t / period_ps <= u32::MAX,
    ensures
        ({
            let d = data_of(b, start, mnemonics, period_ps);
            &&& d.id == b.entity_id && d.sim_id == b.entity_id && d.thread_id == 0
            &&& d.rbid == b.rbid && d.iq_id == b.iq_id && d.dq_id == b.dq_id
            &&& d.ready_cycle is Some <==> b.ready_time_ps is Some
            &&& b.ready_time_ps matches Some(t) ==> d.ready_cycle->Some_0 == t / period_ps
            &&& d.stage_start == start && d.stage_end == start + b.stages.len()
            &&& d.first_cycle == b.first_cycle && d.last_cycle == b.last_cycle
            &&& d.tooltip == b.tooltip && d.retire_status == b.retire_status
            &&& b.has_disasm_annotation || mnemonics is None || b.inst_bits is None ==> d.disasm
                == b.disasm
        }),
{
    if let Some(t) = b.ready_time_ps {
        assert(t / period_ps >= 0) by (nonlinear_arith)
            requires
                period_ps > 0,
        ;
    }
}

/// A decoder gives an instruction without an annotation its disassembly: the
/// address, unless it is zero, and the mnemonic of its first entry for the
/// bits.
pub proof fn law_decoded(b: InstrView, bits: u32, m: Seq<(u32, Seq<char>)>, k: int)
    requires
        b.inst_bits == Some(bits),
        !b.has_disasm_annotation,
        0 <= k < m.len(),
        m[k].0 == bits,
        forall|j: int| 0 <= j < k ==> (#[trigger] m[j]).0 != bits,
    ensures
        b.pc == 0 ==> disasm_of(b, Some(m)) == m[k].1,
        b.pc != 0 ==> disasm_of(b, Some(m)) == address_text(b.pc as nat) + " "@ + m[k].1,
{
    crate::cpu::decode::law_mnemonic(m, bits, 0);
}

} // verus!
