//! The stages that are shown of an instruction are those that were recorded.

use vstd::prelude::*;
use crate::bytes::u32_at;
use crate::cpu::builder::InstrView;
use crate::cpu::life_laws::{
    apart, end_item, fetch_items, fetched, fields_differ, finished, law_after_item_apart,
    law_instruction_life, lemma_all_growing, life, only_in, quiet, shows, slot_of,
};
use crate::cpu::load::{after_all, after_item, loaded, Context, LoadedView, Loading};
use crate::cpu::open_laws::{keeps, plain_names, plain_stages, protocol_planned};
use crate::cpu::session_laws::{law_after_all_join, law_cpu_trace, law_loading_all};
use crate::cpu::trace::{numbers, trace_opened};
use crate::cpu::types::{RetireStatus, StageSpan};
use crate::error::TraceError;
use crate::protocols::cpu::{cpu_draft, cpu_names, cpu_properties, CpuPlan};
use crate::query::{all_segments, stage_text};
use crate::roundtrip::{closing, sound, trace_items};
use crate::schema::{dut_desc, Draft};
use crate::state::{TimedEventView, TimedItemView};
use crate::string_pool::Pool;
use crate::trace::{string_data, Recording};

verus! {

/// The stage transitions that were recorded of an entity: the number of the
/// stage, which is the fifth byte of the payload, and the time.
pub open spec fn transitions(
    items: Seq<TimedItemView>,
    event_type_id: u16,
    entity: u32,
) -> Seq<(u8, u64)>
    decreases items.len(),
{
    if items.len() == 0 {
        Seq::empty()
    } else {
        let before = transitions(items.drop_last(), event_type_id, entity);
        match items.last() {
            TimedItemView::Event(ev) => if ev.event_type_id == event_type_id && ev.payload.len()
                >= 5 && u32_at(ev.payload, 0) == entity {
                before.push((ev.payload[4], ev.time_ps))
            } else {
                before
            },
            TimedItemView::Op(_) => before,
        }
    }
}

/// Whether a transition is into one of `n` stages, in a cycle up to `last`.
pub open spec fn into_stage(t: (u8, u64), n: int, period_ps: u64, last: int) -> bool {
    t.0 < n && t.1 / period_ps <= last
}

/// Whether a span is the one between a transition and the cycle in which it
/// ended.
pub open spec fn spans_from(s: StageSpan, t: (u8, u64), period_ps: u64, end: int) -> bool {
    &&& s.stage_name_idx == t.0
    &&& s.lane == 0
    &&& s.start_cycle == t.1 / period_ps
    &&& s.end_cycle == end
}

/// A recorded transition into stage `s` of a trace with `n` stages puts the
/// instruction in the stage with number `s`, from the cycle of the transition
/// on.
pub proof fn law_stage_entered(l: Loading, ctx: Context, n: nat, entity: u32, ev: TimedEventView)
    requires
        l.wf(ctx.counters.len()),
        ctx.stages == numbers(n),
        ctx.period_ps > 0,
        l.open.contains_key(entity),
        ev.event_type_id == ctx.ids.stage_transition_event_id,
        ev.payload.len() >= 5,
        u32_at(ev.payload, 0) == entity,
        ev.payload[4] < n,
        ev.time_ps / ctx.period_ps <= u32::MAX,
    ensures
        ({
            let m = after_item(l, ctx, TimedItemView::Event(ev));
            &&& m is Ok
            &&& m->Ok_0.open == l.open
            &&& m->Ok_0.instr(entity).current_stage matches Some((stage, start)) && stage
                == ev.payload[4] && start == ev.time_ps / ctx.period_ps
        }),
{
    let t = ev.time_ps;
    let p = ctx.period_ps;
    assert(t / p >= 0) by (nonlinear_arith)
        requires
            p > 0,
    ;
}

/// What the life of an instruction leaves of its stages.
proof fn lemma_life_stages(
    b: InstrView,
    ctx: Context,
    n: nat,
    items: Seq<TimedItemView>,
    entity: u32,
    slot: u16,
    last: u32,
)
    requires
        b.stages.len() == 0,
        b.current_stage is None,
        b.last_cycle <= last,
        ctx.stages == numbers(n),
        ctx.period_ps > 0,
        ({
            let ts = transitions(items, ctx.ids.stage_transition_event_id, entity);
            forall|k: int|
                0 <= k < ts.len() ==> into_stage(
                    #[trigger] ts[k],
                    n as int,
                    ctx.period_ps,
                    last as int,
                )
        }),
    ensures
        ({
            let ts = transitions(items, ctx.ids.stage_transition_event_id, entity);
            let c = life(b, ctx, items, entity, slot);
            &&& c.last_cycle <= last
            &&& ts.len() == 0 ==> c.stages.len() == 0 && c.current_stage is None && c.last_cycle
                == b.last_cycle
            &&& ts.len() > 0 ==> {
                &&& c.stages.len() == ts.len() - 1
                &&& c.current_stage matches Some((stage, start)) && stage == ts.last().0 && start
                    == ts.last().1 / ctx.period_ps
                &&& forall|k: int|
                    0 <= k < ts.len() - 1 ==> spans_from(
                        #[trigger] c.stages[k],
                        ts[k],
                        ctx.period_ps,
                        (ts[k + 1].1 / ctx.period_ps) as int,
                    )
            }
        }),
    decreases items.len(),
{
    if items.len() > 0 {
        let id = ctx.ids.stage_transition_event_id;
        let init = items.drop_last();
        let before = transitions(init, id, entity);
        let ts = transitions(items, id, entity);
        assert forall|k: int| 0 <= k < before.len() implies into_stage(
            #[trigger] before[k],
            n as int,
            ctx.period_ps,
            last as int,
        ) by {
            assert(ts[k] == before[k]);
        }
        lemma_life_stages(b, ctx, n, init, entity, slot, last);
        let a = life(b, ctx, init, entity, slot);
        let c = life(b, ctx, items, entity, slot);
        if ts.len() > before.len() {
            let t = ts[before.len() as int];
            assert(into_stage(t, n as int, ctx.period_ps, last as int));
            let (x, p) = (t.1, ctx.period_ps);
            assert(x / p >= 0) by (nonlinear_arith)
                requires
                    p > 0,
            ;
            assert forall|k: int| 0 <= k < ts.len() - 1 implies spans_from(
                #[trigger] c.stages[k],
                ts[k],
                ctx.period_ps,
                (ts[k + 1].1 / ctx.period_ps) as int,
            ) by {
                if k < before.len() - 1 {
                    assert(c.stages[k] == a.stages[k]);
                    assert(ts[k] == before[k] && ts[k + 1] == before[k + 1]);
                }
            }
        } else {
            assert(ts == before);
            assert(c.stages == a.stages && c.current_stage == a.current_stage);
            assert(c.last_cycle == a.last_cycle);
        }
    }
}

/// Whether place `k` of what was loaded shows an instruction with the given
/// fetch, transitions and end: as many spans as transitions, each in the stage
/// of its transition, with the name of that stage, from the cycle of its
/// transition to that of the next, the last to that of the end.
pub open spec fn shows_stages(
    r: LoadedView,
    k: int,
    names: Seq<Seq<char>>,
    period_ps: u64,
    entity: u32,
    start: u64,
    ts: Seq<(u8, u64)>,
    flush: Option<u8>,
    end: u64,
) -> bool {
    &&& 0 <= k < r.instructions.len()
    &&& ({
        let d = r.instructions[k];
        &&& d.id == entity
        &&& d.first_cycle == start / period_ps
        &&& d.last_cycle == if ts.len() == 0 {
            start / period_ps
        } else {
            end / period_ps
        }
        &&& d.retire_status == if flush is Some {
            RetireStatus::Flushed
        } else {
            RetireStatus::Retired
        }
        &&& d.stage_start <= d.stage_end <= r.stages.len()
        &&& d.stage_end - d.stage_start == ts.len()
        &&& forall|j: int|
            #![trigger r.stages[d.stage_start + j]]
            0 <= j < ts.len() ==> {
                let s = r.stages[d.stage_start + j];
                &&& spans_from(
                    s,
                    ts[j],
                    period_ps,
                    if j + 1 < ts.len() {
                        (ts[j + 1].1 / period_ps) as int
                    } else {
                        (end / period_ps) as int
                    },
                )
                &&& stage_text(names, s.stage_name_idx) == names[ts[j].0 as int]
            }
    })
}

/// An instruction that was fetched, went through some stages and was retired or
/// flushed is shown with exactly these stages: the span with number `j` has the
/// stage, and the name of the stage, of the transition with number `j`.
#[verifier::spinoff_prover]
#[verifier::rlimit(60)]
pub proof fn law_shown_stages(
    l: Loading,
    ctx: Context,
    entity: u32,
    pc: u64,
    inst_bits: u32,
    start: u64,
    meanwhile: Seq<TimedItemView>,
    flush: Option<u8>,
    end: u64,
    after: Seq<TimedItemView>,
    m: Loading,
    mnemonics: Option<Seq<(u32, Seq<char>)>>,
)
    requires
        l.wf(ctx.counters.len()),
        apart(l),
        l.instrs.len() < u32::MAX,
        only_in(l, entity, slot_of(entity)),
        fields_differ(ctx.ids),
        ctx.ids.flush_event_id != ctx.ids.stage_transition_event_id,
        ctx.stages == numbers(ctx.ids.stage_names.len()),
        ctx.period_ps > 0,
        start <= end,
        end / ctx.period_ps <= u32::MAX,
        forall|i: int|
            0 <= i < meanwhile.len() ==> quiet(
                #[trigger] meanwhile[i],
                ctx.ids,
                entity,
                slot_of(entity),
            ),
        ({
            let ts = transitions(meanwhile, ctx.ids.stage_transition_event_id, entity);
            forall|k: int|
                0 <= k < ts.len() ==> (#[trigger] ts[k]).0 < ctx.ids.stage_names.len() && ts[k].1
                    <= end
        }),
        after_all(
            l,
            ctx,
            fetch_items(ctx.ids, entity, pc, inst_bits, start) + (meanwhile + (seq![
                end_item(ctx.ids, entity, flush, end),
            ] + after)),
        ) == Ok::<Loading, TraceError>(m),
        loaded(m, mnemonics, ctx.period_ps).stages.len() <= u32::MAX,
    ensures
        exists|k: int| #[trigger]
            shows_stages(
                loaded(m, mnemonics, ctx.period_ps),
                k,
                ctx.ids.stage_names,
                ctx.period_ps,
                entity,
                start,
                transitions(meanwhile, ctx.ids.stage_transition_event_id, entity),
                flush,
                end,
            ),
{
    let p = ctx.period_ps;
    let n = ctx.ids.stage_names.len();
    let ts = transitions(meanwhile, ctx.ids.stage_transition_event_id, entity);
    let slot = slot_of(entity);
    let r = loaded(m, mnemonics, p);
    assert(0 <= start / p <= end / p) by (nonlinear_arith)
        requires
            start <= end,
            p > 0,
    ;
    let last = (end / p) as u32;
    assert forall|k: int| 0 <= k < ts.len() implies into_stage(
        #[trigger] ts[k],
        n as int,
        p,
        last as int,
    ) by {
        let x = ts[k].1;
        assert(x / p <= end / p) by (nonlinear_arith)
            requires
                x <= end,
                p > 0,
        ;
    }
    law_instruction_life(
        l,
        ctx,
        entity,
        pc,
        inst_bits,
        start,
        meanwhile,
        flush,
        end,
        after,
        m,
        mnemonics,
    );
    let first = (start / p) as u32;
    let born = fetched(entity, l.instrs.len() as u32, pc, inst_bits, first);
    lemma_life_stages(born, ctx, n, meanwhile, entity, slot, last);
    let b = life(born, ctx, meanwhile, entity, slot);
    let done = finished(b, flush, last);
    let k = choose|k: int| #[trigger] shows(r, k, done);
    let d = r.instructions[k];
    assert(done.stages.len() == ts.len());
    assert forall|j: int|
        #![trigger r.stages[d.stage_start + j]]
        0 <= j < ts.len() implies {
        let s = r.stages[d.stage_start + j];
        &&& spans_from(
            s,
            ts[j],
            p,
            if j + 1 < ts.len() {
                (ts[j + 1].1 / p) as int
            } else {
                (end / p) as int
            },
        )
        &&& stage_text(ctx.ids.stage_names, s.stage_name_idx) == ctx.ids.stage_names[ts[j].0 as int]
    } by {
        let s = r.stages[d.stage_start + j];
        assert(s == r.stages.subrange(d.stage_start as int, d.stage_end as int)[j]);
        assert(s == done.stages[j]);
        assert(into_stage(ts[j], n as int, p, last as int));
        if j + 1 < ts.len() {
            assert(done.stages[j] == b.stages[j]);
        }
    }
    assert(shows_stages(r, k, ctx.ids.stage_names, p, entity, start, ts, flush, end));
}

/// Loading from nothing keeps the instructions of different entities apart.
proof fn lemma_all_apart(ctx: Context, items: Seq<TimedItemView>)
    requires
        after_all(Loading::empty(ctx.counters.len()), ctx, items) is Ok,
    ensures
        apart(after_all(Loading::empty(ctx.counters.len()), ctx, items)->Ok_0),
    decreases items.len(),
{
    let none = Loading::empty(ctx.counters.len());
    if items.len() > 0 {
        let init = items.drop_last();
        lemma_all_apart(ctx, init);
        lemma_all_growing(none, ctx, init);
        law_after_item_apart(after_all(none, ctx, init)->Ok_0, ctx, items.last());
    }
}

/// In a finished trace that was written for a CPU with the stages of a plan, an
/// instruction that was fetched, went through some stages and was retired or
/// flushed is shown with exactly these stages: a transition that was recorded
/// for stage `s` gives a span in the stage with number `s`, whose name is name
/// `s` of the plan.
#[verifier::spinoff_prover]
#[verifier::rlimit(60)]
pub proof fn law_planned_stages(
    rec: Recording,
    time: u64,
    plan: CpuPlan,
    q: Pool,
    file_name: Seq<char>,
    total_us: Seq<char>,
    before: Seq<TimedItemView>,
    entity: u32,
    pc: u64,
    inst_bits: u32,
    start: u64,
    meanwhile: Seq<TimedItemView>,
    flush: Option<u8>,
    end: u64,
    after: Seq<TimedItemView>,
    mnemonics: Option<Seq<(u32, Seq<char>)>>,
)
    requires
        sound(rec),
        rec.strings.len() <= u32::MAX,
        string_data(rec.strings).len() <= u32::MAX,
        rec.segments.len() <= usize::MAX,
        Pool::empty().fits_all(cpu_names(plan)),
        keeps(cpu_draft(plan).pool, q),
        rec.schema == (Draft { pool: q, ..cpu_draft(plan) }).finished(),
        rec.dut == dut_desc(q, cpu_properties(plan)),
        forall|i: int|
            0 <= i < cpu_properties(plan).len() ==> q.index.contains_key(
                (#[trigger] cpu_properties(plan)[i]).0,
            ) && q.index.contains_key(cpu_properties(plan)[i].1),
        plain_stages(plan.pipeline_stages),
        plain_names(plan),
        plan.clock_period_ps > 0,
        trace_items(rec.segments, rec.schema.storages.len() as int) == before + (fetch_items(
            protocol_planned(plan),
            entity,
            pc,
            inst_bits,
            start,
        ) + (meanwhile + (seq![end_item(protocol_planned(plan), entity, flush, end)] + after))),
        ({
            let t = trace_opened(rec.closed_image(time), file_name, total_us)->Ok_0;
            let l = after_all(Loading::empty(t.counters.len()), t.context(), before);
            l matches Ok(l) ==> only_in(l, entity, slot_of(entity)) && l.instrs.len() < u32::MAX
        }),
        forall|i: int|
            0 <= i < meanwhile.len() ==> quiet(
                #[trigger] meanwhile[i],
                protocol_planned(plan),
                entity,
                slot_of(entity),
            ),
        start <= end,
        end / (plan.clock_period_ps as u64) <= u32::MAX,
        ({
            let ts = transitions(
                meanwhile,
                protocol_planned(plan).stage_transition_event_id,
                entity,
            );
            forall|k: int|
                0 <= k < ts.len() ==> (#[trigger] ts[k]).0 < plan.pipeline_stages.len() && ts[k].1
                    <= end
        }),
    ensures
        ({
            let t = trace_opened(rec.closed_image(time), file_name, total_us)->Ok_0;
            let n = rec.segments.len();
            &&& trace_opened(rec.closed_image(time), file_name, total_us) is Ok
            &&& t.loaded(all_segments(n), mnemonics) matches Ok(r) ==> r.stages.len() <= u32::MAX
                ==> exists|k: int| #[trigger]
                shows_stages(
                    r,
                    k,
                    plan.pipeline_stages,
                    plan.clock_period_ps as u64,
                    entity,
                    start,
                    transitions(
                        meanwhile,
                        protocol_planned(plan).stage_transition_event_id,
                        entity,
                    ),
                    flush,
                    end,
                )
        }),
{
    law_cpu_trace(rec, time, plan, q, file_name, total_us);
    let t = trace_opened(rec.closed_image(time), file_name, total_us)->Ok_0;
    let n = rec.segments.len();
    let ids = protocol_planned(plan);
    law_loading_all(t, rec, closing(rec));
    let none = Loading::empty(t.counters.len());
    let rest = fetch_items(ids, entity, pc, inst_bits, start) + (meanwhile + (seq![
        end_item(ids, entity, flush, end),
    ] + after));
    law_after_all_join(none, t.context(), before, rest);
    let all = t.loading(all_segments(n), n as int);
    if all is Ok && loaded(all->Ok_0, mnemonics, t.period_ps).stages.len() <= u32::MAX {
        let l = after_all(none, t.context(), before)->Ok_0;
        lemma_all_apart(t.context(), before);
        lemma_all_growing(none, t.context(), before);
        law_shown_stages(
            l,
            t.context(),
            entity,
            pc,
            inst_bits,
            start,
            meanwhile,
            flush,
            end,
            after,
            all->Ok_0,
            mnemonics,
        );
    }
}

} // verus!
