//! What is read from a schema and from a recording, in terms of what stands in
//! them.

use vstd::prelude::*;
use crate::analysis::{counts_of, cycles_in, law_count_in, times_in, total_of};
use crate::commands::{all_cycles, counter_outputs};
use crate::cpu::buffer_laws::law_buffer_state;
use crate::cpu::buffers::buffer_in;
use crate::cpu::resolve::{
    buffers_of, cpu_scope_from, event_from, field_number, protocol_in, protocol_of, storage_from,
    ProtocolView,
};
use crate::cpu::trace::CpuTraceView;
use crate::cpu::types::{BufferInfoView, InstructionView, RetireStatus, StageSpan};
use crate::density::{bucket_of_row, law_bucket_of_row, rows_before};
use crate::error::TraceError;
use crate::konata_emit::{doubled, slots_for};
use crate::mipmap::total;
use crate::mipmap_laws::{adds_in_cycles, in_order, law_summary_largest, span};
use crate::numerals::{decimal, joined};
use crate::protocols::cpu::{cpu_properties, optional_property, width_text, CpuPlan};
use crate::query::{law_sample_cycles, sample_cycles_of};
use crate::reader::{events_of, events_within, find_property, merged, named_properties, ReaderView};
use crate::report::storage_infos;
use crate::roundtrip::{
    in_time, items_until, law_events_in_range, law_items_in_time, law_segment_replay,
    lemma_segment_facts, reads, segment_items, sound, trace_items,
};
use crate::schema::{field_named, law_field_from, SchemaView};
use crate::state::{TimedEventView, TimedItemView, TimedOp};
use crate::string_pool::pool_get;
use crate::summarize::{
    counters_of, entities_from, gathered, marks_of, summary_of, summed, CounterView,
};
use crate::summary::SummaryView;
use crate::tally::{countable, density, reached, starts_in, Mark};
use crate::tools::counter_reports;
use crate::trace::{layouts_of, Recording, Segment};
use crate::types::{DutProperty, FieldType, ScopeDef, StorageDefView};

verus! {

// ---------------------------------------------------------------------------
// Events and times.

/// The events of some items are the items that are events, in their order.
pub proof fn law_events_of(items: Seq<TimedItemView>)
    ensures
        events_of(items) == items.filter(|i: TimedItemView| i is Event).map_values(
            |i: TimedItemView| i->Event_0,
        ),
    decreases items.len(),
{
    reveal(Seq::filter);
    let f = |i: TimedItemView| i is Event;
    let g = |i: TimedItemView| i->Event_0;
    if items.len() > 0 {
        law_events_of(items.drop_last());
        let before = items.drop_last().filter(f);
        if items.last() is Event {
            assert(before.push(items.last()).map_values(g) =~= before.map_values(g).push(
                items.last()->Event_0,
            ));
        }
    }
    assert(events_of(items) =~= items.filter(f).map_values(g));
}

/// The events within a time range are those that are not before its start and
/// not after its end, in their order.
pub proof fn law_events_within(events: Seq<TimedEventView>, t0: u64, t1: u64)
    ensures
        events_within(events, t0, t1) == events.filter(
            |e: TimedEventView| t0 <= e.time_ps && e.time_ps <= t1,
        ),
    decreases events.len(),
{
    reveal(Seq::filter);
    if events.len() > 0 {
        law_events_within(events.drop_last(), t0, t1);
    }
    assert(events_within(events, t0, t1) =~= events.filter(
        |e: TimedEventView| t0 <= e.time_ps && e.time_ps <= t1,
    ));
}

/// The items up to a time are those that are not after it, in their order.
pub proof fn law_items_until(items: Seq<TimedItemView>, t: u64)
    ensures
        items_until(items, t) == items.filter(|i: TimedItemView| i.time() <= t),
    decreases items.len(),
{
    reveal(Seq::filter);
    if items.len() > 0 {
        law_items_until(items.drop_last(), t);
    }
    assert(items_until(items, t) =~= items.filter(|i: TimedItemView| i.time() <= t));
}

/// Reading the events of a time range gives all events that were recorded at
/// its start, at its end or between them, each once and in the order in which
/// they were recorded.
pub proof fn law_events_read(v: ReaderView, rec: Recording, tail: Seq<u8>, t0: u64, t1: u64)
    requires
        sound(rec),
        reads(v, rec, tail),
    ensures
        ({
            let items = trace_items(rec.segments, rec.schema.storages.len() as int);
            v.events_in_range(t0, t1) == Ok::<Seq<TimedEventView>, TraceError>(
                items.filter(|i: TimedItemView| i is Event).map_values(
                    |i: TimedItemView| i->Event_0,
                ).filter(|e: TimedEventView| t0 <= e.time_ps && e.time_ps <= t1),
            )
        }),
{
    let items = trace_items(rec.segments, rec.schema.storages.len() as int);
    law_events_in_range(v, rec, tail, t0, t1);
    law_events_of(items);
    law_events_within(events_of(items), t0, t1);
}

/// A buffer shows at a cycle what everything recorded up to the start of the
/// cycle leads to.
pub proof fn law_buffer_at_cycle(
    t: CpuTraceView,
    rec: Recording,
    tail: Seq<u8>,
    buffer: int,
    cycle: u32,
)
    requires
        sound(rec),
        reads(t.reader, rec, tail),
        rec.segments.len() > 0,
        0 <= buffer < t.buffers.len(),
        cycle * t.period_ps <= u64::MAX,
        forall|k: int|
            0 <= k < rec.schema.storages.len() && (#[trigger] rec.schema.storages[k]).storage_id
                == t.ids.entities_storage_id ==> rec.schema.storages[k].sparse(),
    ensures
        ({
            let time = cycle * t.period_ps;
            let items = trace_items(rec.segments, rec.schema.storages.len() as int).filter(
                |i: TimedItemView| i.time() <= time,
            );
            t.buffer_state(buffer, cycle) == buffer_in(
                rec.schema,
                layouts_of(rec.schema.storages),
                crate::state::after_items(
                    crate::trace::initial_states(rec.schema.storages),
                    layouts_of(rec.schema.storages),
                    items,
                ),
                t.buffers[buffer],
                t.ids.entities_storage_id,
            )
        }),
{
    let time = (cycle * t.period_ps) as u64;
    let items = trace_items(rec.segments, rec.schema.storages.len() as int);
    law_buffer_state(t, rec, tail, t.buffers[buffer], time);
    law_items_until(items, time);
    let f = |i: TimedItemView| i.time() <= time;
    let g = |i: TimedItemView| i.time() <= cycle * t.period_ps;
    assert(f =~= g);
}

// ---------------------------------------------------------------------------
// Schemas.

/// Whether a field of a storage is found under a name: the first with that
/// name, and none where there is none.
pub open spec fn found_as(
    schema: SchemaView,
    s: StorageDefView,
    found: Option<u16>,
    name: Seq<char>,
) -> bool {
    match found {
        Some(k) => {
            &&& k < s.fields.len()
            &&& schema.string(s.fields[k as int].name) == Some(name)
            &&& forall|j: int|
                0 <= j < k ==> schema.string((#[trigger] s.fields[j]).name) != Some(name)
        },
        None => forall|j: int|
            0 <= j < s.fields.len() ==> schema.string((#[trigger] s.fields[j]).name) != Some(name),
    }
}

proof fn lemma_found(schema: SchemaView, s: StorageDefView, name: Seq<char>)
    requires
        s.fields.len() <= u16::MAX,
    ensures
        found_as(schema, s, field_number(schema, s, name), name),
{
    law_field_from(schema, s.fields, name, 0);
}

/// Whether an event type of a scope has a name.
pub open spec fn event_named(schema: SchemaView, scope_id: u16, id: u16, name: Seq<char>) -> bool {
    exists|i: int|
        0 <= i < schema.events.len() && (#[trigger] schema.events[i]).event_type_id == id
            && schema.events[i].scope_id == scope_id && schema.string(schema.events[i].name)
            == Some(name)
}

proof fn lemma_event_from(schema: SchemaView, scope_id: u16, name: Seq<char>, i: int)
    requires
        0 <= i,
    ensures
        event_from(schema, scope_id, name, i) matches Some(id) ==> event_named(
            schema,
            scope_id,
            id,
            name,
        ),
    decreases schema.events.len() - i,
{
    if i < schema.events.len() {
        lemma_event_from(schema, scope_id, name, i + 1);
        assert(schema.events[i].event_type_id == schema.events[i].event_type_id);
    }
}

proof fn lemma_storage_from(schema: SchemaView, scope_id: u16, name: Seq<char>, i: int)
    requires
        0 <= i,
    ensures
        storage_from(schema, scope_id, name, i) matches Some(s) ==> schema.storages.contains(s)
            && s.scope_id == scope_id && schema.string(s.name) == Some(name),
    decreases schema.storages.len() - i,
{
    if i < schema.storages.len() {
        lemma_storage_from(schema, scope_id, name, i + 1);
        assert(schema.storages.contains(schema.storages[i]));
    }
}

proof fn lemma_scope_from(schema: SchemaView, i: int)
    requires
        0 <= i,
    ensures
        cpu_scope_from(schema, i) matches Some(s) ==> schema.scopes.contains(s) && schema.string(
            s.protocol,
        ) == Some("cpu"@),
    decreases schema.scopes.len() - i,
{
    if i < schema.scopes.len() {
        lemma_scope_from(schema, i + 1);
        assert(schema.scopes.contains(schema.scopes[i]));
    }
}

/// Whether the numbers of a protocol are those of the storage, the fields and
/// the events of a scope with their names.
pub open spec fn named_rightly(
    schema: SchemaView,
    p: ProtocolView,
    scope: ScopeDef,
    s: StorageDefView,
) -> bool {
    &&& schema.scopes.contains(scope)
    &&& schema.string(scope.protocol) == Some("cpu"@)
    &&& schema.storages.contains(s)
    &&& s.scope_id == scope.scope_id
    &&& schema.string(s.name) == Some("entities"@)
    &&& p.entities_storage_id == s.storage_id
    &&& found_as(schema, s, Some(p.field_entity_id), "entity_id"@)
    &&& found_as(schema, s, Some(p.field_pc), "pc"@)
    &&& found_as(schema, s, p.field_inst_bits, "inst_bits"@)
    &&& found_as(schema, s, p.field_rbid, "rbid"@)
    &&& found_as(schema, s, p.field_iq_id, "iq_id"@)
    &&& found_as(schema, s, p.field_dq_id, "dq_id"@)
    &&& found_as(schema, s, p.field_ready_time_ps, "ready_time_ps"@)
    &&& event_named(schema, scope.scope_id, p.stage_transition_event_id, "stage_transition"@)
    &&& event_named(schema, scope.scope_id, p.annotate_event_id, "annotate"@)
    &&& event_named(schema, scope.scope_id, p.dependency_event_id, "dependency"@)
    &&& event_named(schema, scope.scope_id, p.flush_event_id, "flush"@)
    &&& scope.clock_id < schema.clock_domains.len() ==> p.period_ps
        == schema.clock_domains[scope.clock_id as int].period_ps
    &&& scope.clock_id >= schema.clock_domains.len() ==> p.period_ps == 1000
}

/// The protocol of a CPU trace is that of a scope that follows it: with the
/// storage of that scope that is named for the entities, the fields of that
/// storage by their names, the events by theirs, and the clock of the scope.
pub proof fn law_protocol_named(v: ReaderView, p: ProtocolView)
    requires
        protocol_of(v) == Ok::<ProtocolView, TraceError>(p),
        forall|i: int|
            0 <= i < v.schema.storages.len() ==> (#[trigger] v.schema.storages[i]).fields.len()
                <= u16::MAX,
    ensures
        exists|scope: ScopeDef, s: StorageDefView| #[trigger]
            named_rightly(v.schema, p, scope, s),
{
    let schema = v.schema;
    let scope = cpu_scope_from(schema, 0)->Some_0;
    let id = scope.scope_id;
    let s = storage_from(schema, id, "entities"@, 0)->Some_0;
    lemma_scope_from(schema, 0);
    lemma_storage_from(schema, id, "entities"@, 0);
    let k = choose|k: int| 0 <= k < schema.storages.len() && schema.storages[k] == s;
    assert(schema.storages[k].fields.len() <= u16::MAX);
    assert(protocol_in(v, scope, s) == Ok::<ProtocolView, TraceError>(p));
    lemma_found(schema, s, "entity_id"@);
    lemma_found(schema, s, "pc"@);
    lemma_found(schema, s, "inst_bits"@);
    lemma_found(schema, s, "rbid"@);
    lemma_found(schema, s, "iq_id"@);
    lemma_found(schema, s, "dq_id"@);
    lemma_found(schema, s, "ready_time_ps"@);
    lemma_event_from(schema, id, "stage_transition"@, 0);
    lemma_event_from(schema, id, "annotate"@, 0);
    lemma_event_from(schema, id, "dependency"@, 0);
    lemma_event_from(schema, id, "flush"@, 0);
    assert(named_rightly(schema, p, scope, s));
}

/// The counters of a schema are its storages with one slot and one field of 64
/// bits that are neither sparse nor buffers, in their order.
pub proof fn law_counters_of(schema: SchemaView, n: int)
    requires
        0 <= n <= schema.storages.len(),
    ensures
        counters_of(schema, n).map_values(|c: CounterView| c.storage_id)
            == schema.storages.take(n).filter(
            |s: StorageDefView|
                s.num_slots == 1 && !s.sparse() && !s.buffer() && s.fields.len() == 1
                    && s.fields[0].field_type == FieldType::U64.spec_code(),
        ).map_values(|s: StorageDefView| s.storage_id),
    decreases n,
{
    reveal(Seq::filter);
    let f = |s: StorageDefView|
        s.num_slots == 1 && !s.sparse() && !s.buffer() && s.fields.len() == 1
            && s.fields[0].field_type == FieldType::U64.spec_code();
    let g = |c: CounterView| c.storage_id;
    let h = |s: StorageDefView| s.storage_id;
    let some = schema.storages.take(n);
    if n > 0 {
        law_counters_of(schema, n - 1);
        let s = schema.storages[n - 1];
        assert(some.drop_last() =~= schema.storages.take(n - 1));
        assert(some.last() == s);
        let before = counters_of(schema, n - 1);
        let kept = schema.storages.take(n - 1).filter(f);
        if f(s) {
            assert(kept.push(s).map_values(h) =~= kept.map_values(h).push(s.storage_id));
            assert(counters_of(schema, n).map_values(g) =~= before.map_values(g).push(
                s.storage_id,
            ));
        }
    }
    assert(counters_of(schema, n).map_values(g) =~= some.filter(f).map_values(h));
}

/// The buffers of a schema are its storages that are marked as such, in their
/// order, each with as many slots as the storage has.
pub proof fn law_buffers_of(schema: SchemaView, n: int)
    requires
        0 <= n <= schema.storages.len(),
    ensures
        buffers_of(schema, n).map_values(|b: BufferInfoView| (b.storage_id, b.capacity))
            == schema.storages.take(n).filter(|s: StorageDefView| s.buffer()).map_values(
            |s: StorageDefView| (s.storage_id, s.num_slots),
        ),
    decreases n,
{
    reveal(Seq::filter);
    let f = |s: StorageDefView| s.buffer();
    let g = |b: BufferInfoView| (b.storage_id, b.capacity);
    let h = |s: StorageDefView| (s.storage_id, s.num_slots);
    let some = schema.storages.take(n);
    if n > 0 {
        law_buffers_of(schema, n - 1);
        let s = schema.storages[n - 1];
        assert(some.drop_last() =~= schema.storages.take(n - 1));
        assert(some.last() == s);
        let before = buffers_of(schema, n - 1);
        let kept = schema.storages.take(n - 1).filter(f);
        if f(s) {
            assert(kept.push(s).map_values(h) =~= kept.map_values(h).push(h(s)));
            assert(buffers_of(schema, n).map_values(g) =~= before.map_values(g).push(h(s)));
        }
    }
    assert(buffers_of(schema, n).map_values(g) =~= some.filter(f).map_values(h));
}

/// A property has the value of the first entry with its key; without such an
/// entry it has none.
pub proof fn law_find_property(ps: Seq<DutProperty>, pool: Seq<u8>, key: Seq<char>)
    ensures
        forall|i: int|
            0 <= i < ps.len() && pool_get(pool, (#[trigger] ps[i]).key as int) == Some(key) && (
            forall|j: int|
                0 <= j < i ==> pool_get(pool, (#[trigger] ps[j]).key as int) != Some(key))
                ==> find_property(ps, pool, key) == pool_get(pool, ps[i].value as int),
        (forall|i: int|
            0 <= i < ps.len() ==> pool_get(pool, (#[trigger] ps[i]).key as int) != Some(key))
            ==> find_property(ps, pool, key) is None,
    decreases ps.len(),
{
    if ps.len() > 0 {
        let rest = ps.drop_first();
        law_find_property(rest, pool, key);
        assert forall|i: int|
            0 <= i < ps.len() && pool_get(pool, (#[trigger] ps[i]).key as int) == Some(key) && (
            forall|j: int|
                0 <= j < i ==> pool_get(pool, (#[trigger] ps[j]).key as int) != Some(
                    key,
                )) implies find_property(ps, pool, key) == pool_get(pool, ps[i].value as int) by {
            if i > 0 {
                assert(pool_get(pool, ps[0].key as int) != Some(key));
                assert(rest[i - 1] == ps[i]);
                assert forall|j: int| 0 <= j < i - 1 implies pool_get(
                    pool,
                    (#[trigger] rest[j]).key as int,
                ) != Some(key) by {
                    assert(rest[j] == ps[j + 1]);
                }
            }
        }
        if forall|i: int|
            0 <= i < ps.len() ==> pool_get(pool, (#[trigger] ps[i]).key as int) != Some(key) {
            assert(pool_get(pool, ps[0].key as int) != Some(key));
            assert forall|j: int| 0 <= j < rest.len() implies pool_get(
                pool,
                (#[trigger] rest[j]).key as int,
            ) != Some(key) by {
                assert(rest[j] == ps[j + 1]);
            }
        }
    }
}

/// The slots of a log are a power of two, enough for all instructions in
/// flight, and half of them would not be.
pub proof fn law_slots_for(max_in_flight: u32)
    ensures
        exists|e: nat| #[trigger] vstd::arithmetic::power2::pow2(e) == slots_for(max_in_flight),
        slots_for(max_in_flight) >= max_in_flight,
        slots_for(max_in_flight) == 1 || slots_for(max_in_flight) < 2 * max_in_flight,
{
    vstd::arithmetic::power2::lemma_pow2(0);
    vstd::arithmetic::power::lemma_pow0(2);
    lemma_doubled(max_in_flight as int, 1, 0);
}

proof fn lemma_doubled(n: int, p: int, e: nat)
    requires
        p >= 1,
        p == vstd::arithmetic::power2::pow2(e),
        p == 1 || p < 2 * n,
    ensures
        exists|e: nat| #[trigger] vstd::arithmetic::power2::pow2(e) == doubled(n, p),
        doubled(n, p) >= n,
        doubled(n, p) == 1 || doubled(n, p) < 2 * n,
    decreases
            if n > p {
                n - p
            } else {
                0
            },
{
    if p < n {
        vstd::arithmetic::power2::lemma_pow2_unfold((e + 1) as nat);
        lemma_doubled(n, 2 * p, e + 1);
    }
}

// ---------------------------------------------------------------------------
// Summaries.

/// How many instructions a bucket of the finest level counts: as many as start
/// in it.
pub proof fn law_starts_in(marks: Seq<Mark>, b: int)
    requires
        in_order(marks),
    ensures
        starts_in(marks, b) == marks.filter(|m: Mark| m is Start && m.bucket() == b).len(),
    decreases marks.len(),
{
    reveal(Seq::filter);
    if marks.len() > 0 {
        let init = marks.drop_last();
        assert forall|x: int, y: int| 0 <= x <= y < init.len() implies (#[trigger] init[x]).bucket()
            <= (#[trigger] init[y]).bucket() by {
            assert(marks[x].bucket() <= marks[y].bucket());
        }
        law_starts_in(init, b);
        lemma_reached(marks);
    }
}

proof fn lemma_reached(marks: Seq<Mark>)
    requires
        in_order(marks),
        marks.len() > 0,
    ensures
        reached(marks) == marks.last().bucket(),
    decreases marks.len(),
{
    let init = marks.drop_last();
    if init.len() > 0 {
        assert forall|x: int, y: int| 0 <= x <= y < init.len() implies (#[trigger] init[x]).bucket()
            <= (#[trigger] init[y]).bucket() by {
            assert(marks[x].bucket() <= marks[y].bucket());
        }
        lemma_reached(init);
        let n = marks.len() - 1;
        assert(marks[n - 1].bucket() <= marks[n].bucket());
        assert(init.last() == marks[n - 1]);
    } else {
        assert(reached(init) == 0);
    }
}

proof fn lemma_marks_join(
    a: Seq<TimedItemView>,
    b: Seq<TimedItemView>,
    counters: Seq<CounterView>,
    entities: Option<(u16, u16)>,
    period: u64,
)
    ensures
        marks_of(a + b, counters, entities, period) == marks_of(a, counters, entities, period)
            + marks_of(b, counters, entities, period),
    decreases b.len(),
{
    let x = marks_of(a, counters, entities, period);
    if b.len() == 0 {
        assert(a + b =~= a);
        assert(x + marks_of(b, counters, entities, period) =~= x);
    } else {
        lemma_marks_join(a, b.drop_last(), counters, entities, period);
        assert((a + b).drop_last() =~= a + b.drop_last());
        assert((a + b).last() == b.last());
        assert(marks_of(a + b, counters, entities, period) =~= x + marks_of(
            b,
            counters,
            entities,
            period,
        ));
    }
}

proof fn lemma_gathered_prefix(
    v: ReaderView,
    rec: Recording,
    tail: Seq<u8>,
    n: int,
    counters: Seq<CounterView>,
    entities: Option<(u16, u16)>,
    period: u64,
)
    requires
        sound(rec),
        reads(v, rec, tail),
        0 <= n <= rec.segments.len(),
        gathered(v, n, counters, entities, period) is Ok,
    ensures
        gathered(v, n, counters, entities, period)->Ok_0 == marks_of(
            trace_items(rec.segments.take(n), rec.schema.storages.len() as int),
            counters,
            entities,
            period,
        ),
        n > 0 ==> countable(
            gathered(v, n, counters, entities, period)->Ok_0,
            counters.len() as int,
        ),
    decreases n,
{
    let storages = rec.schema.storages.len() as int;
    if n == 0 {
        assert(rec.segments.take(0) =~= Seq::<Segment>::empty());
    } else {
        let k = n - 1;
        lemma_gathered_prefix(v, rec, tail, k, counters, entities, period);
        law_segment_replay(v, rec, tail, k, None);
        lemma_segment_facts(rec, k);
        let seg = rec.segments.take(n);
        assert(seg.drop_last() =~= rec.segments.take(k));
        assert(seg.last() == rec.segments[k]);
        lemma_marks_join(
            trace_items(rec.segments.take(k), storages),
            segment_items(rec, k),
            counters,
            entities,
            period,
        );
    }
}

/// The summary of a trace with segments that has anything to count counts what
/// was recorded, all of it and in order.
pub proof fn law_summary_recorded(
    v: ReaderView,
    rec: Recording,
    tail: Seq<u8>,
    period: u64,
    s: SummaryView,
)
    requires
        sound(rec),
        reads(v, rec, tail),
        rec.segments.len() > 0,
        summary_of(v, period) == Ok::<SummaryView, TraceError>(s),
        entities_from(v.schema, 0) is Some || counters_of(
            v.schema,
            v.schema.storages.len() as int,
        ).len() > 0,
    ensures
        ({
            let counters = counters_of(v.schema, v.schema.storages.len() as int);
            let items = trace_items(rec.segments, rec.schema.storages.len() as int);
            let marks = marks_of(items, counters, entities_from(v.schema, 0), period);
            &&& s == summed(counters, marks)
            &&& countable(marks, counters.len() as int)
            &&& in_time(items)
            &&& period > 0
        }),
{
    let counters = counters_of(v.schema, v.schema.storages.len() as int);
    let entities = entities_from(v.schema, 0);
    let n = rec.segments.len() as int;
    assert(v.table.len() == n);
    lemma_gathered_prefix(v, rec, tail, n, counters, entities, period);
    assert(rec.segments.take(n) =~= rec.segments);
    law_items_in_time(rec);
}

/// On every level of the summary of a trace, the entry of a counter bounds all
/// that was added to the counter in the cycles that the entry covers, which are
/// 1024 on the finest level and four times as many on each coarser one; its
/// maximum, if not zero, was added in one of them.
pub proof fn law_trace_summary(
    v: ReaderView,
    rec: Recording,
    tail: Seq<u8>,
    period: u64,
    s: SummaryView,
    c: int,
    l: int,
    i: int,
)
    requires
        sound(rec),
        reads(v, rec, tail),
        rec.segments.len() > 0,
        summary_of(v, period) == Ok::<SummaryView, TraceError>(s),
        0 <= c < counters_of(v.schema, v.schema.storages.len() as int).len(),
        0 <= l < s.counters[c].levels.len(),
        0 <= i < s.counters[c].levels[l].len(),
    ensures
        ({
            let counters = counters_of(v.schema, v.schema.storages.len() as int);
            let items = trace_items(rec.segments, rec.schema.storages.len() as int);
            let e = s.counters[c].levels[l][i];
            let (from, to) = (1024 * (i * span(l)), 1024 * ((i + 1) * span(l)));
            &&& s.counters[c].name == counters[c].name
            &&& forall|j: int, d: u64|
                #![trigger adds_in_cycles(items[j], counters, period, c, from, to, d)]
                0 <= j < items.len() && adds_in_cycles(
                    items[j],
                    counters,
                    period,
                    c,
                    from,
                    to,
                    d,
                ) ==> e.min_delta <= d <= e.max_delta
            &&& e.max_delta > 0 ==> exists|j: int|
                0 <= j < items.len() && #[trigger] adds_in_cycles(
                    items[j],
                    counters,
                    period,
                    c,
                    from,
                    to,
                    e.max_delta,
                )
        }),
{
    let counters = counters_of(v.schema, v.schema.storages.len() as int);
    let items = trace_items(rec.segments, rec.schema.storages.len() as int);
    law_summary_recorded(v, rec, tail, period, s);
    law_summary_largest(items, counters, entities_from(v.schema, 0), period, c, l, i);
}

/// The cycle of a row is the start of the bucket that holds the row: up to the
/// bucket there are no more rows than the given one has before it, and with the
/// bucket there are more.
pub proof fn law_cycle_of_row(s: SummaryView, row: int, b: int)
    requires
        row >= 0,
        s.instruction_density.len() > 0,
        0 <= b < s.instruction_density[0].len(),
        rows_before(s.instruction_density[0], b) <= row < rows_before(
            s.instruction_density[0],
            b + 1,
        ),
    ensures
        s.cycle_of_row(row) == b * s.base_interval_cycles,
{
    let level = s.instruction_density[0];
    law_bucket_of_row(level, row);
    let x = bucket_of_row(level, row, 0);
    if x < b {
        lemma_rows_grow(level, x + 1, b);
    } else if x > b {
        lemma_rows_grow(level, b + 1, x);
    }
}

proof fn lemma_rows_grow(level: Seq<u32>, a: int, b: int)
    requires
        0 <= a <= b <= level.len(),
    ensures
        rows_before(level, a) <= rows_before(level, b),
    decreases b - a,
{
    if a < b {
        lemma_rows_grow(level, a, b - 1);
        crate::mipmap::lemma_total_push(crate::mipmap::counts(level), b - 1);
    }
}

// ---------------------------------------------------------------------------
// Reports.

/// The instructions of a range are counted by what became of them.
pub proof fn law_counts_of(is: Seq<InstructionView>, start: u32, end: u32)
    requires
        is.len() <= u64::MAX,
    ensures
        ({
            let c = counts_of(is, start, end);
            &&& c.total == is.filter(
                |i: InstructionView| start <= i.first_cycle && i.first_cycle < end,
            ).len()
            &&& c.retired == is.filter(
                |i: InstructionView|
                    start <= i.first_cycle && i.first_cycle < end && i.retire_status
                        == RetireStatus::Retired,
            ).len()
            &&& c.flushed == is.filter(
                |i: InstructionView|
                    start <= i.first_cycle && i.first_cycle < end && i.retire_status
                        == RetireStatus::Flushed,
            ).len()
            &&& c.in_flight == is.filter(
                |i: InstructionView|
                    start <= i.first_cycle && i.first_cycle < end && i.retire_status
                        == RetireStatus::InFlight,
            ).len()
            &&& c.total == c.retired + c.flushed + c.in_flight
        }),
{
    let n = is.len() as int;
    assert(is.take(n) =~= is);
    let all = Set::<RetireStatus>::full();
    let (a, b, c) = (
        set![RetireStatus::Retired],
        set![RetireStatus::Flushed],
        set![RetireStatus::InFlight],
    );
    law_count_in(is, start, end, all, n);
    law_count_in(is, start, end, a, n);
    law_count_in(is, start, end, b, n);
    law_count_in(is, start, end, c, n);
    crate::analysis::law_counts(is, start, end, n);
    let f = |s: Set<RetireStatus>|
        |i: InstructionView|
            start <= i.first_cycle && i.first_cycle < end && s.contains(i.retire_status);
    assert(f(all) =~= |i: InstructionView| start <= i.first_cycle && i.first_cycle < end);
    assert(f(a) =~= |i: InstructionView|
        start <= i.first_cycle && i.first_cycle < end && i.retire_status == RetireStatus::Retired);
    assert(f(b) =~= |i: InstructionView|
        start <= i.first_cycle && i.first_cycle < end && i.retire_status == RetireStatus::Flushed);
    assert(f(c) =~= |i: InstructionView|
        start <= i.first_cycle && i.first_cycle < end && i.retire_status == RetireStatus::InFlight);
}

/// The total of a stage has the cycles and the number of its spans: more cycles
/// than fit are given as the most that do.
pub proof fn law_total_of(spans: Seq<StageSpan>, stage: u16, n: int)
    requires
        times_in(spans, stage, n) <= u64::MAX,
    ensures
        ({
            let t = total_of(spans, stage, n);
            &&& t.stage == stage
            &&& t.count == times_in(spans, stage, n)
            &&& cycles_in(spans, stage, n) <= u64::MAX ==> t.total_cycles == cycles_in(
                spans,
                stage,
                n,
            )
            &&& cycles_in(spans, stage, n) > u64::MAX ==> t.total_cycles == u64::MAX
        }),
{
}

/// All cycles of a range are its start, its end and every cycle between them,
/// in their order; a range that ends before it starts has none.
pub proof fn law_all_cycles(start: u32, end: u32)
    ensures
        start > end ==> all_cycles(start, end).len() == 0,
        start <= end ==> {
            let c = all_cycles(start, end);
            &&& c[0] == start
            &&& c.last() == end
            &&& forall|k: int| 0 <= k < c.len() - 1 ==> (#[trigger] c[k]) + 1 == c[k + 1]
        },
{
}

/// The values that are shown of a counter are its values at the cycles asked
/// for.
pub proof fn law_counter_outputs(
    t: CpuTraceView,
    counters: Seq<usize>,
    cycles: Seq<u32>,
    i: int,
    k: int,
)
    requires
        0 <= i < counters.len(),
        0 <= k < cycles.len(),
    ensures
        ({
            let o = counter_outputs(t, counters, cycles);
            &&& o.len() == counters.len()
            &&& o[i].name == t.counters[counters[i] as int].name
            &&& o[i].values.len() == cycles.len()
            &&& o[i].values[k].0 == cycles[k]
            &&& o[i].values[k].1 == t.counter_value(counters[i] as int, cycles[k])
        }),
{
}

/// The report on a counter starts with its value at the start of the range and
/// ends with its value at the end, and what it grew by makes the difference,
/// modulo 2^64.
pub proof fn law_counter_reports(
    t: CpuTraceView,
    counters: Seq<usize>,
    start: u32,
    end: u32,
    i: int,
)
    requires
        0 <= i < counters.len(),
        start <= end,
    ensures
        ({
            let r = counter_reports(t, counters, start, end);
            let v = r[i].values;
            &&& r.len() == counters.len()
            &&& r[i].growth.name == t.counters[counters[i] as int].name
            &&& v.len() > 0
            &&& v[0] == (start, t.counter_value(counters[i] as int, start))
            &&& v.last() == (end, t.counter_value(counters[i] as int, end))
            &&& (v[0].1 + r[i].growth.delta) % 0x1_0000_0000_0000_0000 == v.last().1
        }),
{
    law_sample_cycles(start, end);
    crate::analysis::law_counter_growth(t, counters[i] as int, start, start, end);
    let s = sample_cycles_of(start, end);
    let v = counter_reports(t, counters, start, end)[i].values;
    assert(v.len() == s.len());
    assert(v[0].0 == s[0] as u32);
    assert(v[v.len() - 1].0 == s[s.len() - 1] as u32);
}

// ---------------------------------------------------------------------------
// Properties and listings.

/// The properties of a design are those of its entries whose key and value can
/// both be read, in their order, each with its key first.
pub proof fn law_named_properties(ps: Seq<DutProperty>, pool: Seq<u8>)
    ensures
        named_properties(ps, pool) == ps.filter(
            |p: DutProperty|
                pool_get(pool, p.key as int) is Some && pool_get(pool, p.value as int) is Some,
        ).map_values(
            |p: DutProperty|
                (
                    pool_get(pool, p.key as int)->Some_0,
                    pool_get(pool, p.value as int)->Some_0,
                ),
        ),
    decreases ps.len(),
{
    reveal(Seq::filter);
    let f = |p: DutProperty|
        pool_get(pool, p.key as int) is Some && pool_get(pool, p.value as int) is Some;
    let g = |p: DutProperty|
        (pool_get(pool, p.key as int)->Some_0, pool_get(pool, p.value as int)->Some_0);
    if ps.len() > 0 {
        law_named_properties(ps.drop_last(), pool);
        let kept = ps.drop_last().filter(f);
        if f(ps.last()) {
            assert(kept.push(ps.last()).map_values(g) =~= kept.map_values(g).push(g(ps.last())));
        }
    }
    assert(named_properties(ps, pool) =~= ps.filter(f).map_values(g));
}

/// What a plan says of a CPU stands in its properties, each under its key.
pub proof fn law_cpu_properties(plan: CpuPlan)
    ensures
        ({
            let ps = cpu_properties(plan);
            &&& ps.contains(("dut_name"@, plan.scope_name))
            &&& ps.contains(("cpu.pipeline_stages"@, joined(plan.pipeline_stages, ","@)))
            &&& plan.isa.len() > 0 ==> ps.contains(("cpu.isa"@, plan.isa))
            &&& plan.fetch_width matches Some(w) ==> ps.contains(
                ("cpu.fetch_width"@, decimal(w as nat)),
            )
            &&& plan.commit_width matches Some(w) ==> ps.contains(
                ("cpu.commit_width"@, decimal(w as nat)),
            )
            &&& plan.elf_path matches Some(path) ==> ps.contains(("cpu.elf_path"@, path))
            &&& plan.vendor matches Some(name) ==> ps.contains(("cpu.vendor"@, name))
        }),
{
    let ps = cpu_properties(plan);
    let a = seq![("dut_name"@, plan.scope_name), ("cpu.protocol_version"@, "0.1"@)];
    let b = optional_property(
        "cpu.isa"@,
        if plan.isa.len() == 0 {
            None
        } else {
            Some(plan.isa)
        },
    );
    let c = seq![("cpu.pipeline_stages"@, joined(plan.pipeline_stages, ","@))];
    let d = optional_property("cpu.fetch_width"@, width_text(plan.fetch_width));
    let e = optional_property("cpu.commit_width"@, width_text(plan.commit_width));
    let f = optional_property("cpu.elf_path"@, plan.elf_path);
    let g = optional_property("cpu.vendor"@, plan.vendor);
    assert(ps[0] == a[0]);
    let n = (a + b).len() as int;
    assert(ps[n] == c[0]);
    if b.len() > 0 {
        assert(ps[2] == b[0]);
    }
    if d.len() > 0 {
        assert(ps[n + 1] == d[0]);
    }
    if e.len() > 0 {
        assert(ps[n + 1 + d.len()] == e[0]);
    }
    if f.len() > 0 {
        assert(ps[n + 1 + d.len() + e.len()] == f[0]);
    }
    if g.len() > 0 {
        assert(ps[n + 1 + d.len() + e.len() + f.len()] == g[0]);
    }
}

/// The listing of a schema has every storage with its number, its slots, its
/// fields, its properties and its flags, in their order.
pub proof fn law_storage_infos(schema: SchemaView, i: int)
    requires
        0 <= i < schema.storages.len(),
    ensures
        ({
            let r = storage_infos(schema);
            let s = schema.storages[i];
            &&& r.len() == schema.storages.len()
            &&& r[i].storage_id == s.storage_id
            &&& r[i].num_slots == s.num_slots
            &&& schema.string(s.name) matches Some(name) ==> r[i].name == name
            &&& r[i].flags.contains("sparse"@) <==> s.sparse()
            &&& r[i].flags.contains("buffer"@) <==> s.buffer()
            &&& r[i].fields.len() == s.fields.len()
            &&& r[i].properties.len() == s.properties.len()
            &&& forall|k: int|
                0 <= k < s.fields.len() ==> {
                    let f = #[trigger] r[i].fields[k];
                    &&& f.type_code == s.fields[k].field_type
                    &&& schema.string(s.fields[k].name) matches Some(name) ==> f.name == name
                }
            &&& forall|k: int|
                0 <= k < s.properties.len() ==> {
                    let f = #[trigger] r[i].properties[k];
                    &&& f.type_code == s.properties[k].field_type
                    &&& f.role == s.properties[k].role
                    &&& f.pair_id == s.properties[k].pair_id
                    &&& schema.string(s.properties[k].name) matches Some(name) ==> f.name == name
                }
        }),
{
    reveal_strlit("sparse");
    reveal_strlit("buffer");
    assert("sparse"@[0] == 's' && "buffer"@[0] == 'b');
    let s = schema.storages[i];
    let flags = storage_infos(schema)[i].flags;
    if s.sparse() {
        assert(flags[0] == "sparse"@);
    }
    if s.buffer() {
        assert(flags[flags.len() - 1] == "buffer"@);
    }
}

// ---------------------------------------------------------------------------
// Operations and events that were written apart.

/// Whether operations come in the order of their times.
pub open spec fn ops_in_time(ops: Seq<TimedOp>) -> bool {
    forall|i: int, j: int|
        0 <= i <= j < ops.len() ==> (#[trigger] ops[i]).time_ps <= (#[trigger] ops[j]).time_ps
}

/// Whether events come in the order of their times.
pub open spec fn events_in_time(events: Seq<TimedEventView>) -> bool {
    forall|i: int, j: int|
        0 <= i <= j < events.len() ==> (#[trigger] events[i]).time_ps <= (
        #[trigger] events[j]).time_ps
}

/// Whether no item comes after a later one, and at one time operations come
/// before events.
pub open spec fn well_merged(items: Seq<TimedItemView>) -> bool {
    forall|i: int, j: int|
        0 <= i < j < items.len() ==> {
            &&& (#[trigger] items[i]).time() <= (#[trigger] items[j]).time()
            &&& items[i] is Event && items[j] is Op ==> items[i].time() < items[j].time()
        }
}

/// Operations and events in the order of their times are merged into that
/// order: at one time operations come before events.
pub proof fn law_merged_order(ops: Seq<TimedOp>, events: Seq<TimedEventView>)
    requires
        ops_in_time(ops),
        events_in_time(events),
    ensures
        merged(ops, events).len() == ops.len() + events.len(),
        well_merged(merged(ops, events)),
        forall|i: int|
            0 <= i < merged(ops, events).len() ==> match #[trigger] merged(ops, events)[i] {
                TimedItemView::Op(op) => ops.contains(op),
                TimedItemView::Event(ev) => events.contains(ev),
            },
    decreases ops.len() + events.len(),
{
    let all = merged(ops, events);
    if ops.len() + events.len() > 0 {
        let op_first = ops.len() > 0 && (events.len() == 0 || ops[0].time_ps <= events[0].time_ps);
        let (os, es) = if op_first {
            (ops.drop_first(), events)
        } else {
            (ops, events.drop_first())
        };
        assert forall|i: int, j: int| 0 <= i <= j < os.len() implies (#[trigger] os[i]).time_ps <= (
        #[trigger] os[j]).time_ps by {
            if op_first {
                assert(ops[i + 1].time_ps <= ops[j + 1].time_ps);
            } else {
                assert(ops[i].time_ps <= ops[j].time_ps);
            }
        }
        assert forall|i: int, j: int| 0 <= i <= j < es.len() implies (#[trigger] es[i]).time_ps <= (
        #[trigger] es[j]).time_ps by {
            if op_first {
                assert(events[i].time_ps <= events[j].time_ps);
            } else {
                assert(events[i + 1].time_ps <= events[j + 1].time_ps);
            }
        }
        law_merged_order(os, es);
        let rest = merged(os, es);
        assert(all =~= seq![all[0]] + rest);
        assert forall|i: int| 0 <= i < all.len() implies match #[trigger] all[i] {
            TimedItemView::Op(op) => ops.contains(op),
            TimedItemView::Event(ev) => events.contains(ev),
        } by {
            if i > 0 {
                assert(all[i] == rest[i - 1]);
                match rest[i - 1] {
                    TimedItemView::Op(op) => {
                        let k = choose|k: int| 0 <= k < os.len() && os[k] == op;
                        if op_first {
                            assert(ops[k + 1] == op);
                        }
                    },
                    TimedItemView::Event(ev) => {
                        let k = choose|k: int| 0 <= k < es.len() && es[k] == ev;
                        if !op_first {
                            assert(events[k + 1] == ev);
                        }
                    },
                }
            } else if op_first {
                assert(ops[0] == all[0]->Op_0);
            } else {
                assert(events[0] == all[0]->Event_0);
            }
        }
        assert forall|i: int, j: int| 0 <= i < j < all.len() implies {
            &&& (#[trigger] all[i]).time() <= (#[trigger] all[j]).time()
            &&& all[i] is Event && all[j] is Op ==> all[i].time() < all[j].time()
        } by {
            assert(all[j] == rest[j - 1]);
            if i > 0 {
                assert(all[i] == rest[i - 1]);
            } else {
                match all[j] {
                    TimedItemView::Op(op) => {
                        let k = choose|k: int| 0 <= k < ops.len() && ops[k] == op;
                        assert(ops[0].time_ps <= ops[k].time_ps);
                    },
                    TimedItemView::Event(ev) => {
                        let k = choose|k: int| 0 <= k < events.len() && events[k] == ev;
                        assert(events[0].time_ps <= events[k].time_ps);
                    },
                }
            }
        }
    }
}

/// Whether a storage can hold the entities that are counted.
pub open spec fn holds_entities(schema: SchemaView, s: StorageDefView) -> bool {
    &&& s.sparse()
    &&& !s.buffer()
    &&& exists|j: int|
        0 <= j < s.fields.len() && schema.string((#[trigger] s.fields[j]).name) == Some(
            "entity_id"@,
        )
}

/// The entities that are counted are those of the first sparse storage that is
/// no buffer and has a field for their IDs.
pub proof fn law_entities_from(schema: SchemaView, from: int)
    requires
        0 <= from,
        forall|i: int|
            0 <= i < schema.storages.len() ==> (#[trigger] schema.storages[i]).fields.len()
                <= u16::MAX,
    ensures
        match entities_from(schema, from) {
            Some((id, field)) => exists|i: int|
                from <= i < schema.storages.len() && #[trigger] holds_entities(
                    schema,
                    schema.storages[i],
                ) && schema.storages[i].storage_id == id && found_as(
                    schema,
                    schema.storages[i],
                    Some(field),
                    "entity_id"@,
                ) && forall|j: int|
                    from <= j < i ==> !#[trigger] holds_entities(schema, schema.storages[j]),
            None => forall|i: int|
                from <= i < schema.storages.len() ==> !#[trigger] holds_entities(
                    schema,
                    schema.storages[i],
                ),
        },
    decreases schema.storages.len() - from,
{
    if from < schema.storages.len() {
        let s = schema.storages[from];
        law_entities_from(schema, from + 1);
        law_field_from(schema, s.fields, "entity_id"@, 0);
        let found = field_named(schema, s.fields, "entity_id"@);
        if s.sparse() && !s.buffer() && found is Some {
            let k = found->Some_0;
            assert(schema.string(s.fields[k].name) == Some("entity_id"@));
            assert(holds_entities(schema, schema.storages[from]));
        } else {
            assert(!holds_entities(schema, schema.storages[from]));
            if let Some((id, field)) = entities_from(schema, from + 1) {
                let i = choose|i: int|
                    from + 1 <= i < schema.storages.len() && #[trigger] holds_entities(
                        schema,
                        schema.storages[i],
                    ) && schema.storages[i].storage_id == id && found_as(
                        schema,
                        schema.storages[i],
                        Some(field),
                        "entity_id"@,
                    ) && forall|j: int|
                        from + 1 <= j < i ==> !#[trigger] holds_entities(
                            schema,
                            schema.storages[j],
                        );
                assert(holds_entities(schema, schema.storages[i]));
            }
        }
    }
}

} // verus!
