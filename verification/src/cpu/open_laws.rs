//! What a CPU schema is read back as.

use vstd::prelude::*;
use crate::chars::{law_joined_parts, trimmed};
use crate::cpu::resolve::{
    buffer_of, buffers_of, cpu_scope_from, event_from, field_number, listed_stages, period_of,
    protocol_in, protocol_of, stages_of, storage_from, text_or_unknown, ProtocolView,
};
use crate::cpu::types::BufferInfoView;
use crate::error::TraceError;
use crate::numerals::joined;
use crate::protocols::cpu::{
    annotate_fields, buffer_fields, buffer_names, counter_fields, counter_names, cpu_draft,
    cpu_names, cpu_properties, dep_types, dependency_fields, entity_fields, enum_names, event_names,
    flush_fields, flush_reasons, law_cpu_pool, stage_fields, stall_fields, storage_names,
    with_buffers, with_counters, with_enums, with_events, with_scopes, with_storages, BufferPlan,
    CpuPlan, BUFFER_FLAGS,
};
use crate::reader::{find_property, ReaderView};
use crate::schema::{dut_desc, field_from, field_names, Draft, FieldSpec, SchemaView};
use crate::string_pool::{law_insert_all_keeps, law_pool_roundtrip, lemma_insert_all_join, Pool};
use crate::summarize::{counters_of, is_counter, CounterView};
use crate::types::{EventDefView, ScopeDef, StorageDefView, SF_SPARSE};

verus! {

/// Whether an offset of a pool is where a text stands.
pub open spec fn refers(p: Pool, offset: u16, text: Seq<char>) -> bool {
    p.index.contains_key(text) && p.index[text] == offset
}

/// Whether a pool has all that another has, where that has it.
pub open spec fn keeps(p: Pool, q: Pool) -> bool {
    &&& q.wf()
    &&& forall|t: Seq<char>| #[trigger]
        p.index.contains_key(t) ==> q.index.contains_key(t) && q.index[t] == p.index[t]
}

/// A pool after some of the names for which it has room.
proof fn lemma_step(p: Pool, names: Seq<Seq<char>>, rest: Seq<Seq<char>>)
    requires
        p.wf(),
        p.fits_all(names + rest),
    ensures
        keeps(p, p.insert_all(names)),
        p.insert_all(names).fits_all(rest),
        forall|i: int|
            0 <= i < names.len() ==> p.insert_all(names).index.contains_key(#[trigger] names[i]),
{
    lemma_insert_all_join(p, names, rest);
    law_insert_all_keeps(p, names);
}

proof fn lemma_scopes(plan: CpuPlan)
    requires
        Pool::empty().fits_all(cpu_names(plan)),
    ensures
        ({
            let d = with_scopes(plan.scope_name, plan.clock_period_ps);
            &&& d.pool.wf()
            &&& d.pool.fits_all(enum_names(plan))
            &&& d.scopes.len() == 2
            &&& d.scopes[0].protocol == ScopeDef::NO_PROTOCOL
            &&& refers(d.pool, d.scopes[1].protocol, "cpu"@)
            &&& d.scopes[1].scope_id == 1
            &&& d.scopes[1].clock_id == 0
            &&& d.clock_domains.len() == 1
            &&& d.clock_domains[0].period_ps == plan.clock_period_ps
        }),
{
    let p = Pool::empty();
    let last = seq![plan.scope_name, "cpu"@] + enum_names(plan);
    lemma_step(p, seq!["core_clk"@], seq!["root"@] + last);
    let p1 = p.insert_all(seq!["core_clk"@]);
    assert(p1 == p.insert("core_clk"@)) by {
        assert(seq!["core_clk"@].drop_last() =~= Seq::<Seq<char>>::empty());
        assert(p.insert_all(Seq::<Seq<char>>::empty()) == p);
    }
    lemma_step(p1, seq!["root"@], last);
    let p2 = p1.insert_all(seq!["root"@]);
    let names = seq![plan.scope_name, "cpu"@];
    lemma_step(p2, names, enum_names(plan));
    assert(p2.insert_all(names).index.contains_key(names[1]));
}

proof fn lemma_enums(d: Draft, plan: CpuPlan)
    requires
        d.pool.wf(),
        d.pool.fits_all(enum_names(plan)),
    ensures
        ({
            let e = with_enums(d, plan.pipeline_stages, plan.stall_reasons);
            &&& keeps(d.pool, e.pool)
            &&& e.pool.fits_all(storage_names(plan))
        }),
{
    let n4 = (seq!["stall_reason"@] + plan.stall_reasons) + storage_names(plan);
    let n3 = (seq!["flush_reason"@] + flush_reasons()) + n4;
    let n2 = (seq!["dep_type"@] + dep_types()) + n3;
    let d1 = d.with_enum("pipeline_stage"@, plan.pipeline_stages);
    let d2 = d1.with_enum("dep_type"@, dep_types());
    let d3 = d2.with_enum("flush_reason"@, flush_reasons());
    lemma_step(d.pool, seq!["pipeline_stage"@] + plan.pipeline_stages, n2);
    lemma_step(d1.pool, seq!["dep_type"@] + dep_types(), n3);
    lemma_step(d2.pool, seq!["flush_reason"@] + flush_reasons(), n4);
    lemma_step(d3.pool, seq!["stall_reason"@] + plan.stall_reasons, storage_names(plan));
}

/// Whether the names of a storage and of its fields are in a pool.
pub open spec fn storage_named(
    p: Pool,
    s: StorageDefView,
    name: Seq<char>,
    fields: Seq<(Seq<char>, FieldSpec)>,
) -> bool {
    &&& refers(p, s.name, name)
    &&& s.scope_id == 1
    &&& s.fields.len() == fields.len()
    &&& forall|i: int|
        0 <= i < fields.len() ==> refers(p, (#[trigger] s.fields[i]).name, fields[i].0)
            && s.fields[i].field_type == fields[i].1.spec_type().spec_code()
}

proof fn lemma_storage_kept(
    p: Pool,
    q: Pool,
    s: StorageDefView,
    name: Seq<char>,
    fields: Seq<(Seq<char>, FieldSpec)>,
)
    requires
        keeps(p, q),
        storage_named(p, s, name, fields),
    ensures
        storage_named(q, s, name, fields),
{
    assert forall|i: int| 0 <= i < fields.len() implies refers(
        q,
        (#[trigger] s.fields[i]).name,
        fields[i].0,
    ) && s.fields[i].field_type == fields[i].1.spec_type().spec_code() by {
        assert(refers(p, s.fields[i].name, fields[i].0));
    }
}

/// A storage that is added.
proof fn lemma_storage(
    d: Draft,
    name: Seq<char>,
    num_slots: u16,
    flags: u16,
    fields: Seq<(Seq<char>, FieldSpec)>,
    rest: Seq<Seq<char>>,
)
    requires
        d.pool.wf(),
        d.pool.fits_all((seq![name] + field_names(fields)) + rest),
    ensures
        ({
            let e = d.with_storage(name, 1, num_slots, flags, fields, Seq::empty());
            &&& keeps(d.pool, e.pool)
            &&& e.pool.fits_all(rest)
            &&& e.storages.len() == d.storages.len() + 1
            &&& forall|i: int| 0 <= i < d.storages.len() ==> #[trigger] e.storages[i]
                == d.storages[i]
            &&& storage_named(e.pool, e.storages[d.storages.len() as int], name, fields)
            &&& e.storages[d.storages.len() as int].storage_id == d.storages.len() as u16
            &&& e.storages[d.storages.len() as int].flags == flags
            &&& e.storages[d.storages.len() as int].num_slots == num_slots
            &&& e.storages[d.storages.len() as int].properties.len() == 0
            &&& e.scopes == d.scopes
            &&& e.clock_domains == d.clock_domains
            &&& e.events == d.events
        }),
{
    let names = seq![name] + field_names(fields);
    let e = d.with_storage(name, 1, num_slots, flags, fields, Seq::empty());
    lemma_step(d.pool, names, rest);
    assert(names + crate::schema::property_names(Seq::empty()) =~= names);
    let s = e.storages[d.storages.len() as int];
    assert(e.pool == d.pool.insert_all(names));
    assert(e.pool.index.contains_key(names[0]));
    assert forall|i: int| 0 <= i < fields.len() implies refers(
        e.pool,
        (#[trigger] s.fields[i]).name,
        fields[i].0,
    ) && s.fields[i].field_type == fields[i].1.spec_type().spec_code() by {
        assert(e.pool.index.contains_key(names[i + 1]));
        assert(names[i + 1] == fields[i].0);
    }
}

/// Whether the buffers of a CPU stand in a schema from storage `first` on.
pub open spec fn buffers_named(d: Draft, first: int, buffers: Seq<BufferPlan>, n: int) -> bool {
    forall|j: int|
        0 <= j < n ==> {
            let s = #[trigger] d.storages[first + j];
            &&& storage_named(d.pool, s, buffers[j].name, buffer_fields(buffers[j]))
            &&& s.storage_id == (first + j) as u16
            &&& s.flags == BUFFER_FLAGS
            &&& s.num_slots == buffers[j].num_slots
            &&& s.properties.len() == 0
        }
}

/// Whether a draft has all that another has, and goes on from there.
pub open spec fn continues(d: Draft, e: Draft) -> bool {
    &&& keeps(d.pool, e.pool)
    &&& e.scopes == d.scopes
    &&& e.clock_domains == d.clock_domains
    &&& e.events == d.events
    &&& d.storages.len() <= e.storages.len()
    &&& forall|i: int| 0 <= i < d.storages.len() ==> #[trigger] e.storages[i] == d.storages[i]
}

proof fn lemma_buffers(d: Draft, buffers: Seq<BufferPlan>, rest: Seq<Seq<char>>, n: int)
    requires
        d.pool.wf(),
        d.pool.fits_all(buffer_names(buffers, 0, rest)),
        0 <= n <= buffers.len(),
    ensures
        ({
            let e = with_buffers(d, buffers, n);
            &&& continues(d, e)
            &&& e.pool.fits_all(buffer_names(buffers, n, rest))
            &&& e.storages.len() == d.storages.len() + n
            &&& buffers_named(e, d.storages.len() as int, buffers, n)
        }),
    decreases n,
{
    if n > 0 {
        lemma_buffers(d, buffers, rest, n - 1);
        let m = with_buffers(d, buffers, n - 1);
        let e = with_buffers(d, buffers, n);
        let b = buffers[n - 1];
        let first = d.storages.len() as int;
        lemma_storage(m, b.name, b.num_slots, BUFFER_FLAGS, buffer_fields(b), buffer_names(buffers, n, rest));
        assert forall|t: Seq<char>| #[trigger] d.pool.index.contains_key(t) implies
            e.pool.index.contains_key(t) && e.pool.index[t] == d.pool.index[t] by {
            assert(m.pool.index.contains_key(t));
        }
        assert forall|i: int| 0 <= i < d.storages.len() implies #[trigger] e.storages[i]
            == d.storages[i] by {
            assert(e.storages[i] == m.storages[i]);
        }
        assert forall|j: int| 0 <= j < n implies {
            let s = #[trigger] e.storages[first + j];
            &&& storage_named(e.pool, s, buffers[j].name, buffer_fields(buffers[j]))
            &&& s.storage_id == (first + j) as u16
            &&& s.flags == BUFFER_FLAGS
            &&& s.num_slots == buffers[j].num_slots
            &&& s.properties.len() == 0
        } by {
            if j < n - 1 {
                let s = m.storages[first + j];
                assert(e.storages[first + j] == s);
                lemma_storage_kept(m.pool, e.pool, s, buffers[j].name, buffer_fields(buffers[j]));
            }
        }
    }
}

/// Whether the counters of a CPU stand in a schema from storage `first` on.
pub open spec fn counters_named(d: Draft, first: int, counters: Seq<Seq<char>>, n: int) -> bool {
    forall|j: int|
        0 <= j < n ==> {
            let s = #[trigger] d.storages[first + j];
            &&& storage_named(d.pool, s, counters[j], counter_fields())
            &&& s.storage_id == (first + j) as u16
            &&& s.flags == 0
            &&& s.num_slots == 1
        }
}

proof fn lemma_counters(d: Draft, counters: Seq<Seq<char>>, rest: Seq<Seq<char>>, n: int)
    requires
        d.pool.wf(),
        d.pool.fits_all(counter_names(counters, 0, rest)),
        0 <= n <= counters.len(),
    ensures
        ({
            let e = with_counters(d, counters, n);
            &&& continues(d, e)
            &&& e.pool.fits_all(counter_names(counters, n, rest))
            &&& e.storages.len() == d.storages.len() + n
            &&& counters_named(e, d.storages.len() as int, counters, n)
        }),
    decreases n,
{
    if n > 0 {
        lemma_counters(d, counters, rest, n - 1);
        let m = with_counters(d, counters, n - 1);
        let e = with_counters(d, counters, n);
        let first = d.storages.len() as int;
        lemma_storage(m, counters[n - 1], 1, 0, counter_fields(), counter_names(counters, n, rest));
        assert forall|t: Seq<char>| #[trigger] d.pool.index.contains_key(t) implies
            e.pool.index.contains_key(t) && e.pool.index[t] == d.pool.index[t] by {
            assert(m.pool.index.contains_key(t));
        }
        assert forall|i: int| 0 <= i < d.storages.len() implies #[trigger] e.storages[i]
            == d.storages[i] by {
            assert(e.storages[i] == m.storages[i]);
        }
        assert forall|j: int| 0 <= j < n implies {
            let s = #[trigger] e.storages[first + j];
            &&& storage_named(e.pool, s, counters[j], counter_fields())
            &&& s.storage_id == (first + j) as u16
            &&& s.flags == 0
            &&& s.num_slots == 1
        } by {
            if j < n - 1 {
                let s = m.storages[first + j];
                assert(e.storages[first + j] == s);
                lemma_storage_kept(m.pool, e.pool, s, counters[j], counter_fields());
            }
        }
    }
}

/// The pool of the schema of a CPU is valid.
pub proof fn lemma_draft_pool(plan: CpuPlan)
    requires
        Pool::empty().fits_all(cpu_names(plan)),
    ensures
        cpu_draft(plan).pool.wf(),
{
    law_cpu_pool(plan);
    law_insert_all_keeps(Pool::empty(), cpu_names(plan));
}

/// Whether a kind of event has a name, a number and the scope of the CPU.
pub open spec fn event_named(p: Pool, e: EventDefView, name: Seq<char>, id: u16) -> bool {
    &&& refers(p, e.name, name)
    &&& e.scope_id == 1
    &&& e.event_type_id == id
}

/// An event that is added.
proof fn lemma_event(
    d: Draft,
    name: Seq<char>,
    fields: Seq<(Seq<char>, FieldSpec)>,
    rest: Seq<Seq<char>>,
)
    requires
        d.pool.wf(),
        d.pool.fits_all((seq![name] + field_names(fields)) + rest),
    ensures
        ({
            let e = d.with_event(name, 1, fields);
            &&& keeps(d.pool, e.pool)
            &&& e.pool.fits_all(rest)
            &&& e.events == d.events.push(e.events.last())
            &&& event_named(e.pool, e.events.last(), name, d.events.len() as u16)
            &&& e.scopes == d.scopes
            &&& e.clock_domains == d.clock_domains
            &&& e.storages == d.storages
        }),
{
    let names = seq![name] + field_names(fields);
    let e = d.with_event(name, 1, fields);
    lemma_step(d.pool, names, rest);
    assert(e.pool.index.contains_key(names[0]));
    assert(e.events =~= d.events.push(e.events.last()));
}

proof fn lemma_keeps_through(p: Pool, q: Pool, r: Pool)
    requires
        keeps(p, q),
        keeps(q, r),
    ensures
        keeps(p, r),
{
    assert forall|t: Seq<char>| #[trigger] p.index.contains_key(t) implies r.index.contains_key(t)
        && r.index[t] == p.index[t] by {
        assert(q.index.contains_key(t));
    }
}

proof fn lemma_events(d: Draft)
    requires
        d.pool.wf(),
        d.pool.fits_all(event_names()),
        d.events.len() == 0,
    ensures
        ({
            let e = with_events(d);
            &&& keeps(d.pool, e.pool)
            &&& e.scopes == d.scopes
            &&& e.clock_domains == d.clock_domains
            &&& e.storages == d.storages
            &&& e.events.len() == 5
            &&& event_named(e.pool, e.events[0], "stage_transition"@, 0)
            &&& event_named(e.pool, e.events[1], "annotate"@, 1)
            &&& event_named(e.pool, e.events[2], "dependency"@, 2)
            &&& event_named(e.pool, e.events[3], "flush"@, 3)
            &&& event_named(e.pool, e.events[4], "stall"@, 4)
        }),
{
    let none = Seq::<Seq<char>>::empty();
    let n5 = seq!["stall"@] + field_names(stall_fields());
    let n4 = (seq!["flush"@] + field_names(flush_fields())) + n5;
    let n3 = (seq!["dependency"@] + field_names(dependency_fields())) + n4;
    let n2 = (seq!["annotate"@] + field_names(annotate_fields())) + n3;
    let d1 = d.with_event("stage_transition"@, 1, stage_fields());
    let d2 = d1.with_event("annotate"@, 1, annotate_fields());
    let d3 = d2.with_event("dependency"@, 1, dependency_fields());
    let d4 = d3.with_event("flush"@, 1, flush_fields());
    let d5 = d4.with_event("stall"@, 1, stall_fields());
    lemma_event(d, "stage_transition"@, stage_fields(), n2);
    lemma_event(d1, "annotate"@, annotate_fields(), n3);
    lemma_event(d2, "dependency"@, dependency_fields(), n4);
    lemma_event(d3, "flush"@, flush_fields(), n5);
    assert(n5 + none =~= n5);
    lemma_event(d4, "stall"@, stall_fields(), none);
    lemma_keeps_through(d.pool, d1.pool, d2.pool);
    lemma_keeps_through(d.pool, d2.pool, d3.pool);
    lemma_keeps_through(d.pool, d3.pool, d4.pool);
    lemma_keeps_through(d.pool, d4.pool, d5.pool);
    lemma_keeps_through(d1.pool, d2.pool, d3.pool);
    lemma_keeps_through(d1.pool, d3.pool, d4.pool);
    lemma_keeps_through(d1.pool, d4.pool, d5.pool);
    lemma_keeps_through(d2.pool, d3.pool, d4.pool);
    lemma_keeps_through(d2.pool, d4.pool, d5.pool);
    lemma_keeps_through(d3.pool, d4.pool, d5.pool);
    assert(with_events(d) == d5);
    assert(d5.events[0] == d1.events.last());
    assert(d5.events[1] == d2.events.last());
    assert(d5.events[2] == d3.events.last());
    assert(d5.events[3] == d4.events.last());
}

/// Whether a draft is laid out like that of a CPU: one clock, the CPU below
/// the root, the entities, buffers, counters and events in their order, and
/// all names in its pool.
pub open spec fn cpu_layout(d: Draft, plan: CpuPlan) -> bool {
    let first = 1 + plan.buffers.len() as int;
    &&& d.pool.wf()
    &&& d.clock_domains.len() == 1
    &&& d.clock_domains[0].period_ps == plan.clock_period_ps
    &&& d.scopes.len() == 2
    &&& d.scopes[0].protocol == ScopeDef::NO_PROTOCOL
    &&& refers(d.pool, d.scopes[1].protocol, "cpu"@)
    &&& d.scopes[1].scope_id == 1
    &&& d.scopes[1].clock_id == 0
    &&& d.storages.len() == first + plan.counters.len()
    &&& storage_named(d.pool, d.storages[0], "entities"@, entity_fields())
    &&& d.storages[0].storage_id == 0
    &&& d.storages[0].flags == SF_SPARSE
    &&& d.storages[0].num_slots == plan.entity_slots
    &&& buffers_named(d, 1, plan.buffers, plan.buffers.len() as int)
    &&& counters_named(d, first, plan.counters, plan.counters.len() as int)
    &&& d.events.len() == 5
    &&& event_named(d.pool, d.events[0], "stage_transition"@, 0)
    &&& event_named(d.pool, d.events[1], "annotate"@, 1)
    &&& event_named(d.pool, d.events[2], "dependency"@, 2)
    &&& event_named(d.pool, d.events[3], "flush"@, 3)
    &&& event_named(d.pool, d.events[4], "stall"@, 4)
}

/// More names in the pool leave the layout as it is.
proof fn lemma_layout_kept(d: Draft, q: Pool, plan: CpuPlan)
    requires
        cpu_layout(d, plan),
        keeps(d.pool, q),
    ensures
        cpu_layout(Draft { pool: q, ..d }, plan),
{
    let e = Draft { pool: q, ..d };
    let first = 1 + plan.buffers.len() as int;
    lemma_storage_kept(d.pool, q, d.storages[0], "entities"@, entity_fields());
    assert forall|j: int| 0 <= j < plan.buffers.len() implies {
        let s = #[trigger] e.storages[1 + j];
        &&& storage_named(q, s, plan.buffers[j].name, buffer_fields(plan.buffers[j]))
        &&& s.storage_id == (1 + j) as u16
        &&& s.flags == BUFFER_FLAGS
        &&& s.num_slots == plan.buffers[j].num_slots
        &&& s.properties.len() == 0
    } by {
        let s = d.storages[1 + j];
        lemma_storage_kept(d.pool, q, s, plan.buffers[j].name, buffer_fields(plan.buffers[j]));
    }
    assert forall|j: int| 0 <= j < plan.counters.len() implies {
        let s = #[trigger] e.storages[first + j];
        &&& storage_named(q, s, plan.counters[j], counter_fields())
        &&& s.storage_id == (first + j) as u16
        &&& s.flags == 0
        &&& s.num_slots == 1
    } by {
        let s = d.storages[first + j];
        lemma_storage_kept(d.pool, q, s, plan.counters[j], counter_fields());
    }
}

/// The schema of a CPU is laid out as it should be, whatever names come into
/// its pool behind its own.
pub proof fn law_cpu_layout(plan: CpuPlan, q: Pool)
    requires
        Pool::empty().fits_all(cpu_names(plan)),
        keeps(cpu_draft(plan).pool, q),
    ensures
        cpu_layout(Draft { pool: q, ..cpu_draft(plan) }, plan),
{
    let d0 = with_scopes(plan.scope_name, plan.clock_period_ps);
    lemma_scopes(plan);
    lemma_enums(d0, plan);
    let d1 = with_enums(d0, plan.pipeline_stages, plan.stall_reasons);
    assert(d1.storages =~= Seq::<StorageDefView>::empty());
    assert(d1.events =~= Seq::<EventDefView>::empty());
    let counters_rest = counter_names(plan.counters, 0, event_names());
    let buffers_rest = buffer_names(plan.buffers, 0, counters_rest);
    lemma_storage(d1, "entities"@, plan.entity_slots, SF_SPARSE, entity_fields(), buffers_rest);
    let d2 = d1.with_storage(
        "entities"@,
        1,
        plan.entity_slots,
        SF_SPARSE,
        entity_fields(),
        Seq::empty(),
    );
    let nb = plan.buffers.len() as int;
    let nc = plan.counters.len() as int;
    lemma_buffers(d2, plan.buffers, counters_rest, nb);
    let d3 = with_buffers(d2, plan.buffers, nb);
    lemma_counters(d3, plan.counters, event_names(), nc);
    let d4 = with_counters(d3, plan.counters, nc);
    assert(with_storages(d1, plan) == d4);
    lemma_events(d4);
    let d5 = with_events(d4);
    assert(cpu_draft(plan) == d5);
    lemma_keeps_through(d0.pool, d1.pool, d2.pool);
    lemma_keeps_through(d0.pool, d2.pool, d3.pool);
    lemma_keeps_through(d0.pool, d3.pool, d4.pool);
    lemma_keeps_through(d0.pool, d4.pool, d5.pool);
    lemma_keeps_through(d2.pool, d3.pool, d4.pool);
    lemma_keeps_through(d2.pool, d4.pool, d5.pool);
    lemma_keeps_through(d3.pool, d4.pool, d5.pool);
    lemma_layout_parts(d2, d3, d4, d5, plan);
    lemma_layout_kept(d5, q, plan);
}

/// The layout, from the steps that lead to it.
proof fn lemma_layout_parts(d2: Draft, d3: Draft, d4: Draft, d5: Draft, plan: CpuPlan)
    requires
        d2.storages.len() == 1,
        storage_named(d2.pool, d2.storages[0], "entities"@, entity_fields()),
        continues(d2, d3),
        continues(d3, d4),
        keeps(d4.pool, d5.pool),
        keeps(d2.pool, d5.pool),
        keeps(d3.pool, d5.pool),
        d3.storages.len() == 1 + plan.buffers.len(),
        d4.storages.len() == d3.storages.len() + plan.counters.len(),
        d5.storages == d4.storages,
        buffers_named(d3, 1, plan.buffers, plan.buffers.len() as int),
        counters_named(
            d4,
            1 + plan.buffers.len() as int,
            plan.counters,
            plan.counters.len() as int,
        ),
    ensures
        d5.storages[0] == d2.storages[0],
        storage_named(d5.pool, d5.storages[0], "entities"@, entity_fields()),
        buffers_named(d5, 1, plan.buffers, plan.buffers.len() as int),
        counters_named(
            d5,
            1 + plan.buffers.len() as int,
            plan.counters,
            plan.counters.len() as int,
        ),
{
    let first = 1 + plan.buffers.len() as int;
    assert(d3.storages[0] == d2.storages[0]);
    assert(d4.storages[0] == d3.storages[0]);
    lemma_storage_kept(d2.pool, d5.pool, d2.storages[0], "entities"@, entity_fields());
    assert forall|j: int| 0 <= j < plan.buffers.len() implies {
        let s = #[trigger] d5.storages[1 + j];
        &&& storage_named(d5.pool, s, plan.buffers[j].name, buffer_fields(plan.buffers[j]))
        &&& s.storage_id == (1 + j) as u16
        &&& s.flags == BUFFER_FLAGS
        &&& s.num_slots == plan.buffers[j].num_slots
        &&& s.properties.len() == 0
    } by {
        let s = d3.storages[1 + j];
        assert(d4.storages[1 + j] == s);
        lemma_storage_kept(
            d3.pool,
            d5.pool,
            s,
            plan.buffers[j].name,
            buffer_fields(plan.buffers[j]),
        );
    }
    assert forall|j: int| 0 <= j < plan.counters.len() implies {
        let s = #[trigger] d5.storages[first + j];
        &&& storage_named(d5.pool, s, plan.counters[j], counter_fields())
        &&& s.storage_id == (first + j) as u16
        &&& s.flags == 0
        &&& s.num_slots == 1
    } by {
        let s = d4.storages[first + j];
        lemma_storage_kept(d4.pool, d5.pool, s, plan.counters[j], counter_fields());
    }
}

/// No name of the protocol holds a NUL.
proof fn lemma_no_nul()
    ensures
        !"cpu"@.contains('\0'),
        !"entities"@.contains('\0'),
        !"entity_id"@.contains('\0'),
        !"pc"@.contains('\0'),
        !"inst_bits"@.contains('\0'),
        !"stage_transition"@.contains('\0'),
        !"annotate"@.contains('\0'),
        !"dependency"@.contains('\0'),
        !"flush"@.contains('\0'),
        !"stall"@.contains('\0'),
        !"dut_name"@.contains('\0'),
        !"cpu.protocol_version"@.contains('\0'),
        !"cpu.isa"@.contains('\0'),
        !"cpu.pipeline_stages"@.contains('\0'),
{
    reveal_strlit("cpu");
    assert forall|i: int| 0 <= i < "cpu"@.len() implies #[trigger] "cpu"@[i] != '\0' by {}
    assert(!"cpu"@.contains('\0'));
    reveal_strlit("entities");
    assert forall|i: int| 0 <= i < "entities"@.len() implies #[trigger] "entities"@[i] != '\0' by {}
    assert(!"entities"@.contains('\0'));
    reveal_strlit("entity_id");
    assert forall|i: int| 0 <= i < "entity_id"@.len() implies #[trigger] "entity_id"@[i] != '\0' by {}
    assert(!"entity_id"@.contains('\0'));
    reveal_strlit("pc");
    assert forall|i: int| 0 <= i < "pc"@.len() implies #[trigger] "pc"@[i] != '\0' by {}
    assert(!"pc"@.contains('\0'));
    reveal_strlit("inst_bits");
    assert forall|i: int| 0 <= i < "inst_bits"@.len() implies #[trigger] "inst_bits"@[i] != '\0' by {}
    assert(!"inst_bits"@.contains('\0'));
    reveal_strlit("stage_transition");
    assert forall|i: int| 0 <= i < "stage_transition"@.len() implies #[trigger] "stage_transition"@[i] != '\0' by {}
    assert(!"stage_transition"@.contains('\0'));
    reveal_strlit("annotate");
    assert forall|i: int| 0 <= i < "annotate"@.len() implies #[trigger] "annotate"@[i] != '\0' by {}
    assert(!"annotate"@.contains('\0'));
    reveal_strlit("dependency");
    assert forall|i: int| 0 <= i < "dependency"@.len() implies #[trigger] "dependency"@[i] != '\0' by {}
    assert(!"dependency"@.contains('\0'));
    reveal_strlit("flush");
    assert forall|i: int| 0 <= i < "flush"@.len() implies #[trigger] "flush"@[i] != '\0' by {}
    assert(!"flush"@.contains('\0'));
    reveal_strlit("stall");
    assert forall|i: int| 0 <= i < "stall"@.len() implies #[trigger] "stall"@[i] != '\0' by {}
    assert(!"stall"@.contains('\0'));
    reveal_strlit("dut_name");
    assert forall|i: int| 0 <= i < "dut_name"@.len() implies #[trigger] "dut_name"@[i] != '\0' by {}
    assert(!"dut_name"@.contains('\0'));
    reveal_strlit("cpu.protocol_version");
    assert forall|i: int| 0 <= i < "cpu.protocol_version"@.len() implies #[trigger] "cpu.protocol_version"@[i] != '\0' by {}
    assert(!"cpu.protocol_version"@.contains('\0'));
    reveal_strlit("cpu.isa");
    assert forall|i: int| 0 <= i < "cpu.isa"@.len() implies #[trigger] "cpu.isa"@[i] != '\0' by {}
    assert(!"cpu.isa"@.contains('\0'));
    reveal_strlit("cpu.pipeline_stages");
    assert forall|i: int| 0 <= i < "cpu.pipeline_stages"@.len() implies #[trigger] "cpu.pipeline_stages"@[i] != '\0' by {}
    assert(!"cpu.pipeline_stages"@.contains('\0'));
}

/// What stands in the pool of a schema is found there.
proof fn lemma_found(schema: SchemaView, p: Pool, offset: u16, text: Seq<char>)
    requires
        p.wf(),
        schema.string_pool == p.data,
        refers(p, offset, text),
        !text.contains('\0'),
    ensures
        schema.string(offset) == Some(text),
{
    law_pool_roundtrip(p, text);
}

/// The fields of the entities are found by their names.
proof fn lemma_entity_fields(d: Draft, plan: CpuPlan)
    requires
        cpu_layout(d, plan),
    ensures
        ({
            let schema = d.finished();
            let s = schema.storages[0];
            &&& field_number(schema, s, "entity_id"@) == Some(0u16)
            &&& field_number(schema, s, "pc"@) == Some(1u16)
            &&& field_number(schema, s, "inst_bits"@) == Some(2u16)
            &&& field_number(schema, s, "rbid"@) is None
            &&& field_number(schema, s, "iq_id"@) is None
            &&& field_number(schema, s, "dq_id"@) is None
            &&& field_number(schema, s, "ready_time_ps"@) is None
        }),
{
    let schema = d.finished();
    let s = schema.storages[0];
    let fields = entity_fields();
    lemma_no_nul();
    assert(refers(d.pool, s.fields[0].name, fields[0].0));
    assert(refers(d.pool, s.fields[1].name, fields[1].0));
    assert(refers(d.pool, s.fields[2].name, fields[2].0));
    lemma_found(schema, d.pool, s.fields[0].name, "entity_id"@);
    lemma_found(schema, d.pool, s.fields[1].name, "pc"@);
    lemma_found(schema, d.pool, s.fields[2].name, "inst_bits"@);
    reveal_strlit("entity_id");
    reveal_strlit("pc");
    reveal_strlit("inst_bits");
    reveal_strlit("rbid");
    reveal_strlit("iq_id");
    reveal_strlit("dq_id");
    reveal_strlit("ready_time_ps");
    assert("entity_id"@[0] == 'e');
    assert("inst_bits"@[0] == 'i');
    assert("entity_id"@.len() == 9);
    assert("inst_bits"@.len() == 9);
    assert("pc"@.len() == 2);
    reveal_with_fuel(field_from, 4);
}

/// The events are found by their names.
proof fn lemma_events_found(d: Draft, plan: CpuPlan)
    requires
        cpu_layout(d, plan),
    ensures
        ({
            let schema = d.finished();
            &&& event_from(schema, 1, "stage_transition"@, 0) == Some(0u16)
            &&& event_from(schema, 1, "annotate"@, 0) == Some(1u16)
            &&& event_from(schema, 1, "dependency"@, 0) == Some(2u16)
            &&& event_from(schema, 1, "flush"@, 0) == Some(3u16)
        }),
{
    let schema = d.finished();
    lemma_no_nul();
    lemma_found(schema, d.pool, d.events[0].name, "stage_transition"@);
    lemma_found(schema, d.pool, d.events[1].name, "annotate"@);
    lemma_found(schema, d.pool, d.events[2].name, "dependency"@);
    lemma_found(schema, d.pool, d.events[3].name, "flush"@);
    reveal_strlit("stage_transition");
    reveal_strlit("annotate");
    reveal_strlit("dependency");
    reveal_strlit("flush");
    assert("stage_transition"@.len() == 16);
    assert("annotate"@.len() == 8);
    assert("dependency"@.len() == 10);
    assert("flush"@.len() == 5);
    reveal_with_fuel(event_from, 5);
}

/// The scope of the CPU and its entities are found.
proof fn lemma_scope_found(d: Draft, plan: CpuPlan)
    requires
        cpu_layout(d, plan),
    ensures
        cpu_scope_from(d.finished(), 0) == Some(d.scopes[1]),
        storage_from(d.finished(), 1, "entities"@, 0) == Some(d.storages[0]),
        period_of(d.finished(), 0) == plan.clock_period_ps,
{
    let schema = d.finished();
    lemma_no_nul();
    lemma_found(schema, d.pool, d.scopes[1].protocol, "cpu"@);
    lemma_found(schema, d.pool, d.storages[0].name, "entities"@);
    assert(schema.string(ScopeDef::NO_PROTOCOL) is None);
    reveal_with_fuel(cpu_scope_from, 3);
    reveal_with_fuel(storage_from, 2);
}

/// Whether a list of stages is read back as it was written: there are some, and
/// none of them holds a comma or a NUL or has white space at its ends.
pub open spec fn plain_stages(stages: Seq<Seq<char>>) -> bool {
    &&& stages.len() > 0
    &&& forall|i: int|
        0 <= i < stages.len() ==> {
            let s = #[trigger] stages[i];
            !s.contains(',') && !s.contains('\0') && trimmed(s) == s
        }
}

proof fn lemma_joined_no_nul(stages: Seq<Seq<char>>)
    requires
        forall|i: int| 0 <= i < stages.len() ==> !(#[trigger] stages[i]).contains('\0'),
    ensures
        !joined(stages, ","@).contains('\0'),
    decreases stages.len(),
{
    let s = joined(stages, ","@);
    reveal_strlit(",");
    if stages.len() > 1 {
        let init = stages.drop_last();
        assert forall|i: int| 0 <= i < init.len() implies !(#[trigger] init[i]).contains(
            '\0',
        ) by {
            assert(init[i] == stages[i]);
        }
        lemma_joined_no_nul(init);
        let a = joined(init, ","@);
        let b = stages.last();
        assert(!stages[stages.len() - 1].contains('\0'));
        if s.contains('\0') {
            let k = choose|k: int| 0 <= k < s.len() && s[k] == '\0';
            if k < a.len() {
                assert(a[k] == '\0');
            } else if k > a.len() {
                assert(b[k - a.len() - 1] == '\0');
            }
        }
    } else if stages.len() == 1 {
        assert(!stages[0].contains('\0'));
    }
}

/// The list of stages is found among the properties.
proof fn lemma_stages_found(v: ReaderView, plan: CpuPlan, q: Pool)
    requires
        q.wf(),
        v.schema.string_pool == q.data,
        v.dut == dut_desc(q, cpu_properties(plan)),
        forall|i: int|
            0 <= i < cpu_properties(plan).len() ==> q.index.contains_key(
                (#[trigger] cpu_properties(plan)[i]).0,
            ) && q.index.contains_key(cpu_properties(plan)[i].1),
        plain_stages(plan.pipeline_stages),
    ensures
        stages_of(v) == Ok::<Seq<Seq<char>>, TraceError>(plan.pipeline_stages),
{
    let props = cpu_properties(plan);
    let text = joined(plan.pipeline_stages, ","@);
    let k: int = if plan.isa.len() == 0 {
        2
    } else {
        3
    };
    assert(props[0].0 == "dut_name"@);
    assert(props[1].0 == "cpu.protocol_version"@);
    assert(k == 3 ==> props[2].0 == "cpu.isa"@);
    assert(props[k] == ("cpu.pipeline_stages"@, text));
    lemma_no_nul();
    lemma_joined_no_nul(plan.pipeline_stages);
    law_pool_roundtrip(q, props[0].0);
    law_pool_roundtrip(q, props[1].0);
    law_pool_roundtrip(q, props[2].0);
    law_pool_roundtrip(q, props[k].0);
    law_pool_roundtrip(q, props[k].1);
    reveal_strlit("dut_name");
    reveal_strlit("cpu.protocol_version");
    reveal_strlit("cpu.isa");
    reveal_strlit("cpu.pipeline_stages");
    assert("dut_name"@.len() == 8);
    assert("cpu.protocol_version"@.len() == 20);
    assert("cpu.isa"@.len() == 7);
    assert("cpu.pipeline_stages"@.len() == 19);
    let ps = v.dut.properties;
    assert(ps.len() == props.len());
    assert(ps[0].key == q.index[props[0].0]);
    assert(ps[1].key == q.index[props[1].0]);
    assert(ps[2].key == q.index[props[2].0]);
    assert(ps[k].key == q.index[props[k].0]);
    assert(ps[k].value == q.index[props[k].1]);
    let p1 = ps.drop_first();
    let p2 = p1.drop_first();
    let p3 = p2.drop_first();
    let pool = q.data;
    let key = "cpu.pipeline_stages"@;
    assert(p1[0] == ps[1]);
    assert(p2[0] == ps[2]);
    assert(k == 3 ==> p3[0] == ps[3]);
    assert(find_property(ps, pool, key) == find_property(p1, pool, key));
    assert(find_property(p1, pool, key) == find_property(p2, pool, key));
    if k == 3 {
        assert(find_property(p2, pool, key) == find_property(p3, pool, key));
        assert(find_property(p3, pool, key) == Some(text));
    }
    assert(find_property(p2, pool, key) == Some(text));
    reveal_strlit(",");
    assert(","@ =~= seq![',']);
    assert forall|i: int| 0 <= i < plan.pipeline_stages.len() implies !(
    #[trigger] plan.pipeline_stages[i]).contains(',') by {}
    law_joined_parts(plan.pipeline_stages, ',');
    assert(listed_stages(text) =~= plan.pipeline_stages);
}

/// What the protocol of a CPU is read back as.
pub open spec fn protocol_planned(plan: CpuPlan) -> ProtocolView {
    ProtocolView {
        period_ps: plan.clock_period_ps as u64,
        entities_storage_id: 0,
        field_entity_id: 0,
        field_pc: 1,
        field_inst_bits: Some(2),
        field_rbid: None,
        field_iq_id: None,
        field_dq_id: None,
        field_ready_time_ps: None,
        stage_transition_event_id: 0,
        annotate_event_id: 1,
        dependency_event_id: 2,
        flush_event_id: 3,
        stage_names: plan.pipeline_stages,
    }
}

/// A trace with the schema and the description of a CPU resolves to the
/// numbers that the schema was built with.
pub proof fn law_cpu_resolved(v: ReaderView, plan: CpuPlan, q: Pool)
    requires
        Pool::empty().fits_all(cpu_names(plan)),
        keeps(cpu_draft(plan).pool, q),
        v.schema == (Draft { pool: q, ..cpu_draft(plan) }).finished(),
        v.dut == dut_desc(q, cpu_properties(plan)),
        forall|i: int|
            0 <= i < cpu_properties(plan).len() ==> q.index.contains_key(
                (#[trigger] cpu_properties(plan)[i]).0,
            ) && q.index.contains_key(cpu_properties(plan)[i].1),
        plain_stages(plan.pipeline_stages),
    ensures
        protocol_of(v) == Ok::<ProtocolView, TraceError>(protocol_planned(plan)),
        ({
            let ids = crate::protocols::cpu::cpu_ids(plan);
            let p = protocol_planned(plan);
            &&& p.entities_storage_id == ids.entities_storage_id
            &&& p.field_entity_id == ids.field_entity_id
            &&& p.field_pc == ids.field_pc
            &&& p.field_inst_bits == Some(ids.field_inst_bits)
            &&& p.stage_transition_event_id == ids.stage_transition_event_id
            &&& p.annotate_event_id == ids.annotate_event_id
            &&& p.dependency_event_id == ids.dependency_event_id
            &&& p.flush_event_id == ids.flush_event_id
        }),
{
    let d = Draft { pool: q, ..cpu_draft(plan) };
    law_cpu_layout(plan, q);
    lemma_scope_found(d, plan);
    lemma_entity_fields(d, plan);
    lemma_events_found(d, plan);
    lemma_stages_found(v, plan, q);
    assert(protocol_of(v) == protocol_in(v, d.scopes[1], d.storages[0]));
}

/// The counters of a plan, as they are found in its schema.
pub open spec fn counters_planned(plan: CpuPlan, n: int) -> Seq<CounterView> {
    Seq::new(
        n as nat,
        |j: int|
            CounterView {
                storage_id: (1 + plan.buffers.len() + j) as u16,
                name: plan.counters[j],
            },
    )
}

/// The first `n` buffers of a plan, as they are found in its schema.
pub open spec fn buffers_planned(plan: CpuPlan, n: int) -> Seq<BufferInfoView> {
    Seq::new(
        n as nat,
        |j: int|
            BufferInfoView {
                name: plan.buffers[j].name,
                storage_id: (1 + j) as u16,
                capacity: plan.buffers[j].num_slots,
                fields: buffer_fields(plan.buffers[j]).map_values(
                    |f: (Seq<char>, FieldSpec)| (f.0, f.1.spec_type().spec_code()),
                ),
                properties: Seq::empty(),
            },
    )
}

/// Whether the names of the buffers, their fields and the counters of a plan
/// hold no NUL.
pub open spec fn plain_names(plan: CpuPlan) -> bool {
    &&& forall|j: int|
        0 <= j < plan.counters.len() ==> !(#[trigger] plan.counters[j]).contains('\0')
    &&& forall|j: int|
        0 <= j < plan.buffers.len() ==> !(#[trigger] plan.buffers[j]).name.contains('\0')
    &&& forall|j: int, k: int|
        0 <= j < plan.buffers.len() && 0 <= k < plan.buffers[j].extra_fields.len() ==> !(
        #[trigger] plan.buffers[j].extra_fields[k]).0.contains('\0')
}

/// The kinds of the storages of a CPU.
proof fn lemma_kinds(d: Draft, plan: CpuPlan, i: int)
    requires
        cpu_layout(d, plan),
        0 <= i < d.storages.len(),
    ensures
        is_counter(d.storages[i]) == (i >= 1 + plan.buffers.len()),
        d.storages[i].buffer() == (1 <= i < 1 + plan.buffers.len()),
{
    let s = d.storages[i];
    let first = 1 + plan.buffers.len() as int;
    assert(0u16 & 0x01 == 0 && 0u16 & 0x02 == 0 && 0x01u16 & 0x01 != 0 && 0x01u16 & 0x02 == 0
        && 0x03u16 & 0x02 != 0 && 0x03u16 & 0x01 != 0) by (bit_vector);
    if 1 <= i < first {
        assert(d.storages[1 + (i - 1)] == s);
    } else if i >= first {
        assert(d.storages[first + (i - first)] == s);
        assert(counter_fields()[0].1.spec_type() == crate::types::FieldType::U64);
        assert(s.fields[0].field_type == counter_fields()[0].1.spec_type().spec_code());
    }
}

proof fn lemma_counters_found(d: Draft, plan: CpuPlan, n: int)
    requires
        cpu_layout(d, plan),
        plain_names(plan),
        0 <= n <= d.storages.len(),
    ensures
        counters_of(d.finished(), n) == counters_planned(
            plan,
            if n > 1 + plan.buffers.len() {
                n - 1 - plan.buffers.len()
            } else {
                0
            },
        ),
    decreases n,
{
    let first = 1 + plan.buffers.len() as int;
    if n > 0 {
        lemma_counters_found(d, plan, n - 1);
        lemma_kinds(d, plan, n - 1);
        if n > first {
            let j = n - 1 - first;
            let s = d.storages[first + j];
            lemma_found(d.finished(), d.pool, s.name, plan.counters[j]);
            assert(counters_of(d.finished(), n) =~= counters_planned(plan, j + 1));
        } else {
            assert(counters_of(d.finished(), n) =~= counters_planned(plan, 0));
        }
    } else {
        assert(counters_of(d.finished(), n) =~= counters_planned(plan, 0));
    }
}

proof fn lemma_buffer_found(d: Draft, plan: CpuPlan, j: int)
    requires
        cpu_layout(d, plan),
        plain_names(plan),
        0 <= j < plan.buffers.len(),
    ensures
        buffer_of(d.finished(), d.storages[1 + j]) == buffers_planned(
            plan,
            plan.buffers.len() as int,
        )[j],
{
    let s = d.storages[1 + j];
    let b = plan.buffers[j];
    let schema = d.finished();
    let fields = buffer_fields(b);
    lemma_no_nul();
    lemma_found(schema, d.pool, s.name, b.name);
    assert forall|k: int| 0 <= k < fields.len() implies text_or_unknown(
        schema,
        (#[trigger] s.fields[k]).name,
    ) == fields[k].0 by {
        assert(refers(d.pool, s.fields[k].name, fields[k].0));
        if k == 0 {
            assert(fields[0].0 == "entity_id"@);
        } else {
            assert(fields[k] == b.extra_fields[k - 1]);
            assert(!plan.buffers[j].extra_fields[k - 1].0.contains('\0'));
        }
        lemma_found(schema, d.pool, s.fields[k].name, fields[k].0);
    }
    let want = buffers_planned(plan, plan.buffers.len() as int)[j];
    let got = buffer_of(schema, s);
    assert(got.fields =~= want.fields);
    assert(got.properties =~= want.properties);
}

proof fn lemma_buffers_found(d: Draft, plan: CpuPlan, n: int)
    requires
        cpu_layout(d, plan),
        plain_names(plan),
        0 <= n <= d.storages.len(),
    ensures
        buffers_of(d.finished(), n) == buffers_planned(
            plan,
            if n <= 1 {
                0
            } else if n <= 1 + plan.buffers.len() {
                n - 1
            } else {
                plan.buffers.len() as int
            },
        ),
    decreases n,
{
    if n > 0 {
        lemma_buffers_found(d, plan, n - 1);
        lemma_kinds(d, plan, n - 1);
        if 1 < n <= 1 + plan.buffers.len() {
            lemma_buffer_found(d, plan, n - 2);
            assert(buffers_of(d.finished(), n) =~= buffers_planned(plan, n - 1));
        } else if n == 1 {
            assert(buffers_of(d.finished(), n) =~= buffers_planned(plan, 0));
        }
    } else {
        assert(buffers_of(d.finished(), n) =~= buffers_planned(plan, 0));
    }
}

/// The counters and the buffers of a CPU are found in its schema, with the
/// numbers that it was built with.
pub proof fn law_cpu_found(schema: SchemaView, plan: CpuPlan, q: Pool)
    requires
        Pool::empty().fits_all(cpu_names(plan)),
        keeps(cpu_draft(plan).pool, q),
        schema == (Draft { pool: q, ..cpu_draft(plan) }).finished(),
        plain_names(plan),
    ensures
        counters_of(schema, schema.storages.len() as int) == counters_planned(
            plan,
            plan.counters.len() as int,
        ),
        buffers_of(schema, schema.storages.len() as int) == buffers_planned(
            plan,
            plan.buffers.len() as int,
        ),
        forall|j: int|
            0 <= j < plan.counters.len() ==> counters_planned(
                plan,
                plan.counters.len() as int,
            )[j].storage_id == (#[trigger] crate::protocols::cpu::cpu_ids(plan).counters[j]).1,
{
    let d = Draft { pool: q, ..cpu_draft(plan) };
    law_cpu_layout(plan, q);
    lemma_counters_found(d, plan, d.storages.len() as int);
    lemma_buffers_found(d, plan, d.storages.len() as int);
}

} // verus!
