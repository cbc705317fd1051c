//! Laws of CPU schemas.

use vstd::prelude::*;
use crate::checkpoint::types_of;
use crate::protocols::cpu::{
    buffer_fields, counter_fields, cpu_draft, entity_fields, settable, with_buffers, with_counters,
    with_enums, with_events, with_scopes, with_storages, BufferPlan, CpuPlan, BUFFER_FLAGS,
};
use crate::roundtrip::{all_regular, lemma_states_after_sound, sound_states};
use crate::schema::{Draft, FieldSpec};
use crate::storage_laws::{fields_apart, lemma_field_inside, regular};
use crate::trace::layouts_of;
use crate::types::{field_type_of, law_field_type_code, StorageDefView, SF_SPARSE};
use crate::writer::WriterView;

verus! {

/// Whether a storage has the given fields and no properties.
pub open spec fn has_fields(def: StorageDefView, fields: Seq<(Seq<char>, FieldSpec)>) -> bool {
    &&& def.fields.len() == fields.len()
    &&& def.properties.len() == 0
    &&& forall|i: int|
        0 <= i < fields.len() ==> (#[trigger] def.fields[i]).field_type
            == fields[i].1.spec_type().spec_code()
}

/// The types of such a storage are known.
proof fn lemma_has_fields(def: StorageDefView, fields: Seq<(Seq<char>, FieldSpec)>)
    requires
        has_fields(def, fields),
    ensures
        regular(def),
{
    assert forall|i: int| 0 <= i < def.fields.len() implies field_type_of(
        (#[trigger] def.fields[i]).field_type,
    ) is Some by {
        law_field_type_code(fields[i].1.spec_type(), 0);
    }
}

/// A storage that is added has the given fields.
proof fn lemma_added(
    d: Draft,
    name: Seq<char>,
    num_slots: u16,
    flags: u16,
    fields: Seq<(Seq<char>, FieldSpec)>,
)
    ensures
        ({
            let e = d.with_storage(name, 1, num_slots, flags, fields, Seq::empty());
            &&& e.storages.len() == d.storages.len() + 1
            &&& e.storages.drop_last() == d.storages
            &&& has_fields(e.storages.last(), fields)
            &&& e.storages.last().num_slots == num_slots
        }),
{
    let e = d.with_storage(name, 1, num_slots, flags, fields, Seq::empty());
    assert(e.storages.drop_last() =~= d.storages);
}

/// The first storages are unchanged by what is added behind them.
pub open spec fn extends(a: Seq<StorageDefView>, b: Seq<StorageDefView>) -> bool {
    &&& a.len() <= b.len()
    &&& forall|i: int| 0 <= i < a.len() ==> #[trigger] b[i] == a[i]
}

proof fn lemma_buffers(d: Draft, buffers: Seq<BufferPlan>, n: int)
    requires
        0 <= n,
        all_regular(d.storages),
    ensures
        with_buffers(d, buffers, n).storages.len() == d.storages.len() + n,
        extends(d.storages, with_buffers(d, buffers, n).storages),
        all_regular(with_buffers(d, buffers, n).storages),
    decreases n,
{
    if n > 0 {
        lemma_buffers(d, buffers, n - 1);
        let before = with_buffers(d, buffers, n - 1);
        let b = buffers[n - 1];
        lemma_added(before, b.name, b.num_slots, BUFFER_FLAGS, buffer_fields(b));
        let now = with_buffers(d, buffers, n);
        lemma_has_fields(now.storages.last(), buffer_fields(b));
        lemma_one_more(before.storages, now.storages);
        assert forall|i: int| 0 <= i < d.storages.len() implies #[trigger] now.storages[i]
            == d.storages[i] by {
            assert(now.storages[i] == before.storages[i]);
        }
    }
}

proof fn lemma_one_more(a: Seq<StorageDefView>, b: Seq<StorageDefView>)
    requires
        b.len() == a.len() + 1,
        b.drop_last() == a,
        all_regular(a),
        regular(b.last()),
    ensures
        extends(a, b),
        all_regular(b),
{
    assert forall|i: int| 0 <= i < a.len() implies #[trigger] b[i] == a[i] by {
        assert(b.drop_last()[i] == b[i]);
    }
    assert forall|i: int| 0 <= i < b.len() implies regular(#[trigger] b[i]) by {
        if i < a.len() {
            assert(b[i] == a[i]);
        }
    }
}

proof fn lemma_counters(d: Draft, counters: Seq<Seq<char>>, n: int)
    requires
        0 <= n,
        all_regular(d.storages),
    ensures
        with_counters(d, counters, n).storages.len() == d.storages.len() + n,
        extends(d.storages, with_counters(d, counters, n).storages),
        all_regular(with_counters(d, counters, n).storages),
        forall|j: int|
            0 <= j < n ==> has_fields(
                #[trigger] with_counters(d, counters, n).storages[d.storages.len() + j],
                counter_fields(),
            ),
    decreases n,
{
    if n > 0 {
        lemma_counters(d, counters, n - 1);
        let before = with_counters(d, counters, n - 1);
        lemma_added(before, counters[n - 1], 1, 0, counter_fields());
        let now = with_counters(d, counters, n);
        lemma_has_fields(now.storages.last(), counter_fields());
        lemma_one_more(before.storages, now.storages);
        assert forall|i: int| 0 <= i < d.storages.len() implies #[trigger] now.storages[i]
            == d.storages[i] by {
            assert(now.storages[i] == before.storages[i]);
        }
        assert forall|j: int| 0 <= j < n implies has_fields(
            #[trigger] now.storages[d.storages.len() + j],
            counter_fields(),
        ) by {
            if j < n - 1 {
                assert(now.storages[d.storages.len() + j] == before.storages[d.storages.len() + j]);
            }
        }
    }
}

/// The schema of a CPU has the entity catalog as its first storage, the
/// buffers next and the counters last, and the types of all fields are known.
pub proof fn law_cpu_storages(plan: CpuPlan)
    ensures
        ({
            let storages = cpu_draft(plan).storages;
            let first = 1 + plan.buffers.len();
            &&& storages.len() == first + plan.counters.len()
            &&& all_regular(storages)
            &&& has_fields(storages[0], entity_fields())
            &&& forall|j: int|
                0 <= j < plan.counters.len() ==> has_fields(
                    #[trigger] storages[first + j],
                    counter_fields(),
                )
        }),
{
    let d0 = with_enums(
        with_scopes(plan.scope_name, plan.clock_period_ps),
        plan.pipeline_stages,
        plan.stall_reasons,
    );
    assert(d0.storages =~= Seq::<StorageDefView>::empty());
    lemma_added(d0, "entities"@, plan.entity_slots, SF_SPARSE, entity_fields());
    let d1 = d0.with_storage(
        "entities"@,
        1,
        plan.entity_slots,
        SF_SPARSE,
        entity_fields(),
        Seq::empty(),
    );
    lemma_has_fields(d1.storages.last(), entity_fields());
    lemma_one_more(d0.storages, d1.storages);
    assert(d1.storages[0] == d1.storages.last());
    let nb = plan.buffers.len() as int;
    lemma_buffers(d1, plan.buffers, nb);
    let d2 = with_buffers(d1, plan.buffers, nb);
    lemma_counters(d2, plan.counters, plan.counters.len() as int);
    let d3 = with_counters(d2, plan.counters, plan.counters.len() as int);
    assert(d2.storages[0] == d1.storages[0]);
    assert(d3.storages[0] == d2.storages[0]);
    assert(with_storages(d0, plan) == d3);
    assert(with_events(d3).storages == d3.storages);
}

/// A writer of a trace with the storages of a CPU takes every field of every
/// slot of its entities and counters.
pub proof fn law_cpu_settable(w: WriterView, plan: CpuPlan, slot: u16)
    requires
        w.settled(),
        w.rec.schema.storages == cpu_draft(plan).storages,
    ensures
        settable(w, 0, slot, 0),
        settable(w, 0, slot, 1),
        settable(w, 0, slot, 2),
        forall|j: int|
            0 <= j < plan.counters.len() && 1 + plan.buffers.len() + j <= u16::MAX ==> settable(
                w,
                #[trigger] ((1 + plan.buffers.len() + j) as u16),
                slot,
                0,
            ),
{
    let storages = w.rec.schema.storages;
    law_cpu_storages(plan);
    lemma_states_after_sound(storages, w.rec.segments);
    lemma_settable(w, 0, slot, 0);
    lemma_settable(w, 0, slot, 1);
    lemma_settable(w, 0, slot, 2);
    assert forall|j: int|
        0 <= j < plan.counters.len() && 1 + plan.buffers.len() + j <= u16::MAX implies settable(
        w,
        #[trigger] ((1 + plan.buffers.len() + j) as u16),
        slot,
        0,
    ) by {
        let k = (1 + plan.buffers.len()) as int + j;
        assert(has_fields(storages[k], counter_fields()));
        lemma_settable(w, k as u16, slot, 0);
    }
}

proof fn lemma_settable(w: WriterView, id: u16, slot: u16, field: u16)
    requires
        w.settled(),
        sound_states(w.base, w.rec.schema.storages),
        id < w.rec.schema.storages.len(),
        field < w.rec.schema.storages[id as int].fields.len(),
    ensures
        settable(w, id, slot, field),
{
    let storages = w.rec.schema.storages;
    let l = layouts_of(storages)[id as int];
    let v = w.base[id as int];
    assert(v.wf());
    assert(fields_apart(l, v.slot_size));
    assert(l.types == types_of(storages[id as int].fields));
    if slot < v.num_slots {
        lemma_field_inside(v, l, slot, field);
    }
}

} // verus!
