//! What a buffer shows is what was recorded of it.

use vstd::prelude::*;
use crate::checkpoint::{Layout, StorageView};
use crate::cpu::buffers::{
    buffer_at, buffer_in, catalog_in, entity_of, entity_slots, entity_values, occupied,
    properties_in, property_values, read_field, slot_values, state_from, Catalog,
};
use crate::cpu::trace::CpuTraceView;
use crate::cpu::types::{BufferInfoView, BufferSlotView};
use crate::roundtrip::{items_until, law_state_at, lemma_after_items_len, reads, sound, trace_items};
use crate::schema::SchemaView;
use crate::state::{after_items, TimedItemView};
use crate::storage_laws::{agree, all_agree};
use crate::trace::{initial_states, layouts_of, Recording};
use crate::types::{FieldDef, StorageDefView};

verus! {

// ---------------------------------------------------------------------------
// Which slots are shown.

/// Whether a slot of a buffer is occupied: in a dense buffer, every slot is.
pub open spec fn shown(v: StorageView, slot: u16) -> bool {
    !v.is_sparse || v.slot_is_valid(slot)
}

/// A buffer shows exactly its occupied slots, each once and in ascending
/// order, with the values of its fields and what is known of its entity.
pub proof fn law_occupied(
    v: StorageView,
    l: Layout,
    fields: int,
    catalog: Option<Catalog>,
    n: int,
    slots: Seq<BufferSlotView>,
)
    requires
        0 <= n <= 0x1_0000,
        occupied(v, l, fields, catalog, n) == Some(slots),
    ensures
        forall|i: int, j: int| 0 <= i < j < slots.len() ==> slots[i].slot < slots[j].slot,
        forall|i: int|
            0 <= i < slots.len() ==> {
                let s = #[trigger] slots[i];
                &&& s.slot < n
                &&& shown(v, s.slot)
                &&& slot_values(v, l, s.slot, fields) == Some(s.values)
                &&& read_field(v, s.slot, l, 0) is Some
                &&& entity_of(catalog, read_field(v, s.slot, l, 0)->Some_0) == Some(s.entity)
            },
        forall|slot: u16|
            slot < n && #[trigger] shown(v, slot) ==> exists|i: int|
                0 <= i < slots.len() && (#[trigger] slots[i]).slot == slot,
    decreases n,
{
    if n > 0 {
        let slot = (n - 1) as u16;
        let before = occupied(v, l, fields, catalog, n - 1)->Some_0;
        law_occupied(v, l, fields, catalog, n - 1, before);
        assert forall|x: u16| x < n && #[trigger] shown(v, x) implies exists|i: int|
            0 <= i < slots.len() && (#[trigger] slots[i]).slot == x by {
            if x < n - 1 {
                let i = choose|i: int| 0 <= i < before.len() && (#[trigger] before[i]).slot == x;
                assert(slots[i] == before[i]);
            } else {
                assert(slots[slots.len() - 1].slot == x);
            }
        }
    }
}

// ---------------------------------------------------------------------------
// States that agree show the same.

proof fn lemma_same_values(a: StorageView, b: StorageView, l: Layout, slot: u16, n: int)
    requires
        agree(a, b),
    ensures
        slot_values(a, l, slot, n) == slot_values(b, l, slot, n),
    decreases n,
{
    if n > 0 {
        lemma_same_values(a, b, l, slot, n - 1);
    }
}

proof fn lemma_same_slots(a: StorageView, b: StorageView, l: Layout, n: int)
    requires
        agree(a, b),
        a.is_sparse,
    ensures
        entity_slots(a, l, n) == entity_slots(b, l, n),
    decreases n,
{
    if n > 0 {
        lemma_same_slots(a, b, l, n - 1);
    }
}

proof fn lemma_same_entity(
    a: StorageView,
    b: StorageView,
    l: Layout,
    slot: u16,
    names: Seq<Seq<char>>,
    n: int,
)
    requires
        agree(a, b),
    ensures
        entity_values(a, l, slot, names, n) == entity_values(b, l, slot, names, n),
    decreases n,
{
    if n > 2 {
        lemma_same_entity(a, b, l, slot, names, n - 1);
    }
}

/// Catalogs of states that agree.
spec fn same_catalogs(x: Option<Catalog>, y: Option<Catalog>) -> bool {
    match (x, y) {
        (Some(c), Some(d)) => {
            &&& agree(c.state, d.state)
            &&& c.layout == d.layout
            &&& c.slots == d.slots
            &&& c.names == d.names
        },
        (None, None) => true,
        _ => false,
    }
}

proof fn lemma_same_occupied(
    a: StorageView,
    b: StorageView,
    l: Layout,
    fields: int,
    x: Option<Catalog>,
    y: Option<Catalog>,
    n: int,
)
    requires
        agree(a, b),
        same_catalogs(x, y),
    ensures
        occupied(a, l, fields, x, n) == occupied(b, l, fields, y, n),
    decreases n,
{
    if n > 0 {
        lemma_same_occupied(a, b, l, fields, x, y, n - 1);
        let slot = (n - 1) as u16;
        lemma_same_values(a, b, l, slot, fields);
        if let (Some(c), Some(d)) = (x, y) {
            let id = read_field(a, slot, l, 0)->Some_0;
            lemma_same_entity(
                c.state,
                d.state,
                c.layout,
                c.slots[id],
                c.names,
                c.names.len() as int,
            );
        }
    }
}

proof fn lemma_same_properties(
    schema: SchemaView,
    a: StorageView,
    b: StorageView,
    l: Layout,
    defs: Seq<FieldDef>,
    n: int,
)
    requires
        agree(a, b),
    ensures
        property_values(schema, a, l, defs, n) == property_values(schema, b, l, defs, n),
    decreases n,
{
    if n > 0 {
        lemma_same_properties(schema, a, b, l, defs, n - 1);
    }
}

proof fn lemma_same_found(a: Seq<StorageView>, b: Seq<StorageView>, id: u16, i: int)
    requires
        all_agree(a, b),
        0 <= i,
    ensures
        match (state_from(a, id, i), state_from(b, id, i)) {
            (Some(x), Some(y)) => agree(x, y) && x.storage_id == id && exists|k: int|
                0 <= k < a.len() && #[trigger] a[k] == x,
            (None, None) => true,
            _ => false,
        },
    decreases a.len() - i,
{
    if i < a.len() {
        assert(agree(a[i], b[i]));
        if a[i].storage_id != id {
            lemma_same_found(a, b, id, i + 1);
        }
    }
}

/// States that agree show the same of a buffer, while the entities are in a
/// sparse storage.
proof fn lemma_same_buffer(
    schema: SchemaView,
    ls: Seq<Layout>,
    a: Seq<StorageView>,
    b: Seq<StorageView>,
    buffer: BufferInfoView,
    entities: u16,
)
    requires
        all_agree(a, b),
        forall|k: int|
            0 <= k < a.len() && (#[trigger] a[k]).storage_id == entities ==> a[k].is_sparse,
    ensures
        buffer_in(schema, ls, a, buffer, entities) == buffer_in(schema, ls, b, buffer, entities),
{
    lemma_same_found(a, b, buffer.storage_id, 0);
    lemma_same_found(a, b, entities, 0);
    if let (Some(x), Some(y)) = (state_from(a, entities, 0), state_from(b, entities, 0)) {
        if entities < ls.len() {
            lemma_same_slots(x, y, ls[entities as int], x.num_slots as int);
        }
    }
    let c = catalog_in(schema, ls, a, entities);
    let d = catalog_in(schema, ls, b, entities);
    assert(match (c, d) {
        (Some(p), Some(q)) => same_catalogs(p, q),
        (None, None) => true,
        _ => false,
    });
    if let (Some(x), Some(y)) = (
        state_from(a, buffer.storage_id, 0),
        state_from(b, buffer.storage_id, 0),
    ) {
        if buffer.storage_id < ls.len() && c is Some {
            let l = ls[buffer.storage_id as int];
            lemma_same_occupied(
                x,
                y,
                l,
                (buffer.fields.len() as u16) as int,
                c->Some_0,
                d->Some_0,
                x.num_slots as int,
            );
            if let Some(def) = crate::cpu::buffers::def_from(schema, buffer.storage_id, 0) {
                lemma_same_properties(
                    schema,
                    x,
                    y,
                    l,
                    def.properties,
                    def.properties.len() as int,
                );
            }
            assert(properties_in(schema, x, l, buffer.storage_id) == properties_in(
                schema,
                y,
                l,
                buffer.storage_id,
            ));
        }
    }
}

// ---------------------------------------------------------------------------
// What was recorded.

/// What is recorded changes neither the numbers of storages nor which of them
/// are sparse.
proof fn lemma_kinds_stay(
    st: Seq<StorageView>,
    ls: Seq<Layout>,
    items: Seq<TimedItemView>,
    i: int,
)
    requires
        0 <= i < st.len(),
    ensures
        after_items(st, ls, items).len() == st.len(),
        after_items(st, ls, items)[i].storage_id == st[i].storage_id,
        after_items(st, ls, items)[i].is_sparse == st[i].is_sparse,
    decreases items.len(),
{
    if items.len() > 0 {
        lemma_kinds_stay(st, ls, items.drop_last(), i);
    }
}

/// The states of all storages once everything recorded up to a time has
/// happened.
pub open spec fn recorded_until(rec: Recording, time: u64) -> Seq<StorageView> {
    after_items(
        initial_states(rec.schema.storages),
        layouts_of(rec.schema.storages),
        items_until(trace_items(rec.segments, rec.schema.storages.len() as int), time),
    )
}

/// A buffer shows at a time what everything recorded up to that time leads to,
/// where the storage of the entities is sparse.
pub proof fn law_buffer_state(
    t: CpuTraceView,
    rec: Recording,
    tail: Seq<u8>,
    buffer: BufferInfoView,
    time: u64,
)
    requires
        sound(rec),
        reads(t.reader, rec, tail),
        rec.segments.len() > 0,
        forall|k: int|
            0 <= k < rec.schema.storages.len() && (#[trigger] rec.schema.storages[k]).storage_id
                == t.ids.entities_storage_id ==> rec.schema.storages[k].sparse(),
    ensures
        buffer_at(t.reader, buffer, t.ids.entities_storage_id, time) == buffer_in(
            rec.schema,
            layouts_of(rec.schema.storages),
            recorded_until(rec, time),
            buffer,
            t.ids.entities_storage_id,
        ),
{
    let storages: Seq<StorageDefView> = rec.schema.storages;
    let entities = t.ids.entities_storage_id;
    let ls = layouts_of(storages);
    let a = recorded_until(rec, time);
    law_state_at(t.reader, rec, tail, time);
    let b = t.reader.state_at(time)->Ok_0.1;
    let items = items_until(trace_items(rec.segments, storages.len() as int), time);
    assert forall|k: int|
        0 <= k < a.len() && (#[trigger] a[k]).storage_id == entities implies a[k].is_sparse by {
        let first = initial_states(storages);
        lemma_after_items_len(first, ls, items);
        lemma_kinds_stay(first, ls, items, k);
        assert(first[k].storage_id == storages[k].storage_id);
    }
    lemma_same_buffer(rec.schema, ls, a, b, buffer, entities);
}

// ---------------------------------------------------------------------------
// Which values are shown.

/// The values of a slot are those of its fields, in their order.
pub proof fn law_slot_values(v: StorageView, l: Layout, slot: u16, n: int, values: Seq<u64>)
    requires
        0 <= n <= u16::MAX,
        slot_values(v, l, slot, n) == Some(values),
    ensures
        values.len() == n,
        forall|k: int|
            0 <= k < n ==> #[trigger] values[k] == v.field(slot, l, k as u16) && v.field_fits(
                slot,
                l,
                k as u16,
            ),
    decreases n,
{
    if n > 0 {
        law_slot_values(v, l, slot, n - 1, slot_values(v, l, slot, n - 1)->Some_0);
    }
}

/// What is known of an entity are its fields but for the first two, each with
/// its name, in their order.
pub proof fn law_entity_values(
    v: StorageView,
    l: Layout,
    slot: u16,
    names: Seq<Seq<char>>,
    n: int,
    values: Seq<(Seq<char>, u64)>,
)
    requires
        2 <= n <= u16::MAX,
        entity_values(v, l, slot, names, n) == Some(values),
    ensures
        values.len() == n - 2,
        forall|k: int|
            0 <= k < n - 2 ==> #[trigger] values[k] == (
                names[k + 2],
                v.field(slot, l, (k + 2) as u16),
            ),
    decreases n,
{
    if n > 2 {
        law_entity_values(
            v,
            l,
            slot,
            names,
            n - 1,
            entity_values(v, l, slot, names, n - 1)->Some_0,
        );
    }
}

/// An entity is looked up in an occupied slot whose first field is its ID: of
/// several in the last.
pub proof fn law_entity_slots(v: StorageView, l: Layout, n: int, slots: Map<u64, u16>)
    requires
        0 <= n <= 0x1_0000,
        entity_slots(v, l, n) == Some(slots),
    ensures
        forall|id: u64| #[trigger]
            slots.contains_key(id) ==> slots[id] < n && v.slot_is_valid(slots[id]) && v.field(
                slots[id],
                l,
                0,
            ) == id,
        forall|slot: u16|
            slot < n && #[trigger] v.slot_is_valid(slot) ==> slots.contains_key(
                v.field(slot, l, 0),
            ) && slots[v.field(slot, l, 0)] >= slot,
    decreases n,
{
    if n > 0 {
        let before = entity_slots(v, l, n - 1)->Some_0;
        law_entity_slots(v, l, n - 1, before);
        assert forall|slot: u16| slot < n && #[trigger] v.slot_is_valid(slot) implies
            slots.contains_key(v.field(slot, l, 0)) && slots[v.field(slot, l, 0)] >= slot by {
            if slot < n - 1 {
                assert(before.contains_key(v.field(slot, l, 0)));
            }
        }
    }
}

/// The properties of a buffer are all of its properties, in their order, each
/// with its value, its role and its pair ID.
pub proof fn law_property_values(
    schema: SchemaView,
    v: StorageView,
    l: Layout,
    defs: Seq<FieldDef>,
    n: int,
    values: Seq<crate::cpu::types::PropertyValueView>,
)
    requires
        0 <= n <= u16::MAX,
        property_values(schema, v, l, defs, n) == Some(values),
    ensures
        values.len() == n,
        forall|k: int|
            0 <= k < n ==> {
                let p = #[trigger] values[k];
                &&& p.value == v.property(l, k as u16)
                &&& p.role == defs[k].role
                &&& p.pair_id == defs[k].pair_id
                &&& schema.string(defs[k].name) matches Some(name) ==> p.name == name
            },
    decreases n,
{
    if n > 0 {
        law_property_values(
            schema,
            v,
            l,
            defs,
            n - 1,
            property_values(schema, v, l, defs, n - 1)->Some_0,
        );
    }
}

} // verus!
