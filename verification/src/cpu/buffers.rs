//! The contents of buffers at a cycle.

use std::collections::HashMap;
use vstd::prelude::*;
use crate::checkpoint::{lemma_slot_bounds, FieldOffsets, Layout, StorageState, StorageView};
use crate::cpu::resolve::{known_text, text_or_unknown};
use crate::cpu::types::{
    empty_buffer, slot_views, valued_texts, BufferInfo, BufferInfoView, BufferSlot, BufferSlotView,
    BufferState, BufferStateView, PropertyValue, PropertyValueView,
};
use crate::numerals::texts_of;
use crate::reader::{Reader, ReaderView};
use crate::schema::{Schema, SchemaView};
use crate::state::all_wf;
use crate::types::{FieldDef, StorageDefView};
use crate::wire::views;

verus! {

broadcast use vstd::std_specs::hash::group_hash_axioms;

/// The value of a field, where it lies inside its storage.
pub open spec fn read_field(v: StorageView, slot: u16, l: Layout, field: u16) -> Option<u64> {
    if v.field_fits(slot, l, field) {
        Some(v.field(slot, l, field))
    } else {
        None
    }
}

/// The value of a property, where it lies inside its storage.
pub open spec fn read_property(v: StorageView, l: Layout, prop: u16) -> Option<u64> {
    if v.property_fits(l, prop) {
        Some(v.property(l, prop))
    } else {
        None
    }
}

/// The first state from `i` on with the given storage number.
pub open spec fn state_from(st: Seq<StorageView>, storage_id: u16, i: int) -> Option<StorageView>
    decreases st.len() - i,
{
    if i >= st.len() {
        None
    } else if st[i].storage_id == storage_id {
        Some(st[i])
    } else {
        state_from(st, storage_id, i + 1)
    }
}

/// The first definition from `i` on with the given storage number.
pub open spec fn def_from(schema: SchemaView, storage_id: u16, i: int) -> Option<StorageDefView>
    decreases schema.storages.len() - i,
{
    if i >= schema.storages.len() {
        None
    } else if schema.storages[i].storage_id == storage_id {
        Some(schema.storages[i])
    } else {
        def_from(schema, storage_id, i + 1)
    }
}

/// The layout of a storage.
pub open spec fn layout_at(ls: Seq<Layout>, storage_id: u16) -> Option<Layout> {
    if storage_id < ls.len() {
        Some(ls[storage_id as int])
    } else {
        None
    }
}

/// The names of some fields.
pub open spec fn known_names(schema: SchemaView, fields: Seq<FieldDef>) -> Seq<Seq<char>> {
    fields.map_values(|f: FieldDef| text_or_unknown(schema, f.name))
}

/// The values of the first `n` fields of a slot.
pub open spec fn slot_values(v: StorageView, l: Layout, slot: u16, n: int) -> Option<Seq<u64>>
    decreases n,
{
    if n <= 0 {
        Some(Seq::empty())
    } else {
        match (slot_values(v, l, slot, n - 1), read_field(v, slot, l, (n - 1) as u16)) {
            (Some(before), Some(value)) => Some(before.push(value)),
            _ => None,
        }
    }
}

/// In which slot each entity is, as far as the first `n` slots tell.
pub open spec fn entity_slots(v: StorageView, l: Layout, n: int) -> Option<Map<u64, u16>>
    decreases n,
{
    if n <= 0 {
        Some(Map::empty())
    } else {
        match entity_slots(v, l, n - 1) {
            None => None,
            Some(before) => if v.slot_is_valid((n - 1) as u16) {
                match read_field(v, (n - 1) as u16, l, 0) {
                    Some(id) => Some(before.insert(id, (n - 1) as u16)),
                    None => None,
                }
            } else {
                Some(before)
            },
        }
    }
}

/// The names and values of the fields from the third up to but not with field
/// `n` of an entity.
pub open spec fn entity_values(
    v: StorageView,
    l: Layout,
    slot: u16,
    names: Seq<Seq<char>>,
    n: int,
) -> Option<Seq<(Seq<char>, u64)>>
    decreases n,
{
    if n <= 2 {
        Some(Seq::empty())
    } else {
        match (
            entity_values(v, l, slot, names, n - 1),
            read_field(v, slot, l, (n - 1) as u16),
        ) {
            (Some(before), Some(value)) => Some(before.push((names[n - 1], value))),
            _ => None,
        }
    }
}

/// The catalog of entities: its state, its layout, the slots of the entities
/// and the names of the fields.
#[verifier::ext_equal]
pub struct Catalog {
    pub state: StorageView,
    pub layout: Layout,
    pub slots: Map<u64, u16>,
    pub names: Seq<Seq<char>>,
}

/// What is known of an entity.
pub open spec fn entity_of(catalog: Option<Catalog>, id: u64) -> Option<Seq<(Seq<char>, u64)>> {
    match catalog {
        Some(c) if c.slots.contains_key(id) => entity_values(
            c.state,
            c.layout,
            c.slots[id],
            c.names,
            c.names.len() as int,
        ),
        _ => Some(Seq::empty()),
    }
}

/// The first `n` slots of a buffer that are occupied.
pub open spec fn occupied(
    v: StorageView,
    l: Layout,
    fields: int,
    catalog: Option<Catalog>,
    n: int,
) -> Option<Seq<BufferSlotView>>
    decreases n,
{
    if n <= 0 {
        Some(Seq::empty())
    } else {
        let slot = (n - 1) as u16;
        match occupied(v, l, fields, catalog, n - 1) {
            None => None,
            Some(before) => if v.is_sparse && !v.slot_is_valid(slot) {
                Some(before)
            } else {
                match (slot_values(v, l, slot, fields), read_field(v, slot, l, 0)) {
                    (Some(values), Some(id)) => match entity_of(catalog, id) {
                        Some(entity) => Some(
                            before.push(BufferSlotView { slot, values, entity }),
                        ),
                        None => None,
                    },
                    _ => None,
                }
            },
        }
    }
}

/// The values of the first `n` properties of a storage.
pub open spec fn property_values(
    schema: SchemaView,
    v: StorageView,
    l: Layout,
    defs: Seq<FieldDef>,
    n: int,
) -> Option<Seq<PropertyValueView>>
    decreases n,
{
    if n <= 0 {
        Some(Seq::empty())
    } else {
        let def = defs[n - 1];
        match (
            property_values(schema, v, l, defs, n - 1),
            read_property(v, l, (n - 1) as u16),
        ) {
            (Some(before), Some(value)) => Some(
                before.push(
                    PropertyValueView {
                        name: text_or_unknown(schema, def.name),
                        value,
                        role: def.role,
                        pair_id: def.pair_id,
                    },
                ),
            ),
            _ => None,
        }
    }
}

/// The properties of a storage by its definition.
pub open spec fn properties_in(
    schema: SchemaView,
    v: StorageView,
    l: Layout,
    storage_id: u16,
) -> Option<Seq<PropertyValueView>> {
    match def_from(schema, storage_id, 0) {
        Some(def) => property_values(
            schema,
            v,
            l,
            def.properties,
            def.properties.len() as int,
        ),
        None => Some(Seq::empty()),
    }
}

/// The names of the fields of a storage: none where it is not defined.
pub open spec fn names_in(schema: SchemaView, storage_id: u16) -> Seq<Seq<char>> {
    match def_from(schema, storage_id, 0) {
        Some(def) => known_names(schema, def.fields),
        None => Seq::empty(),
    }
}

/// The catalog of entities, where there is one: `None` if it cannot be read.
pub open spec fn catalog_in(
    schema: SchemaView,
    ls: Seq<Layout>,
    st: Seq<StorageView>,
    entities_id: u16,
) -> Option<Option<Catalog>> {
    match (state_from(st, entities_id, 0), layout_at(ls, entities_id)) {
        (Some(state), Some(layout)) => match entity_slots(
            state,
            layout,
            state.num_slots as int,
        ) {
            Some(slots) => Some(
                Some(Catalog { state, layout, slots, names: names_in(schema, entities_id) }),
            ),
            None => None,
        },
        _ => Some(None),
    }
}

/// The contents of a buffer, given the states of all storages: empty where
/// it is not among them or cannot be read.
pub open spec fn buffer_in(
    schema: SchemaView,
    ls: Seq<Layout>,
    st: Seq<StorageView>,
    buffer: BufferInfoView,
    entities_id: u16,
) -> BufferStateView {
    match (state_from(st, buffer.storage_id, 0), layout_at(ls, buffer.storage_id)) {
        (Some(v), Some(l)) => match catalog_in(schema, ls, st, entities_id) {
            None => empty_buffer(),
            Some(catalog) => match (
                occupied(
                    v,
                    l,
                    (buffer.fields.len() as u16) as int,
                    catalog,
                    v.num_slots as int,
                ),
                properties_in(schema, v, l, buffer.storage_id),
            ) {
                (Some(slots), Some(properties)) => BufferStateView {
                    slots,
                    properties,
                    capacity: buffer.capacity,
                },
                _ => empty_buffer(),
            },
        },
        _ => empty_buffer(),
    }
}

/// The contents of a buffer at a time: empty where the state is not known.
pub open spec fn buffer_at(
    v: ReaderView,
    buffer: BufferInfoView,
    entities_id: u16,
    time: u64,
) -> BufferStateView {
    match v.state_at(time) {
        Ok((_, st)) => buffer_in(v.schema, v.layouts(), st, buffer, entities_id),
        Err(_) => empty_buffer(),
    }
}

// ---------------------------------------------------------------------------
// Finding it out.

/// The value of a field, where it lies inside its storage.
fn try_field(v: &StorageState, slot: u16, l: &FieldOffsets, field: u16) -> (r: Option<u64>)
    requires
        v@.wf(),
    ensures
        r == read_field(v@, slot, l@, field),
{
    if slot < v.num_slots {
        let f: usize = field as usize;
        if f >= l.types.len() || f >= l.offsets.len() {
            return None;
        }
        proof {
            lemma_slot_fits(v@, slot);
        }
        let len: usize = v.data.len();
        let left: usize = len - slot as usize * v.slot_size;
        let size: usize = l.types[f].size();
        if l.offsets[f] > left || size > left - l.offsets[f] {
            return None;
        }
    }
    Some(v.get_field_at(slot, l, field))
}

proof fn lemma_slot_fits(v: StorageView, slot: u16)
    requires
        v.wf(),
        slot < v.num_slots,
    ensures
        0 <= slot * v.slot_size <= v.data.len(),
{
    lemma_slot_bounds(v, slot as int);
}

/// The value of a property, where it lies inside its storage.
fn try_property(v: &StorageState, l: &FieldOffsets, prop: u16) -> (r: Option<u64>)
    requires
        v@.wf(),
    ensures
        r == read_property(v@, l@, prop),
{
    let p: usize = prop as usize;
    if p < l.prop_types.len() {
        if p >= l.prop_offsets.len() {
            return None;
        }
        let left: usize = v.property_data.len();
        let size: usize = l.prop_types[p].size();
        if l.prop_offsets[p] > left || size > left - l.prop_offsets[p] {
            return None;
        }
    }
    Some(v.get_property(l, prop))
}

fn find_state(st: &Vec<StorageState>, storage_id: u16) -> (r: Option<usize>)
    ensures
        match state_from(views(st@), storage_id, 0) {
            Some(v) => {
                &&& r is Some
                &&& r->Some_0 < st@.len()
                &&& st@[r->Some_0 as int]@ == v
            },
            None => r is None,
        },
{
    let mut i: usize = 0;
    while i < st.len()
        invariant
            i <= st@.len(),
            state_from(views(st@), storage_id, 0) == state_from(
                views(st@),
                storage_id,
                i as int,
            ),
        decreases st@.len() - i,
    {
        if st[i].storage_id == storage_id {
            return Some(i);
        }
        i = i + 1;
    }
    None
}

fn find_def(schema: &Schema, storage_id: u16) -> (r: Option<usize>)
    ensures
        match def_from(schema@, storage_id, 0) {
            Some(d) => {
                &&& r is Some
                &&& r->Some_0 < schema.storages@.len()
                &&& schema.storages@[r->Some_0 as int]@ == d
            },
            None => r is None,
        },
{
    let mut i: usize = 0;
    while i < schema.storages.len()
        invariant
            i <= schema.storages@.len(),
            schema@.storages.len() == schema.storages@.len(),
            def_from(schema@, storage_id, 0) == def_from(schema@, storage_id, i as int),
        decreases schema.storages@.len() - i,
    {
        assert(schema@.storages[i as int] == schema.storages@[i as int]@);
        if schema.storages[i].storage_id == storage_id {
            return Some(i);
        }
        i = i + 1;
    }
    None
}

fn list_names(schema: &Schema, storage_id: u16) -> (names: Vec<String>)
    ensures
        texts_of(names@) == names_in(schema@, storage_id),
{
    let mut names: Vec<String> = Vec::new();
    let k: usize = match find_def(schema, storage_id) {
        None => {
            assert(texts_of(names@) =~= names_in(schema@, storage_id));
            return names;
        },
        Some(k) => k,
    };
    let fields = &schema.storages[k].fields;
    let ghost want = known_names(schema@, fields@);
    let mut i: usize = 0;
    while i < fields.len()
        invariant
            i <= fields@.len(),
            want == known_names(schema@, fields@),
            texts_of(names@) == want.take(i as int),
        decreases fields@.len() - i,
    {
        let name = known_text(schema, fields[i].name);
        let ghost before = texts_of(names@);
        names.push(name);
        assert(texts_of(names@) =~= before.push(name@));
        i = i + 1;
        assert(texts_of(names@) =~= want.take(i as int));
    }
    assert(want.take(i as int) =~= want);
    names
}

/// The values of the first `n` fields of a slot.
fn read_slot(v: &StorageState, l: &FieldOffsets, slot: u16, n: u16) -> (r: Option<Vec<u64>>)
    requires
        v@.wf(),
    ensures
        match slot_values(v@, l@, slot, n as int) {
            Some(s) => r is Some && r->Some_0@ == s,
            None => r is None,
        },
{
    let mut values: Vec<u64> = Vec::new();
    let mut i: u16 = 0;
    assert(values@ =~= Seq::<u64>::empty());
    while i < n
        invariant
            i <= n,
            v@.wf(),
            slot_values(v@, l@, slot, i as int) == Some(values@),
        decreases n - i,
    {
        match try_field(v, slot, l, i) {
            Some(value) => {
                values.push(value);
            },
            None => {
                proof {
                    lemma_values_none(v@, l@, slot, i + 1, n as int);
                }
                return None;
            },
        }
        i = i + 1;
    }
    Some(values)
}

proof fn lemma_values_none(v: StorageView, l: Layout, slot: u16, i: int, n: int)
    requires
        i <= n,
        slot_values(v, l, slot, i) is None,
    ensures
        slot_values(v, l, slot, n) is None,
    decreases n - i,
{
    if i < n {
        lemma_values_none(v, l, slot, i, n - 1);
    }
}

/// Pre-builds the map from entity ids to slots.
fn map_entities(v: &StorageState, l: &FieldOffsets) -> (r: Option<HashMap<u64, u16>>)
    requires
        v@.wf(),
    ensures
        match entity_slots(v@, l@, v@.num_slots as int) {
            Some(m) => r is Some && r->Some_0@ == m,
            None => r is None,
        },
{
    let mut map: HashMap<u64, u16> = HashMap::new();
    let mut i: u16 = 0;
    while i < v.num_slots
        invariant
            i <= v.num_slots,
            v@.wf(),
            entity_slots(v@, l@, i as int) == Some(map@),
        decreases v.num_slots - i,
    {
        if v.slot_valid(i) {
            match try_field(v, i, l, 0) {
                Some(id) => {
                    map.insert(id, i);
                },
                None => {
                    proof {
                        lemma_slots_none(v@, l@, i + 1, v@.num_slots as int);
                    }
                    return None;
                },
            }
        }
        i = i + 1;
    }
    Some(map)
}

proof fn lemma_slots_none(v: StorageView, l: Layout, i: int, n: int)
    requires
        i <= n,
        entity_slots(v, l, i) is None,
    ensures
        entity_slots(v, l, n) is None,
    decreases n - i,
{
    if i < n {
        lemma_slots_none(v, l, i, n - 1);
    }
}

/// What is known of an entity in a slot of the catalog.
fn read_entity(v: &StorageState, l: &FieldOffsets, slot: u16, names: &Vec<String>) -> (r: Option<
    Vec<(String, u64)>,
>)
    requires
        v@.wf(),
    ensures
        match entity_values(v@, l@, slot, texts_of(names@), names@.len() as int) {
            Some(s) => r is Some && valued_texts(r->Some_0@) == s,
            None => r is None,
        },
{
    let ghost texts = texts_of(names@);
    let mut values: Vec<(String, u64)> = Vec::new();
    let mut i: usize = 2;
    assert(valued_texts(values@) =~= Seq::<(Seq<char>, u64)>::empty());
    while i < names.len()
        invariant
            2 <= i,
            i <= names@.len() || i == 2,
            v@.wf(),
            texts == texts_of(names@),
            entity_values(v@, l@, slot, texts, i as int) == Some(valued_texts(values@)),
        decreases names@.len() - i,
    {
        let field: u16 = #[verifier::truncate] (i as u16);
        match try_field(v, slot, l, field) {
            Some(value) => {
                let name = names[i].clone();
                let ghost before = valued_texts(values@);
                values.push((name, value));
                assert(valued_texts(values@) =~= before.push((name@, value)));
            },
            None => {
                proof {
                    lemma_entity_none(v@, l@, slot, texts, i + 1, names@.len() as int);
                }
                return None;
            },
        }
        i = i + 1;
    }
    Some(values)
}

proof fn lemma_entity_none(
    v: StorageView,
    l: Layout,
    slot: u16,
    names: Seq<Seq<char>>,
    i: int,
    n: int,
)
    requires
        2 < i <= n,
        entity_values(v, l, slot, names, i) is None,
    ensures
        entity_values(v, l, slot, names, n) is None,
    decreases n - i,
{
    if i < n {
        lemma_entity_none(v, l, slot, names, i, n - 1);
    }
}

/// The catalog of entities, as it is looked up.
struct CatalogRef<'a> {
    state: &'a StorageState,
    layout: &'a FieldOffsets,
    slots: HashMap<u64, u16>,
    names: Vec<String>,
}

impl<'a> View for CatalogRef<'a> {
    type V = Catalog;

    closed spec fn view(&self) -> Catalog {
        Catalog {
            state: self.state@,
            layout: self.layout@,
            slots: self.slots@,
            names: texts_of(self.names@),
        }
    }
}

closed spec fn catalog_view(c: Option<CatalogRef<'_>>) -> Option<Catalog> {
    match c {
        Some(c) => Some(c@),
        None => None,
    }
}

/// What is known of an entity.
fn look_up(catalog: &Option<CatalogRef<'_>>, id: u64) -> (r: Option<Vec<(String, u64)>>)
    requires
        *catalog matches Some(c) ==> c.state@.wf(),
    ensures
        match entity_of(catalog_view(*catalog), id) {
            Some(s) => r is Some && valued_texts(r->Some_0@) == s,
            None => r is None,
        },
{
    match catalog {
        Some(c) => match c.slots.get(&id) {
            Some(slot) => {
                return read_entity(c.state, c.layout, *slot, &c.names);
            },
            None => {},
        },
        None => {},
    }
    let none: Vec<(String, u64)> = Vec::new();
    assert(valued_texts(none@) =~= Seq::<(Seq<char>, u64)>::empty());
    Some(none)
}

/// The slots of a buffer that are occupied.
fn read_slots(
    v: &StorageState,
    l: &FieldOffsets,
    fields: u16,
    catalog: &Option<CatalogRef<'_>>,
) -> (r: Option<Vec<BufferSlot>>)
    requires
        v@.wf(),
        *catalog matches Some(c) ==> c.state@.wf(),
    ensures
        match occupied(v@, l@, fields as int, catalog_view(*catalog), v@.num_slots as int) {
            Some(s) => r is Some && slot_views(r->Some_0@) == s,
            None => r is None,
        },
{
    let ghost cat = catalog_view(*catalog);
    let mut slots: Vec<BufferSlot> = Vec::new();
    let mut i: u16 = 0;
    assert(slot_views(slots@) =~= Seq::<BufferSlotView>::empty());
    while i < v.num_slots
        invariant
            i <= v.num_slots,
            v@.wf(),
            *catalog matches Some(c) ==> c.state@.wf(),
            cat == catalog_view(*catalog),
            occupied(v@, l@, fields as int, cat, i as int) == Some(slot_views(slots@)),
        decreases v.num_slots - i,
    {
        proof {
            if occupied(v@, l@, fields as int, cat, i + 1) is None {
                lemma_occupied_none(v@, l@, fields as int, cat, i + 1, v@.num_slots as int);
            }
        }
        if !(v.is_sparse && !v.slot_valid(i)) {
            let values = match read_slot(v, l, i, fields) {
                Some(x) => x,
                None => return None,
            };
            let id: u64 = match try_field(v, i, l, 0) {
                Some(x) => x,
                None => return None,
            };
            let entity = match look_up(catalog, id) {
                Some(x) => x,
                None => return None,
            };
            let ghost before = slot_views(slots@);
            let ghost one = BufferSlotView {
                slot: i,
                values: values@,
                entity: valued_texts(entity@),
            };
            slots.push((i, values, entity));
            assert(slot_views(slots@) =~= before.push(one));
        }
        i = i + 1;
    }
    Some(slots)
}

proof fn lemma_occupied_none(
    v: StorageView,
    l: Layout,
    fields: int,
    catalog: Option<Catalog>,
    i: int,
    n: int,
)
    requires
        i <= n,
        occupied(v, l, fields, catalog, i) is None,
    ensures
        occupied(v, l, fields, catalog, n) is None,
    decreases n - i,
{
    if i < n {
        lemma_occupied_none(v, l, fields, catalog, i, n - 1);
    }
}

/// The views of some property values.
pub open spec fn value_views(ps: Seq<PropertyValue>) -> Seq<PropertyValueView> {
    ps.map_values(|p: PropertyValue| p@)
}

/// The properties of a storage by its definition.
fn read_properties(schema: &Schema, v: &StorageState, l: &FieldOffsets, storage_id: u16) -> (r:
    Option<Vec<PropertyValue>>)
    requires
        v@.wf(),
    ensures
        match properties_in(schema@, v@, l@, storage_id) {
            Some(s) => r is Some && value_views(r->Some_0@) == s,
            None => r is None,
        },
{
    let mut values: Vec<PropertyValue> = Vec::new();
    assert(value_views(values@) =~= Seq::<PropertyValueView>::empty());
    let k: usize = match find_def(schema, storage_id) {
        None => return Some(values),
        Some(k) => k,
    };
    let defs = &schema.storages[k].properties;
    let mut i: usize = 0;
    while i < defs.len()
        invariant
            i <= defs@.len(),
            v@.wf(),
            property_values(schema@, v@, l@, defs@, i as int) == Some(value_views(values@)),
            properties_in(schema@, v@, l@, storage_id) == property_values(
                schema@,
                v@,
                l@,
                defs@,
                defs@.len() as int,
            ),
        decreases defs@.len() - i,
    {
        let prop: u16 = #[verifier::truncate] (i as u16);
        match try_property(v, l, prop) {
            Some(value) => {
                let p = PropertyValue {
                    name: known_text(schema, defs[i].name),
                    value,
                    role: defs[i].role,
                    pair_id: defs[i].pair_id,
                };
                let ghost before = value_views(values@);
                values.push(p);
                assert(value_views(values@) =~= before.push(p@));
            },
            None => {
                proof {
                    lemma_properties_none(schema@, v@, l@, defs@, i + 1, defs@.len() as int);
                }
                return None;
            },
        }
        i = i + 1;
    }
    Some(values)
}

proof fn lemma_properties_none(
    schema: SchemaView,
    v: StorageView,
    l: Layout,
    defs: Seq<FieldDef>,
    i: int,
    n: int,
)
    requires
        i <= n,
        property_values(schema, v, l, defs, i) is None,
    ensures
        property_values(schema, v, l, defs, n) is None,
    decreases n - i,
{
    if i < n {
        lemma_properties_none(schema, v, l, defs, i, n - 1);
    }
}

/// The catalog of entities.
fn find_catalog<'a>(
    schema: &Schema,
    ls: &'a [FieldOffsets],
    st: &'a Vec<StorageState>,
    entities_id: u16,
) -> (r: Option<Option<CatalogRef<'a>>>)
    requires
        all_wf(views(st@)),
    ensures
        match catalog_in(schema@, views(ls@), views(st@), entities_id) {
            Some(c) => {
                &&& r is Some
                &&& catalog_view(r->Some_0) == c
                &&& r->Some_0 matches Some(x) ==> x.state@.wf()
            },
            None => r is None,
        },
{
    let k: usize = match find_state(st, entities_id) {
        None => return Some(None),
        Some(k) => k,
    };
    if entities_id as usize >= ls.len() {
        return Some(None);
    }
    assert(views(st@)[k as int].wf());
    let state = &st[k];
    let layout = &ls[entities_id as usize];
    assert(views(ls@)[entities_id as int] == layout@);
    match map_entities(state, layout) {
        None => None,
        Some(slots) => {
            let c = CatalogRef { state, layout, slots, names: list_names(schema, entities_id) };
            Some(Some(c))
        },
    }
}

/// Query buffer storage state at a given cycle.
///
/// Returns occupied slots with field values, entity fields, and storage-level
/// property values (with pointer-pair metadata for ROB visualization).
///
/// Returns an empty `BufferState` if the query fails.
pub fn buffer_state_at(
    reader: &Reader,
    buffer: &BufferInfo,
    entities_storage_id: u16,
    period_ps: u64,
    cycle: u32,
) -> (s: BufferState)
    requires
        cycle * period_ps <= u64::MAX,
    ensures
        s@ == buffer_at(
            reader@,
            buffer@,
            entities_storage_id,
            (cycle * period_ps) as u64,
        ),
{
    let time_ps: u64 = cycle as u64 * period_ps;
    let trace_state = match reader.state_at(time_ps) {
        Ok(s) => s,
        Err(_) => return BufferState::default(),
    };
    let st = &trace_state.storages;
    let ls = reader.field_offsets();
    let schema = reader.schema();
    let storage_id: u16 = buffer.storage_id;
    let k: usize = match find_state(st, storage_id) {
        None => return BufferState::default(),
        Some(k) => k,
    };
    if storage_id as usize >= ls.len() {
        return BufferState::default();
    }
    assert(views(st@)[k as int].wf());
    let storage = &st[k];
    let offsets = &ls[storage_id as usize];
    assert(views(ls@)[storage_id as int] == offsets@);
    let catalog = match find_catalog(schema, ls, st, entities_storage_id) {
        None => return BufferState::default(),
        Some(c) => c,
    };
    let num_fields: u16 = #[verifier::truncate] (buffer.fields.len() as u16);
    let slots = match read_slots(storage, offsets, num_fields, &catalog) {
        None => return BufferState::default(),
        Some(s) => s,
    };
    let properties = match read_properties(schema, storage, offsets, storage_id) {
        None => return BufferState::default(),
        Some(p) => p,
    };
    BufferState { slots, properties, capacity: buffer.capacity }
}

} // verus!
