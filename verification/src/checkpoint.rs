//! Storage state, and its serialized form: the checkpoint.
//! A checkpoint captures the full state of all storages at a point in time.

use vstd::prelude::*;
use crate::bytes::{
    get_u16, get_u32, get_u64, lemma_u16_at, lemma_u32_at, lemma_u64_at, put_u16, put_u32, put_u64,
    suffix, u16_at, u16_bytes, u32_at, u32_bytes, u64_at, u64_bytes, ByteReader,
};
use crate::error::TraceError;
use crate::types::{
    copy_vec, field_type_of, packed_size, put_slice, put_zeros, zeros, CheckpointBlock, FieldDef,
    FieldType, StorageDef, StorageDefView,
};
use crate::wire::Wire;

verus! {

broadcast use crate::bytes::group_le_len;

/// The bytes of `v` as a value of type `t`: as many of its low bytes as the
/// type has, least significant first.
pub open spec fn value_bytes(t: FieldType, v: u64) -> Seq<u8> {
    if t.spec_size() == 1 {
        seq![(v % 0x100) as u8]
    } else if t.spec_size() == 2 {
        u16_bytes((v % 0x1_0000) as u16)
    } else if t.spec_size() == 4 {
        u32_bytes((v % 0x1_0000_0000) as u32)
    } else {
        u64_bytes(v)
    }
}

/// The value of type `t` that stands at `i`.
pub open spec fn value_at(s: Seq<u8>, i: int, t: FieldType) -> u64 {
    if t.spec_size() == 1 {
        s[i] as u64
    } else if t.spec_size() == 2 {
        u16_at(s, i) as u64
    } else if t.spec_size() == 4 {
        u32_at(s, i) as u64
    } else {
        u64_at(s, i)
    }
}

/// What is left of `v` in a value of type `t`.
pub open spec fn truncated(t: FieldType, v: u64) -> u64 {
    if t.spec_size() == 1 {
        v % 0x100
    } else if t.spec_size() == 2 {
        v % 0x1_0000
    } else if t.spec_size() == 4 {
        v % 0x1_0000_0000
    } else {
        v
    }
}

/// `s` with the bytes from `i` on replaced by `b`.
pub open spec fn splice(s: Seq<u8>, i: int, b: Seq<u8>) -> Seq<u8> {
    s.subrange(0, i) + b + s.subrange(i + b.len(), s.len() as int)
}

/// A value that was stored is read back, cut to the size of its type.
pub proof fn law_value_roundtrip(s: Seq<u8>, i: int, t: FieldType, v: u64)
    requires
        0 <= i,
        i + t.spec_size() <= s.len(),
    ensures
        value_at(splice(s, i, value_bytes(t, v)), i, t) == truncated(t, v),
{
    let b = value_bytes(t, v);
    let r = splice(s, i, b);
    let n = t.spec_size() as int;
    assert(b.len() == n);
    assert(r.subrange(i, i + n) =~= b);
    if n == 1 {
        assert(r[i] == b[0]);
    } else if n == 2 {
        lemma_u16_at(r, i, (v % 0x1_0000) as u16);
    } else if n == 4 {
        lemma_u32_at(r, i, (v % 0x1_0000_0000) as u32);
    } else {
        lemma_u64_at(r, i, v);
    }
}

/// A value is not touched by what is stored beside it.
pub proof fn law_value_frame(s: Seq<u8>, i: int, t: FieldType, j: int, b: Seq<u8>)
    requires
        0 <= i,
        i + t.spec_size() <= s.len(),
        0 <= j,
        j + b.len() <= s.len(),
        i + t.spec_size() <= j || j + b.len() <= i,
    ensures
        value_at(splice(s, j, b), i, t) == value_at(s, i, t),
{
    reveal(u16_at);
    reveal(u32_at);
    reveal(u64_at);
    let r = splice(s, j, b);
    assert forall|k: int| i <= k < i + t.spec_size() implies r[k] == s[k] by {}
}

/// Appends the bytes of `v` as a value of type `t`.
pub fn put_value(w: &mut Vec<u8>, t: FieldType, v: u64)
    ensures
        final(w)@ == old(w)@ + value_bytes(t, v),
{
    let n: usize = t.size();
    if n == 1 {
        w.push((v % 0x100) as u8);
        assert(w@ =~= old(w)@ + value_bytes(t, v));
    } else if n == 2 {
        put_u16(w, (v % 0x1_0000) as u16);
    } else if n == 4 {
        put_u32(w, (v % 0x1_0000_0000) as u32);
    } else {
        put_u64(w, v);
    }
}

/// The value of type `t` that stands at `i`.
pub fn get_value(s: &[u8], i: usize, t: FieldType) -> (v: u64)
    requires
        i + t.spec_size() <= s@.len(),
    ensures
        v == value_at(s@, i as int, t),
{
    let n: usize = t.size();
    if n == 1 {
        s[i] as u64
    } else if n == 2 {
        get_u16(s, i) as u64
    } else if n == 4 {
        get_u32(s, i) as u64
    } else {
        get_u64(s, i)
    }
}

/// Overwrites the bytes from `at` on with `b`.
pub fn overwrite(data: &mut Vec<u8>, at: usize, b: &[u8])
    requires
        at + b@.len() <= old(data)@.len(),
    ensures
        final(data)@ == splice(old(data)@, at as int, b@),
{
    let mut i: usize = 0;
    let len: usize = data.len();
    assert(data@ =~= splice(old(data)@, at as int, b@.take(0)));
    while i < b.len()
        invariant
            i <= b@.len(),
            at + b@.len() <= len,
            len == old(data)@.len(),
            data@ == splice(old(data)@, at as int, b@.take(i as int)),
        decreases b@.len() - i,
    {
        let x: u8 = b[i];
        data.set(at + i, x);
        i = i + 1;
        assert(data@ =~= splice(old(data)@, at as int, b@.take(i as int)));
    }
    assert(b@.take(b@.len() as int) =~= b@);
}

/// How many bytes values of these types take, packed one after the other.
pub open spec fn types_size(types: Seq<FieldType>) -> int
    decreases types.len(),
{
    if types.len() == 0 {
        0
    } else {
        types_size(types.drop_last()) + types.last().spec_size()
    }
}

/// The type of each field; a field of unknown type is taken for a `U8`.
pub open spec fn types_of(fields: Seq<FieldDef>) -> Seq<FieldType> {
    fields.map_values(
        |f: FieldDef|
            match field_type_of(f.field_type) {
                Some(t) => t,
                None => FieldType::U8,
            },
    )
}

/// Where each value of these types starts, packed one after the other.
pub open spec fn offsets_of(types: Seq<FieldType>) -> Seq<int> {
    Seq::new(types.len(), |i: int| types_size(types.take(i)))
}

/// Types and places of the fields and properties of a storage.
#[verifier::ext_equal]
pub struct Layout {
    pub offsets: Seq<int>,
    pub types: Seq<FieldType>,
    pub prop_offsets: Seq<int>,
    pub prop_types: Seq<FieldType>,
    pub prop_size: int,
}

/// The layout that follows from the definition of a storage.
pub open spec fn layout_of(def: StorageDefView) -> Layout {
    let types = types_of(def.fields);
    let prop_types = types_of(def.properties);
    Layout {
        offsets: offsets_of(types),
        types,
        prop_offsets: offsets_of(prop_types),
        prop_types,
        prop_size: types_size(prop_types),
    }
}

/// Precomputed field offset table for a storage.
#[derive(Debug)]
pub struct FieldOffsets {
    /// Byte offset of each field within a slot.
    pub offsets: Vec<usize>,
    /// Type of each field.
    pub types: Vec<FieldType>,
    /// Byte offset of each property in the property data block.
    pub prop_offsets: Vec<usize>,
    /// Type of each property.
    pub prop_types: Vec<FieldType>,
    /// Total size of all properties in bytes.
    pub prop_size: usize,
}

impl View for FieldOffsets {
    type V = Layout;

    open spec fn view(&self) -> Layout {
        Layout {
            offsets: self.offsets@.map_values(|x: usize| x as int),
            types: self.types@,
            prop_offsets: self.prop_offsets@.map_values(|x: usize| x as int),
            prop_types: self.prop_types@,
            prop_size: self.prop_size as int,
        }
    }
}

/// The types of the fields and where each starts, and the total size.
fn pack(fields: &Vec<FieldDef>) -> (r: (Vec<usize>, Vec<FieldType>, usize))
    requires
        8 * fields@.len() <= usize::MAX,
    ensures
        r.1@ == types_of(fields@),
        r.0@.map_values(|x: usize| x as int) == offsets_of(types_of(fields@)),
        r.2 == types_size(types_of(fields@)),
{
    let mut offsets: Vec<usize> = Vec::new();
    let mut types: Vec<FieldType> = Vec::new();
    let mut offset: usize = 0;
    let mut i: usize = 0;
    let ghost all = types_of(fields@);
    assert(types@ =~= all.take(0));
    while i < fields.len()
        invariant
            i <= fields@.len(),
            8 * fields@.len() <= usize::MAX,
            all == types_of(fields@),
            types@ == all.take(i as int),
            offsets@.len() == i,
            forall|j: int| 0 <= j < i ==> offsets@[j] == types_size(all.take(j)),
            offset == types_size(all.take(i as int)),
            offset <= 8 * i,
        decreases fields@.len() - i,
    {
        offsets.push(offset);
        let t: FieldType = match FieldType::from_u8(fields[i].field_type) {
            Some(t) => t,
            None => FieldType::U8,
        };
        types.push(t);
        proof {
            let next = all.take(i + 1);
            assert(next.drop_last() =~= all.take(i as int));
            assert(next.last() == t);
            assert(types@ =~= next);
        }
        offset = offset + t.size();
        i = i + 1;
    }
    proof {
        assert(all.take(i as int) =~= all);
        assert(offsets@.map_values(|x: usize| x as int) =~= offsets_of(all));
    }
    (offsets, types, offset)
}

impl FieldOffsets {
    /// The table for a storage.
    pub fn from_storage_def(storage_def: &StorageDef) -> (o: FieldOffsets)
        requires
            8 * storage_def.fields@.len() <= usize::MAX,
            8 * storage_def.properties@.len() <= usize::MAX,
        ensures
            o@ == layout_of(storage_def@),
    {
        let (offsets, types, _size) = pack(&storage_def.fields);
        let (prop_offsets, prop_types, prop_size) = pack(&storage_def.properties);
        FieldOffsets { offsets, types, prop_offsets, prop_types, prop_size }
    }

    /// The type of a field.
    pub fn field_type(&self, field_index: u16) -> (t: FieldType)
        requires
            field_index < self@.types.len(),
        ensures
            t == self@.types[field_index as int],
    {
        self.types[field_index as usize]
    }

    /// Where a field starts within a slot.
    pub fn field_offset(&self, field_index: u16) -> (o: usize)
        requires
            field_index < self@.offsets.len(),
        ensures
            o == self@.offsets[field_index as int],
    {
        self.offsets[field_index as usize]
    }
}

impl Clone for FieldOffsets {
    fn clone(&self) -> (o: FieldOffsets)
        ensures
            o@ == self@,
    {
        FieldOffsets {
            offsets: copy_vec(&self.offsets),
            types: copy_vec(&self.types),
            prop_offsets: copy_vec(&self.prop_offsets),
            prop_types: copy_vec(&self.prop_types),
            prop_size: self.prop_size,
        }
    }
}

/// In-memory representation of a single storage's slot state.
#[derive(Debug)]
pub struct StorageState {
    pub storage_id: u16,
    pub num_slots: u16,
    pub is_sparse: bool,
    pub slot_size: usize,
    /// Per-slot validity (only meaningful for sparse storages).
    pub valid: Vec<bool>,
    /// Flat array: slot `i` is `data[i * slot_size .. (i + 1) * slot_size]`.
    pub data: Vec<u8>,
    /// Storage-level property values, tightly packed.
    pub property_data: Vec<u8>,
    /// Total size of property data in bytes.
    pub property_size: usize,
}

/// What a `StorageState` holds.
#[verifier::ext_equal]
pub struct StorageView {
    pub storage_id: u16,
    pub num_slots: u16,
    pub is_sparse: bool,
    pub slot_size: int,
    pub valid: Seq<bool>,
    pub data: Seq<u8>,
    pub property_data: Seq<u8>,
    pub property_size: int,
}

impl StorageView {
    /// The arrays have the sizes that the counts say.
    pub open spec fn wf(self) -> bool {
        &&& self.slot_size >= 0
        &&& self.valid.len() == self.num_slots
        &&& self.data.len() == self.num_slots * self.slot_size
        &&& self.property_data.len() == self.property_size
    }

    /// Whether a field of a slot lies inside the data. A slot that does not
    /// exist holds nothing, and touching it does nothing.
    pub open spec fn field_fits(self, slot: u16, l: Layout, field: u16) -> bool {
        slot < self.num_slots ==> {
            &&& field < l.types.len()
            &&& field < l.offsets.len()
            &&& 0 <= l.offsets[field as int]
            &&& slot * self.slot_size + l.offsets[field as int]
                + l.types[field as int].spec_size() <= self.data.len()
        }
    }

    /// Whether a property lies inside the property data. One that does not
    /// exist holds nothing, and touching it does nothing.
    pub open spec fn property_fits(self, l: Layout, prop: u16) -> bool {
        prop < l.prop_types.len() ==> {
            &&& prop < l.prop_offsets.len()
            &&& 0 <= l.prop_offsets[prop as int]
            &&& l.prop_offsets[prop as int] + l.prop_types[prop as int].spec_size()
                <= self.property_data.len()
        }
    }

    /// The state after a value of type `t` was stored `offset` bytes into a slot.
    pub open spec fn store(self, slot: u16, offset: int, t: FieldType, value: u64) -> StorageView {
        if slot < self.num_slots {
            StorageView {
                valid: self.valid.update(slot as int, true),
                data: splice(
                    self.data,
                    slot * self.slot_size + offset,
                    value_bytes(t, value),
                ),
                ..self
            }
        } else {
            self
        }
    }

    /// The value of type `t` that stands `offset` bytes into a slot: 0 where
    /// there is no such slot.
    pub open spec fn load(self, slot: u16, offset: int, t: FieldType) -> u64 {
        if slot < self.num_slots {
            value_at(self.data, slot * self.slot_size + offset, t)
        } else {
            0
        }
    }

    /// The state after a field was set.
    pub open spec fn set_field(self, slot: u16, l: Layout, field: u16, value: u64) -> StorageView {
        self.store(slot, l.offsets[field as int], l.types[field as int], value)
    }

    /// The value of a field.
    pub open spec fn field(self, slot: u16, l: Layout, field: u16) -> u64 {
        self.load(slot, l.offsets[field as int], l.types[field as int])
    }

    /// The state after `value` was added to a field, modulo 2^64.
    pub open spec fn add_field(self, slot: u16, l: Layout, field: u16, value: u64) -> StorageView {
        self.set_field(
            slot,
            l,
            field,
            ((self.field(slot, l, field) + value) % 0x1_0000_0000_0000_0000) as u64,
        )
    }

    /// The state after a slot was cleared: invalid, and all zeros.
    pub open spec fn clear(self, slot: u16) -> StorageView {
        if slot < self.num_slots {
            StorageView {
                valid: self.valid.update(slot as int, false),
                data: splice(self.data, slot * self.slot_size, zeros(self.slot_size)),
                ..self
            }
        } else {
            self
        }
    }

    /// The state after a property was set.
    pub open spec fn set_property(self, l: Layout, prop: u16, value: u64) -> StorageView {
        if prop < l.prop_types.len() {
            StorageView {
                property_data: splice(
                    self.property_data,
                    l.prop_offsets[prop as int],
                    value_bytes(l.prop_types[prop as int], value),
                ),
                ..self
            }
        } else {
            self
        }
    }

    /// The value of a property: 0 where there is no such property.
    pub open spec fn property(self, l: Layout, prop: u16) -> u64 {
        if prop < l.prop_types.len() {
            value_at(
                self.property_data,
                l.prop_offsets[prop as int],
                l.prop_types[prop as int],
            )
        } else {
            0
        }
    }

    /// Whether a slot exists and is valid.
    pub open spec fn slot_is_valid(self, slot: u16) -> bool {
        slot < self.valid.len() && self.valid[slot as int]
    }

    /// The bytes of slot `i`.
    pub open spec fn slot(self, i: int) -> Seq<u8> {
        self.data.subrange(i * self.slot_size, i * self.slot_size + self.slot_size)
    }

    /// Invalid slots are all zeros.
    pub open spec fn zero_invalid(self) -> bool {
        forall|i: int|
            0 <= i < self.num_slots && !self.valid[i] ==> #[trigger] self.slot(i) == zeros(
                self.slot_size,
            )
    }
}

/// The state of a storage before anything happened to it.
pub open spec fn initial_state(def: StorageDefView) -> StorageView {
    let slot_size = packed_size(def.fields) as int;
    let property_size = packed_size(def.properties) as int;
    StorageView {
        storage_id: def.storage_id,
        num_slots: def.num_slots,
        is_sparse: def.sparse(),
        slot_size,
        valid: Seq::new(def.num_slots as nat, |i: int| false),
        data: zeros(def.num_slots * slot_size),
        property_data: zeros(property_size),
        property_size,
    }
}

/// Whether the slots of a storage fit in memory.
pub open spec fn allocatable(def: StorageDefView) -> bool {
    &&& 8 * def.fields.len() <= usize::MAX
    &&& 8 * def.properties.len() <= usize::MAX
    &&& def.num_slots * packed_size(def.fields) <= usize::MAX
}

/// The slots of a storage lie inside its data, each beside the next.
pub proof fn lemma_slot_bounds(v: StorageView, i: int)
    requires
        v.wf(),
        0 <= i < v.num_slots,
    ensures
        0 <= i * v.slot_size,
        i * v.slot_size + v.slot_size <= v.data.len(),
        i * v.slot_size + v.slot_size == (i + 1) * v.slot_size,
{
    assert(0 <= i * v.slot_size && i * v.slot_size + v.slot_size == (i + 1) * v.slot_size && (i + 1)
        * v.slot_size <= v.num_slots * v.slot_size) by (nonlinear_arith)
        requires
            0 <= i,
            i + 1 <= v.num_slots,
            0 <= v.slot_size,
    ;
}

impl View for StorageState {
    type V = StorageView;

    open spec fn view(&self) -> StorageView {
        StorageView {
            storage_id: self.storage_id,
            num_slots: self.num_slots,
            is_sparse: self.is_sparse,
            slot_size: self.slot_size as int,
            valid: self.valid@,
            data: self.data@,
            property_data: self.property_data@,
            property_size: self.property_size as int,
        }
    }
}

impl Clone for StorageState {
    fn clone(&self) -> (s: StorageState)
        ensures
            s@ == self@,
    {
        StorageState {
            storage_id: self.storage_id,
            num_slots: self.num_slots,
            is_sparse: self.is_sparse,
            slot_size: self.slot_size,
            valid: copy_vec(&self.valid),
            data: copy_vec(&self.data),
            property_data: copy_vec(&self.property_data),
            property_size: self.property_size,
        }
    }
}

impl StorageState {
    /// The state of a storage before anything happened to it.
    pub fn new(storage_def: &StorageDef) -> (s: StorageState)
        requires
            allocatable(storage_def@),
        ensures
            s@ == initial_state(storage_def@),
            s@.wf(),
    {
        let slot_size: usize = storage_def.slot_size();
        let num_slots: usize = storage_def.num_slots as usize;
        let property_size: usize = storage_def.property_data_size();
        let mut valid: Vec<bool> = Vec::new();
        let mut i: usize = 0;
        while i < num_slots
            invariant
                i <= num_slots,
                valid@ == Seq::new(i as nat, |i: int| false),
            decreases num_slots - i,
        {
            valid.push(false);
            i = i + 1;
            assert(valid@ =~= Seq::new(i as nat, |i: int| false));
        }
        let mut data: Vec<u8> = Vec::new();
        assert(num_slots * slot_size >= 0) by (nonlinear_arith);
        put_zeros(&mut data, num_slots * slot_size);
        let mut property_data: Vec<u8> = Vec::new();
        put_zeros(&mut property_data, property_size);
        let s = StorageState {
            storage_id: storage_def.storage_id,
            num_slots: storage_def.num_slots,
            is_sparse: storage_def.is_sparse(),
            slot_size,
            valid,
            data,
            property_data,
            property_size,
        };
        assert(s@ =~= initial_state(storage_def@));
        s
    }

    /// Stores a value of type `t`, `offset` bytes into a slot.
    fn store_at(&mut self, slot: u16, offset: usize, t: FieldType, value: u64)
        requires
            old(self)@.wf(),
            slot < old(self)@.num_slots ==> slot * old(self)@.slot_size + offset + t.spec_size()
                <= old(self)@.data.len(),
        ensures
            final(self)@ == old(self)@.store(slot, offset as int, t, value),
            final(self)@.wf(),
    {
        if slot >= self.num_slots {
            return;
        }
        let mut b: Vec<u8> = Vec::new();
        put_value(&mut b, t, value);
        assert(b@ =~= value_bytes(t, value));
        proof {
            lemma_slot_bounds(self@, slot as int);
        }
        let len: usize = self.data.len();
        let base: usize = slot as usize * self.slot_size + offset;
        self.valid.set(slot as usize, true);
        overwrite(&mut self.data, base, b.as_slice());
        assert(self@ =~= old(self)@.store(slot, offset as int, t, value));
    }

    /// The value of type `t` that stands `offset` bytes into a slot.
    fn load_at(&self, slot: u16, offset: usize, t: FieldType) -> (v: u64)
        requires
            self@.wf(),
            slot < self@.num_slots ==> slot * self@.slot_size + offset + t.spec_size()
                <= self@.data.len(),
        ensures
            v == self@.load(slot, offset as int, t),
    {
        if slot >= self.num_slots {
            return 0;
        }
        proof {
            lemma_slot_bounds(self@, slot as int);
        }
        let len: usize = self.data.len();
        let base: usize = slot as usize * self.slot_size + offset;
        get_value(self.data.as_slice(), base, t)
    }

    /// Where a field lies in a slot whose layout is not known: at its start.
    fn field_offset(&self, field_index: u16, field_type: FieldType) -> (o: usize)
        ensures
            o == 0,
    {
        0
    }

    /// Set a value at the start of a slot. A slot that does not exist is left
    /// alone. The field index plays no part: without a table of offsets every
    /// field lies at the start of its slot.
    pub fn set_field(&mut self, slot: u16, field_index: u16, value: u64, field_type: FieldType)
        requires
            old(self)@.wf(),
            slot < old(self)@.num_slots ==> slot * old(self)@.slot_size + field_type.spec_size()
                <= old(self)@.data.len(),
        ensures
            final(self)@ == old(self)@.store(slot, 0, field_type, value),
            final(self)@.wf(),
    {
        let offset: usize = self.field_offset(field_index, field_type);
        self.store_at(slot, offset, field_type, value);
    }

    /// Add to the value at the start of a slot, modulo 2^64.
    pub fn add_field(&mut self, slot: u16, field_index: u16, value: u64, field_type: FieldType)
        requires
            old(self)@.wf(),
            slot < old(self)@.num_slots ==> slot * old(self)@.slot_size + field_type.spec_size()
                <= old(self)@.data.len(),
        ensures
            final(self)@ == old(self)@.store(
                slot,
                0,
                field_type,
                ((old(self)@.load(slot, 0, field_type) + value) % 0x1_0000_0000_0000_0000) as u64,
            ),
            final(self)@.wf(),
    {
        let current: u64 = self.get_field(slot, field_index, field_type);
        self.set_field(slot, field_index, current.wrapping_add(value), field_type);
    }

    /// Get the value at the start of a slot: 0 where there is no such slot.
    pub fn get_field(&self, slot: u16, field_index: u16, field_type: FieldType) -> (v: u64)
        requires
            self@.wf(),
            slot < self@.num_slots ==> slot * self@.slot_size + field_type.spec_size()
                <= self@.data.len(),
        ensures
            v == self@.load(slot, 0, field_type),
    {
        let offset: usize = self.field_offset(field_index, field_type);
        self.load_at(slot, offset, field_type)
    }

    /// Clear a slot (mark invalid). A slot that does not exist is left alone.
    pub fn clear_slot(&mut self, slot: u16)
        requires
            old(self)@.wf(),
        ensures
            final(self)@ == old(self)@.clear(slot),
            final(self)@.wf(),
    {
        if slot >= self.num_slots {
            return;
        }
        let mut b: Vec<u8> = Vec::new();
        put_zeros(&mut b, self.slot_size);
        assert(b@ =~= zeros(self.slot_size as int));
        proof {
            lemma_slot_bounds(self@, slot as int);
        }
        let len: usize = self.data.len();
        let base: usize = slot as usize * self.slot_size;
        self.valid.set(slot as usize, false);
        overwrite(&mut self.data, base, b.as_slice());
        assert(self@ =~= old(self)@.clear(slot));
    }

    /// Check if a slot is valid.
    pub fn slot_valid(&self, slot: u16) -> (b: bool)
        ensures
            b == self@.slot_is_valid(slot),
    {
        (slot as usize) < self.valid.len() && self.valid[slot as usize]
    }

    /// Set a field using precomputed offsets. A slot that does not exist is
    /// left alone.
    pub fn set_field_at(&mut self, slot: u16, offsets: &FieldOffsets, field_index: u16, value: u64)
        requires
            old(self)@.wf(),
            old(self)@.field_fits(slot, offsets@, field_index),
        ensures
            final(self)@ == old(self)@.set_field(slot, offsets@, field_index, value),
            final(self)@.wf(),
    {
        if slot >= self.num_slots {
            return;
        }
        let fi: usize = field_index as usize;
        self.store_at(slot, offsets.offsets[fi], offsets.types[fi], value);
    }

    /// Add a value using precomputed offsets, modulo 2^64.
    pub fn add_field_at(&mut self, slot: u16, offsets: &FieldOffsets, field_index: u16, value: u64)
        requires
            old(self)@.wf(),
            old(self)@.field_fits(slot, offsets@, field_index),
        ensures
            final(self)@ == old(self)@.add_field(slot, offsets@, field_index, value),
            final(self)@.wf(),
    {
        let current: u64 = self.get_field_at(slot, offsets, field_index);
        self.set_field_at(slot, offsets, field_index, current.wrapping_add(value));
    }

    /// Get a field value using precomputed offsets: 0 where there is no such slot.
    pub fn get_field_at(&self, slot: u16, offsets: &FieldOffsets, field_index: u16) -> (v: u64)
        requires
            self@.wf(),
            self@.field_fits(slot, offsets@, field_index),
        ensures
            v == self@.field(slot, offsets@, field_index),
    {
        if slot >= self.num_slots {
            return 0;
        }
        let fi: usize = field_index as usize;
        self.load_at(slot, offsets.offsets[fi], offsets.types[fi])
    }

    /// Set a storage-level property value. One that does not exist is left alone.
    pub fn set_property(&mut self, offsets: &FieldOffsets, prop_index: u16, value: u64)
        requires
            old(self)@.wf(),
            old(self)@.property_fits(offsets@, prop_index),
        ensures
            final(self)@ == old(self)@.set_property(offsets@, prop_index, value),
            final(self)@.wf(),
    {
        let pi: usize = prop_index as usize;
        if pi >= offsets.prop_types.len() {
            return;
        }
        let mut b: Vec<u8> = Vec::new();
        put_value(&mut b, offsets.prop_types[pi], value);
        assert(b@ =~= value_bytes(offsets@.prop_types[pi as int], value));
        overwrite(&mut self.property_data, offsets.prop_offsets[pi], b.as_slice());
        assert(self@ =~= old(self)@.set_property(offsets@, prop_index, value));
    }

    /// Get a storage-level property value: 0 where there is no such property.
    pub fn get_property(&self, offsets: &FieldOffsets, prop_index: u16) -> (v: u64)
        requires
            self@.wf(),
            self@.property_fits(offsets@, prop_index),
        ensures
            v == self@.property(offsets@, prop_index),
    {
        let pi: usize = prop_index as usize;
        if pi >= offsets.prop_types.len() {
            return 0;
        }
        get_value(
            self.property_data.as_slice(),
            offsets.prop_offsets[pi],
            offsets.prop_types[pi],
        )
    }
}

/// Bit `k` of a byte.
pub open spec fn bit_of(x: u8, k: int) -> bool {
    if k == 0 {
        x % 2 == 1
    } else if k == 1 {
        (x / 2) % 2 == 1
    } else if k == 2 {
        (x / 4) % 2 == 1
    } else if k == 3 {
        (x / 8) % 2 == 1
    } else if k == 4 {
        (x / 16) % 2 == 1
    } else if k == 5 {
        (x / 32) % 2 == 1
    } else if k == 6 {
        (x / 64) % 2 == 1
    } else {
        x / 128 == 1
    }
}

/// Bit `i` of a bit mask, bit 0 being the lowest of byte 0.
pub open spec fn mask_bit(mask: Seq<u8>, i: int) -> bool {
    bit_of(mask[i / 8], i % 8)
}

/// How many bytes a mask of `n` bits takes.
pub open spec fn mask_len(n: int) -> int {
    (n + 7) / 8
}

/// 1 where flag `i` is there and set, else 0.
pub open spec fn flag(flags: Seq<bool>, i: int) -> int {
    if 0 <= i < flags.len() && flags[i] {
        1
    } else {
        0
    }
}

/// Byte `j` of the mask of some flags: flag `8 * j + k` is its bit `k`.
pub open spec fn mask_byte(flags: Seq<bool>, j: int) -> u8 {
    (flag(flags, 8 * j) + 2 * flag(flags, 8 * j + 1) + 4 * flag(flags, 8 * j + 2) + 8 * flag(
        flags,
        8 * j + 3,
    ) + 16 * flag(flags, 8 * j + 4) + 32 * flag(flags, 8 * j + 5) + 64 * flag(flags, 8 * j + 6)
        + 128 * flag(flags, 8 * j + 7)) as u8
}

/// The mask of some flags.
pub open spec fn mask_of(flags: Seq<bool>) -> Seq<u8> {
    Seq::new(mask_len(flags.len() as int) as nat, |j: int| mask_byte(flags, j))
}

/// A mask holds the flags that it was made of.
pub proof fn law_mask_roundtrip(flags: Seq<bool>, i: int)
    requires
        0 <= i < flags.len(),
    ensures
        0 <= i / 8 < mask_of(flags).len(),
        mask_bit(mask_of(flags), i) == flags[i],
{
    let j = i / 8;
    let k = i % 8;
    assert(i == 8 * j + k);
    assert(mask_of(flags)[j] == mask_byte(flags, j));
}

fn flag_at(flags: &Vec<bool>, i: usize) -> (b: u8)
    ensures
        b == flag(flags@, i as int),
{
    if i < flags.len() && flags[i] {
        1
    } else {
        0
    }
}

fn test_bit(x: u8, k: usize) -> (b: bool)
    requires
        k < 8,
    ensures
        b == bit_of(x, k as int),
{
    if k == 0 {
        x % 2 == 1
    } else if k == 1 {
        (x / 2) % 2 == 1
    } else if k == 2 {
        (x / 4) % 2 == 1
    } else if k == 3 {
        (x / 8) % 2 == 1
    } else if k == 4 {
        (x / 16) % 2 == 1
    } else if k == 5 {
        (x / 32) % 2 == 1
    } else if k == 6 {
        (x / 64) % 2 == 1
    } else {
        x / 128 == 1
    }
}

/// Appends the mask of some flags.
fn put_mask(w: &mut Vec<u8>, flags: &Vec<bool>)
    requires
        flags@.len() <= u16::MAX,
    ensures
        final(w)@ == old(w)@ + mask_of(flags@),
{
    let n: usize = (flags.len() + 7) / 8;
    let mut j: usize = 0;
    assert(w@ =~= old(w)@ + mask_of(flags@).take(0));
    while j < n
        invariant
            j <= n,
            flags@.len() <= u16::MAX,
            n == mask_of(flags@).len(),
            w@ == old(w)@ + mask_of(flags@).take(j as int),
        decreases n - j,
    {
        let b: u8 = flag_at(flags, 8 * j) + 2 * flag_at(flags, 8 * j + 1) + 4 * flag_at(
            flags,
            8 * j + 2,
        ) + 8 * flag_at(flags, 8 * j + 3) + 16 * flag_at(flags, 8 * j + 4) + 32 * flag_at(
            flags,
            8 * j + 5,
        ) + 64 * flag_at(flags, 8 * j + 6) + 128 * flag_at(flags, 8 * j + 7);
        w.push(b);
        j = j + 1;
        assert(w@ =~= old(w)@ + mask_of(flags@).take(j as int));
    }
    assert(mask_of(flags@).take(n as int) =~= mask_of(flags@));
}

impl StorageView {
    /// The bytes of those of the first `n` slots that are valid.
    pub open spec fn kept_slots(self, n: int) -> Seq<u8>
        decreases n,
    {
        if n <= 0 {
            Seq::empty()
        } else if self.valid[n - 1] {
            self.kept_slots(n - 1) + self.slot(n - 1)
        } else {
            self.kept_slots(n - 1)
        }
    }

    /// The slots as a checkpoint holds them: a sparse storage as the mask of
    /// its valid slots and their bytes, a dense one as all its bytes.
    pub open spec fn slot_payload(self) -> Seq<u8> {
        if self.is_sparse {
            mask_of(self.valid) + self.kept_slots(self.num_slots as int)
        } else {
            self.data
        }
    }

    /// What a checkpoint holds of the storage: its slots, then its properties.
    pub open spec fn payload(self) -> Seq<u8> {
        self.slot_payload() + self.property_data
    }

    /// The checkpoint of the storage.
    pub open spec fn checkpoint(self) -> Seq<u8> {
        CheckpointBlock::encode(
            CheckpointBlock {
                storage_id: self.storage_id,
                reserved: 0,
                size: self.payload().len() as u32,
            },
        ) + self.payload()
    }
}

/// The first `n` slots of a sparse storage as its checkpoint `s` has them,
/// and where the bytes of the next valid slot start. A slot that the mask
/// leaves out is all zeros.
pub open spec fn restored_slots(s: Seq<u8>, num_slots: int, slot_size: int, n: int) -> Result<
    (Seq<u8>, int),
    TraceError,
>
    decreases n,
{
    if n <= 0 {
        Ok((Seq::empty(), mask_len(num_slots)))
    } else {
        match restored_slots(s, num_slots, slot_size, n - 1) {
            Err(e) => Err(e),
            Ok((data, pos)) => if !mask_bit(s, n - 1) {
                Ok((data + zeros(slot_size), pos))
            } else if s.len() - pos < slot_size {
                Err(TraceError::CheckpointTruncated)
            } else {
                Ok((data + s.subrange(pos, pos + slot_size), pos + slot_size))
            },
        }
    }
}

/// The property data of a checkpoint whose slots end at `pos`: what was there
/// before, where the checkpoint is too short to hold any.
pub open spec fn restored_properties(before: Seq<u8>, s: Seq<u8>, pos: int, size: int) -> Seq<u8> {
    if s.len() - pos >= size {
        s.subrange(pos, pos + size)
    } else {
        before
    }
}

/// The state of a storage of the shape of `v` after the checkpoint payload
/// `s` was read into it.
pub open spec fn restored(v: StorageView, s: Seq<u8>) -> Result<StorageView, TraceError> {
    let n = v.num_slots as int;
    if v.is_sparse {
        if s.len() < mask_len(n) {
            Err(TraceError::CheckpointMaskTooSmall)
        } else {
            match restored_slots(s, n, v.slot_size, n) {
                Err(e) => Err(e),
                Ok((data, pos)) => Ok(
                    StorageView {
                        valid: Seq::new(n as nat, |i: int| mask_bit(s, i)),
                        data,
                        property_data: restored_properties(
                            v.property_data,
                            s,
                            pos,
                            v.property_size,
                        ),
                        ..v
                    },
                ),
            }
        }
    } else {
        let pos = n * v.slot_size;
        if s.len() < pos {
            Err(TraceError::CheckpointTooSmall)
        } else {
            Ok(
                StorageView {
                    valid: Seq::new(n as nat, |i: int| true),
                    data: s.subrange(0, pos),
                    property_data: restored_properties(v.property_data, s, pos, v.property_size),
                    ..v
                },
            )
        }
    }
}

proof fn lemma_restored_slots_err(s: Seq<u8>, num_slots: int, slot_size: int, i: int, n: int)
    requires
        0 <= i <= n,
        restored_slots(s, num_slots, slot_size, i) is Err,
    ensures
        restored_slots(s, num_slots, slot_size, n) == restored_slots(s, num_slots, slot_size, i),
    decreases n,
{
    if i < n {
        lemma_restored_slots_err(s, num_slots, slot_size, i, n - 1);
    }
}

impl StorageState {
    /// Serialize this storage's checkpoint. The field types play no part.
    pub fn write_checkpoint(&self, w: &mut Vec<u8>, field_types: &[FieldType])
        requires
            self@.wf(),
        ensures
            final(w)@ == old(w)@ + self@.checkpoint(),
    {
        let mut payload: Vec<u8> = Vec::new();
        if self.is_sparse {
            put_mask(&mut payload, &self.valid);
            let mut i: usize = 0;
            assert(payload@ =~= mask_of(self@.valid) + self@.kept_slots(0));
            while i < self.num_slots as usize
                invariant
                    i <= self.num_slots,
                    self@.wf(),
                    payload@ == mask_of(self@.valid) + self@.kept_slots(i as int),
                decreases self.num_slots - i,
            {
                if self.valid[i] {
                    proof {
                        lemma_slot_bounds(self@, i as int);
                    }
                    let len: usize = self.data.len();
                    let base: usize = i * self.slot_size;
                    put_slice(
                        &mut payload,
                        vstd::slice::slice_subrange(
                            self.data.as_slice(),
                            base,
                            base + self.slot_size,
                        ),
                    );
                }
                i = i + 1;
                assert(payload@ =~= mask_of(self@.valid) + self@.kept_slots(i as int));
            }
        } else {
            put_slice(&mut payload, self.data.as_slice());
            assert(payload@ =~= self@.data);
        }
        put_slice(&mut payload, self.property_data.as_slice());
        let block = CheckpointBlock {
            storage_id: self.storage_id,
            reserved: 0,
            size: payload.len() as u32,
        };
        block.write_to(w);
        put_slice(w, payload.as_slice());
        assert(w@ =~= old(w)@ + self@.checkpoint());
    }

    /// Deserialize this storage's checkpoint, whose payload has `size` bytes.
    /// Where that fails, the state is unchanged.
    pub fn read_checkpoint(&mut self, r: &mut ByteReader<'_>, size: u32) -> (res: Result<
        (),
        TraceError,
    >)
        requires
            old(self)@.wf(),
        ensures
            final(self)@.wf(),
            if old(r)@.len() < size {
                res == Err::<(), TraceError>(TraceError::UnexpectedEof) && final(self)@ == old(self)@
            } else {
                match restored(old(self)@, old(r)@.subrange(0, size as int)) {
                    Ok(v) => res == Ok::<(), TraceError>(()) && final(self)@ == v && final(r)@
                        == suffix(old(r)@, size as int),
                    Err(e) => res == Err::<(), TraceError>(e) && final(self)@ == old(self)@,
                }
            },
    {
        let data = match r.take(size as usize) {
            Err(e) => return Err(e),
            Ok(b) => b,
        };
        let ghost s = data@;
        let num_slots: usize = self.num_slots as usize;
        let slot_size: usize = self.slot_size;
        let mut valid: Vec<bool> = Vec::new();
        let mut slots: Vec<u8> = Vec::new();
        let mut pos: usize = 0;
        if self.is_sparse {
            let mask_bytes: usize = (num_slots + 7) / 8;
            if data.len() < mask_bytes {
                return Err(TraceError::CheckpointMaskTooSmall);
            }
            pos = mask_bytes;
            let mut i: usize = 0;
            assert(slots@ =~= Seq::<u8>::empty());
            assert(valid@ =~= Seq::new(0, |i: int| mask_bit(s, i)));
            while i < num_slots
                invariant
                    i <= num_slots,
                    num_slots == self.num_slots,
                    self@ == old(self)@,
                    self@.wf(),
                    self.is_sparse,
                    s == data@,
                    s == old(r)@.subrange(0, size as int),
                    size <= old(r)@.len(),
                    slot_size == self.slot_size,
                    mask_len(num_slots as int) <= s.len(),
                    pos <= s.len(),
                    valid@ == Seq::new(i as nat, |i: int| mask_bit(s, i)),
                    slots@.len() == i * slot_size,
                    restored_slots(s, num_slots as int, slot_size as int, i as int) == Ok::<
                        (Seq<u8>, int),
                        TraceError,
                    >((slots@, pos as int)),
                decreases num_slots - i,
            {
                let is_valid: bool = test_bit(data[i / 8], i % 8);
                valid.push(is_valid);
                assert(valid@ =~= Seq::new((i + 1) as nat, |i: int| mask_bit(s, i)));
                assert((i + 1) * slot_size == i * slot_size + slot_size) by (nonlinear_arith);
                if is_valid {
                    if data.len() - pos < slot_size {
                        proof {
                            lemma_restored_slots_err(
                                s,
                                num_slots as int,
                                slot_size as int,
                                i + 1,
                                num_slots as int,
                            );
                        }
                        return Err(TraceError::CheckpointTruncated);
                    }
                    put_slice(
                        &mut slots,
                        vstd::slice::slice_subrange(data, pos, pos + slot_size),
                    );
                    pos = pos + slot_size;
                } else {
                    put_zeros(&mut slots, slot_size);
                }
                i = i + 1;
            }
        } else {
            let expected: usize = self.data.len();
            if data.len() < expected {
                return Err(TraceError::CheckpointTooSmall);
            }
            put_slice(&mut slots, vstd::slice::slice_subrange(data, 0, expected));
            assert(slots@ =~= s.subrange(0, expected as int));
            let mut i: usize = 0;
            while i < num_slots
                invariant
                    i <= num_slots,
                    valid@ == Seq::new(i as nat, |i: int| true),
                decreases num_slots - i,
            {
                valid.push(true);
                i = i + 1;
                assert(valid@ =~= Seq::new(i as nat, |i: int| true));
            }
            pos = expected;
        }
        if data.len() - pos >= self.property_size {
            let mut properties: Vec<u8> = Vec::new();
            put_slice(
                &mut properties,
                vstd::slice::slice_subrange(data, pos, pos + self.property_size),
            );
            assert(properties@ =~= s.subrange(pos as int, pos + self.property_size));
            self.property_data = properties;
        }
        self.valid = valid;
        self.data = slots;
        assert(self@ =~= restored(old(self)@, s)->Ok_0);
        Ok(())
    }
}

/// Two storages of the same kind.
pub open spec fn same_shape(a: StorageView, b: StorageView) -> bool {
    &&& a.storage_id == b.storage_id
    &&& a.num_slots == b.num_slots
    &&& a.is_sparse == b.is_sparse
    &&& a.slot_size == b.slot_size
    &&& a.property_size == b.property_size
}

/// What a checkpoint keeps of a state: all of it, but that every slot of a
/// dense storage counts as valid.
pub open spec fn as_restored(v: StorageView) -> StorageView {
    if v.is_sparse {
        v
    } else {
        StorageView { valid: Seq::new(v.num_slots as nat, |i: int| true), ..v }
    }
}

proof fn lemma_restored_slots(v: StorageView, n: int)
    requires
        v.wf(),
        v.zero_invalid(),
        v.is_sparse,
        0 <= n <= v.num_slots,
    ensures
        mask_len(v.num_slots as int) + v.kept_slots(n).len() <= v.slot_payload().len(),
        v.slot_payload().subrange(
            0,
            mask_len(v.num_slots as int) + v.kept_slots(n).len(),
        ) == mask_of(v.valid) + v.kept_slots(n),
        restored_slots(v.payload(), v.num_slots as int, v.slot_size, n) == Ok::<
            (Seq<u8>, int),
            TraceError,
        >((v.data.subrange(0, n * v.slot_size), mask_len(v.num_slots as int) + v.kept_slots(n).len())),
    decreases n,
{
    lemma_kept_slots_prefix(v, n, v.num_slots as int);
    let m = mask_len(v.num_slots as int);
    assert(v.slot_payload().subrange(0, m + v.kept_slots(n).len()) =~= mask_of(v.valid)
        + v.kept_slots(n));
    if n > 0 {
        lemma_restored_slots(v, n - 1);
        lemma_slot_bounds(v, n - 1);
        let s = v.payload();
        let i = n - 1;
        law_mask_roundtrip(v.valid, i);
        assert(s[i / 8] == mask_of(v.valid)[i / 8]);
        assert(mask_bit(s, i) == v.valid[i]);
        let before = v.data.subrange(0, i * v.slot_size);
        assert(before + v.slot(i) =~= v.data.subrange(0, n * v.slot_size));
        if v.valid[i] {
            let pos = m + v.kept_slots(i).len();
            assert(s.subrange(pos, pos + v.slot_size) =~= v.slot_payload().subrange(
                0,
                m + v.kept_slots(n).len(),
            ).subrange(pos, pos + v.slot_size));
            assert((mask_of(v.valid) + v.kept_slots(n)).subrange(pos, pos + v.slot_size)
                =~= v.slot(i));
        } else {
            assert(v.slot(i) == zeros(v.slot_size));
        }
    } else {
        assert(v.data.subrange(0, 0 * v.slot_size) =~= Seq::<u8>::empty());
    }
}

proof fn lemma_kept_slots_prefix(v: StorageView, n: int, k: int)
    requires
        0 <= n <= k,
    ensures
        v.kept_slots(n).len() <= v.kept_slots(k).len(),
        v.kept_slots(k).subrange(0, v.kept_slots(n).len() as int) == v.kept_slots(n),
    decreases k,
{
    if n < k {
        lemma_kept_slots_prefix(v, n, k - 1);
        assert(v.kept_slots(k).subrange(0, v.kept_slots(n).len() as int) =~= v.kept_slots(
            k - 1,
        ).subrange(0, v.kept_slots(n).len() as int));
    } else {
        assert(v.kept_slots(k).subrange(0, v.kept_slots(n).len() as int) =~= v.kept_slots(n));
    }
}

/// Reading the payload of a checkpoint gives back the state that it was
/// written from, whatever state of the same shape it is read into.
pub proof fn law_checkpoint_roundtrip(v: StorageView, into: StorageView)
    requires
        v.wf(),
        v.zero_invalid(),
        same_shape(v, into),
    ensures
        restored(into, v.payload()) == Ok::<StorageView, TraceError>(as_restored(v)),
{
    let s = v.payload();
    let n = v.num_slots as int;
    let slots = v.slot_payload();
    assert(s.subrange(slots.len() as int, slots.len() + v.property_size) =~= v.property_data);
    if v.is_sparse {
        lemma_restored_slots(v, n);
        assert(v.data.subrange(0, n * v.slot_size) =~= v.data);
        assert(slots.len() == mask_len(n) + v.kept_slots(n).len());
        assert forall|i: int| 0 <= i < n implies mask_bit(s, i) == v.valid[i] by {
            law_mask_roundtrip(v.valid, i);
            assert(s[i / 8] == mask_of(v.valid)[i / 8]);
        }
        assert(Seq::new(n as nat, |i: int| mask_bit(s, i)) =~= v.valid);
    } else {
        assert(s.subrange(0, n * v.slot_size) =~= v.data);
    }
}

} // verus!
