//! Laws of storage state: what one operation leaves for another to see.

use vstd::prelude::*;
use crate::checkpoint::{
    as_restored, initial_state, law_value_frame, law_value_roundtrip, layout_of, lemma_slot_bounds,
    offsets_of, same_shape, truncated, types_of, types_size, value_bytes, Layout, StorageView,
};
use crate::state::{
    after_item, after_items, all_wf, applied, item_fits, items_fit, lemma_after_items_shape,
    lemma_fits_shape, op_fits, TimedItemView, TimedOp,
};
use crate::types::{
    field_type_of, packed_size, zeros, FieldDef, FieldType, StorageDefView, DA_SLOT_ADD,
    DA_SLOT_CLEAR, DA_SLOT_SET,
};

verus! {

broadcast use crate::bytes::group_le_len;

/// Whether the type of every field is known.
pub open spec fn known_types(fields: Seq<FieldDef>) -> bool {
    forall|i: int|
        0 <= i < fields.len() ==> field_type_of((#[trigger] fields[i]).field_type) is Some
}

/// Whether the types of all fields and properties of a storage are known.
pub open spec fn regular(def: StorageDefView) -> bool {
    known_types(def.fields) && known_types(def.properties)
}

/// Whether a layout places each field inside a slot of `size` bytes, beside
/// the others.
pub open spec fn fields_apart(l: Layout, size: int) -> bool {
    &&& l.offsets.len() == l.types.len()
    &&& forall|f: int|
        0 <= f < l.types.len() ==> 0 <= #[trigger] l.offsets[f] && l.offsets[f]
            + l.types[f].spec_size() <= size
    &&& forall|f: int, g: int|
        0 <= f < g < l.types.len() ==> #[trigger] l.offsets[f] + l.types[f].spec_size()
            <= #[trigger] l.offsets[g]
}

proof fn lemma_types_size_mono(types: Seq<FieldType>, i: int, j: int)
    requires
        0 <= i <= j <= types.len(),
    ensures
        0 <= types_size(types.take(i)) <= types_size(types.take(j)),
        i < j ==> types_size(types.take(i)) + types[i].spec_size() <= types_size(types.take(j)),
    decreases j,
{
    if j > 0 {
        assert(types.take(j).drop_last() =~= types.take(j - 1));
        if i < j {
            lemma_types_size_mono(types, i, j - 1);
        } else {
            lemma_types_size_mono(types, i - 1, i - 1);
        }
    }
}

proof fn lemma_packed_types(fields: Seq<FieldDef>)
    requires
        known_types(fields),
    ensures
        packed_size(fields) == types_size(types_of(fields)),
    decreases fields.len(),
{
    if fields.len() > 0 {
        let init = fields.drop_last();
        assert(known_types(init)) by {
            assert forall|i: int| 0 <= i < init.len() implies field_type_of(
                (#[trigger] init[i]).field_type,
            ) is Some by {
                assert(init[i] == fields[i]);
            }
        }
        lemma_packed_types(init);
        assert(types_of(fields).drop_last() =~= types_of(init));
        assert(field_type_of(fields[fields.len() - 1].field_type) is Some);
    }
}

/// The layout of a storage places each field inside the slot, beside the others.
pub proof fn law_layout_apart(def: StorageDefView)
    requires
        regular(def),
    ensures
        fields_apart(layout_of(def), packed_size(def.fields) as int),
{
    let types = types_of(def.fields);
    lemma_packed_types(def.fields);
    assert(types.take(types.len() as int) =~= types);
    assert forall|f: int| 0 <= f < types.len() implies 0 <= #[trigger] offsets_of(types)[f]
        && offsets_of(types)[f] + types[f].spec_size() <= packed_size(def.fields) by {
        lemma_types_size_mono(types, f, types.len() as int);
    }
    assert forall|f: int, g: int| 0 <= f < g < types.len() implies #[trigger] offsets_of(types)[f]
        + types[f].spec_size() <= #[trigger] offsets_of(types)[g] by {
        lemma_types_size_mono(types, f, g);
    }
}

/// A field of a slot lies inside the data.
pub proof fn lemma_field_inside(v: StorageView, l: Layout, slot: u16, field: u16)
    requires
        v.wf(),
        fields_apart(l, v.slot_size),
        slot < v.num_slots,
        field < l.types.len(),
    ensures
        v.field_fits(slot, l, field),
{
    lemma_slot_bounds(v, slot as int);
    assert(0 <= l.offsets[field as int]);
}

/// A field that was set holds the value, cut to the size of its type, and its
/// slot is valid.
pub proof fn law_set_get(v: StorageView, l: Layout, slot: u16, field: u16, value: u64)
    requires
        v.wf(),
        v.field_fits(slot, l, field),
        slot < v.num_slots,
    ensures
        v.set_field(slot, l, field, value).field(slot, l, field) == truncated(
            l.types[field as int],
            value,
        ),
        v.set_field(slot, l, field, value).slot_is_valid(slot),
{
    lemma_slot_bounds(v, slot as int);
    law_value_roundtrip(
        v.data,
        slot * v.slot_size + l.offsets[field as int],
        l.types[field as int],
        value,
    );
}

/// Setting a field leaves every other field alone, of the same slot and of
/// any other.
pub proof fn law_set_frame(
    v: StorageView,
    l: Layout,
    slot: u16,
    field: u16,
    value: u64,
    other_slot: u16,
    other: u16,
)
    requires
        v.wf(),
        fields_apart(l, v.slot_size),
        field < l.types.len(),
        other < l.types.len(),
        slot != other_slot || field != other,
    ensures
        v.set_field(slot, l, field, value).field(other_slot, l, other) == v.field(
            other_slot,
            l,
            other,
        ),
        slot != other_slot ==> v.set_field(slot, l, field, value).slot_is_valid(other_slot)
            == v.slot_is_valid(other_slot),
{
    if slot < v.num_slots && other_slot < v.num_slots {
        lemma_slot_bounds(v, slot as int);
        lemma_slot_bounds(v, other_slot as int);
        let f = field as int;
        let g = other as int;
        let a = other_slot * v.slot_size + l.offsets[g];
        let b = slot * v.slot_size + l.offsets[f];
        assert(0 <= l.offsets[f] && l.offsets[f] + l.types[f].spec_size() <= v.slot_size);
        assert(0 <= l.offsets[g] && l.offsets[g] + l.types[g].spec_size() <= v.slot_size);
        if slot < other_slot {
            assert((slot + 1) * v.slot_size <= other_slot * v.slot_size) by (nonlinear_arith)
                requires
                    slot + 1 <= other_slot,
                    v.slot_size >= 0,
            ;
        } else if other_slot < slot {
            assert((other_slot + 1) * v.slot_size <= slot * v.slot_size) by (nonlinear_arith)
                requires
                    other_slot + 1 <= slot,
                    v.slot_size >= 0,
            ;
        } else if f < g {
            assert(l.offsets[f] + l.types[f].spec_size() <= l.offsets[g]);
        } else {
            assert(l.offsets[g] + l.types[g].spec_size() <= l.offsets[f]);
        }
        law_value_frame(v.data, a, l.types[g], b, value_bytes(l.types[f], value));
    }
}

/// Adding to a field gives the sum, modulo 2^64 and cut to the size of its type.
pub proof fn law_add_get(v: StorageView, l: Layout, slot: u16, field: u16, value: u64)
    requires
        v.wf(),
        v.field_fits(slot, l, field),
        slot < v.num_slots,
    ensures
        v.add_field(slot, l, field, value).field(slot, l, field) == truncated(
            l.types[field as int],
            ((v.field(slot, l, field) + value) % 0x1_0000_0000_0000_0000) as u64,
        ),
{
    law_set_get(
        v,
        l,
        slot,
        field,
        ((v.field(slot, l, field) + value) % 0x1_0000_0000_0000_0000) as u64,
    );
}

/// A cleared slot is invalid and all its fields are 0.
pub proof fn law_clear_get(v: StorageView, l: Layout, slot: u16, field: u16)
    requires
        v.wf(),
        fields_apart(l, v.slot_size),
        field < l.types.len(),
    ensures
        !v.clear(slot).slot_is_valid(slot),
        v.clear(slot).field(slot, l, field) == 0,
{
    reveal(crate::bytes::u16_at);
    reveal(crate::bytes::u32_at);
    reveal(crate::bytes::u64_at);
    if slot < v.num_slots {
        lemma_slot_bounds(v, slot as int);
        let f = field as int;
        let a = slot * v.slot_size + l.offsets[f];
        let t = l.types[f];
        let r = v.clear(slot).data;
        assert(0 <= l.offsets[f] && l.offsets[f] + t.spec_size() <= v.slot_size);
        assert forall|k: int| a <= k < a + t.spec_size() implies r[k] == 0 by {}
    }
}

/// A property that was set holds the value, cut to the size of its type.
pub proof fn law_property_get(v: StorageView, l: Layout, prop: u16, value: u64)
    requires
        v.wf(),
        v.property_fits(l, prop),
        prop < l.prop_types.len(),
    ensures
        v.set_property(l, prop, value).property(l, prop) == truncated(
            l.prop_types[prop as int],
            value,
        ),
{
    law_value_roundtrip(
        v.property_data,
        l.prop_offsets[prop as int],
        l.prop_types[prop as int],
        value,
    );
}

/// Setting a property leaves the slots alone, and setting a field or clearing
/// a slot leaves the properties alone.
pub proof fn law_property_frame(
    v: StorageView,
    l: Layout,
    prop: u16,
    slot: u16,
    field: u16,
    value: u64,
)
    ensures
        v.set_property(l, prop, value).field(slot, l, field) == v.field(slot, l, field),
        v.set_property(l, prop, value).slot_is_valid(slot) == v.slot_is_valid(slot),
        v.set_field(slot, l, field, value).property(l, prop) == v.property(l, prop),
        v.clear(slot).property(l, prop) == v.property(l, prop),
{
}

/// An operation keeps invalid slots all zeros.
pub proof fn law_applied_zero_invalid(v: StorageView, l: Layout, op: TimedOp)
    requires
        v.wf(),
        v.zero_invalid(),
        fields_apart(l, v.slot_size),
        op_fits(v, l, op),
    ensures
        applied(v, l, op).zero_invalid(),
{
    let r = applied(v, l, op);
    if op.slot < v.num_slots && (op.action == DA_SLOT_SET || op.action == DA_SLOT_ADD || op.action
        == DA_SLOT_CLEAR) {
        let s = op.slot as int;
        let f = op.field_index as int;
        lemma_slot_bounds(v, s);
        if op.action != DA_SLOT_CLEAR {
            assert(0 <= l.offsets[f] && l.offsets[f] + l.types[f].spec_size() <= v.slot_size);
        }
        assert forall|i: int| 0 <= i < r.num_slots && !r.valid[i] implies #[trigger] r.slot(i)
            == zeros(r.slot_size) by {
            lemma_slot_bounds(v, i);
            if i == s {
                assert(r.slot(i) =~= zeros(r.slot_size));
            } else {
                if i < s {
                    assert((i + 1) * v.slot_size <= s * v.slot_size) by (nonlinear_arith)
                        requires
                            i + 1 <= s,
                            v.slot_size >= 0,
                    ;
                } else {
                    assert((s + 1) * v.slot_size <= i * v.slot_size) by (nonlinear_arith)
                        requires
                            s + 1 <= i,
                            v.slot_size >= 0,
                    ;
                }
                assert(r.slot(i) =~= v.slot(i));
                assert(v.slot(i) == zeros(v.slot_size));
            }
        }
    } else {
        assert forall|i: int| 0 <= i < r.num_slots && !r.valid[i] implies #[trigger] r.slot(i)
            == zeros(r.slot_size) by {
            assert(r.slot(i) == v.slot(i));
        }
    }
}

/// Before anything happened, invalid slots are all zeros.
pub proof fn law_initial_zero_invalid(def: StorageDefView)
    ensures
        initial_state(def).wf(),
        initial_state(def).zero_invalid(),
{
    let v = initial_state(def);
    assert(v.num_slots * v.slot_size >= 0) by (nonlinear_arith)
        requires
            v.slot_size >= 0,
    ;
    assert forall|i: int| 0 <= i < v.num_slots && !v.valid[i] implies #[trigger] v.slot(i) == zeros(
        v.slot_size,
    ) by {
        lemma_slot_bounds(v, i);
        assert(v.slot(i) =~= zeros(v.slot_size));
    }
}

/// Two states that differ at most in which slots of a dense storage count as
/// valid.
pub open spec fn agree(a: StorageView, b: StorageView) -> bool {
    &&& same_shape(a, b)
    &&& a.data == b.data
    &&& a.property_data == b.property_data
    &&& a.valid.len() == b.valid.len()
    &&& a.is_sparse ==> a.valid == b.valid
}

/// The same of whole lists of storages.
pub open spec fn all_agree(a: Seq<StorageView>, b: Seq<StorageView>) -> bool {
    &&& a.len() == b.len()
    &&& forall|i: int| #![trigger a[i]] #![trigger b[i]] 0 <= i < a.len() ==> agree(a[i], b[i])
}

/// States that agree still agree after the same operation.
pub proof fn law_applied_agree(a: StorageView, b: StorageView, l: Layout, op: TimedOp)
    requires
        a.wf(),
        agree(a, b),
    ensures
        agree(applied(a, l, op), applied(b, l, op)),
{
}

/// States that agree still agree after the same items.
pub proof fn law_after_items_agree(
    a: Seq<StorageView>,
    b: Seq<StorageView>,
    ls: Seq<Layout>,
    items: Seq<TimedItemView>,
)
    requires
        all_wf(a),
        items_fit(a, ls, items),
        all_agree(a, b),
    ensures
        all_agree(after_items(a, ls, items), after_items(b, ls, items)),
    decreases items.len(),
{
    if items.len() > 0 {
        let init = items.drop_last();
        assert(items_fit(a, ls, init)) by {
            assert forall|i: int| 0 <= i < init.len() implies item_fits(
                a,
                ls,
                #[trigger] init[i],
            ) by {
                assert(init[i] == items[i]);
            }
        }
        lemma_after_items_shape(a, ls, init);
        let x = after_items(a, ls, items.drop_last());
        let y = after_items(b, ls, items.drop_last());
        law_after_items_agree(a, b, ls, items.drop_last());
        match items.last() {
            TimedItemView::Op(op) => if op.storage_id < x.len() {
                let i = op.storage_id as int;
                assert(agree(x[i], y[i]));
                assert(x[i].wf());
                law_applied_agree(x[i], y[i], ls[i], op);
            },
            TimedItemView::Event(_) => {},
        }
    }
}

/// A state agrees with what its checkpoint restores.
pub proof fn law_restored_agree(v: StorageView)
    requires
        v.wf(),
    ensures
        agree(v, as_restored(v)),
{
}

/// Whether each layout places each field inside its slot, beside the others.
pub open spec fn all_apart(st: Seq<StorageView>, ls: Seq<Layout>) -> bool {
    forall|i: int| 0 <= i < st.len() ==> fields_apart(ls[i], (#[trigger] st[i]).slot_size)
}

/// Whether invalid slots of all storages are all zeros.
pub open spec fn all_zero_invalid(st: Seq<StorageView>) -> bool {
    forall|i: int| 0 <= i < st.len() ==> (#[trigger] st[i]).zero_invalid()
}

/// Items keep invalid slots all zeros.
pub proof fn law_after_items_zero_invalid(
    st: Seq<StorageView>,
    ls: Seq<Layout>,
    items: Seq<TimedItemView>,
)
    requires
        all_wf(st),
        all_zero_invalid(st),
        all_apart(st, ls),
        items_fit(st, ls, items),
    ensures
        all_zero_invalid(after_items(st, ls, items)),
    decreases items.len(),
{
    if items.len() > 0 {
        let init = items.drop_last();
        assert(items_fit(st, ls, init)) by {
            assert forall|i: int| 0 <= i < init.len() implies item_fits(
                st,
                ls,
                #[trigger] init[i],
            ) by {
                assert(init[i] == items[i]);
            }
        }
        law_after_items_zero_invalid(st, ls, init);
        lemma_after_items_shape(st, ls, init);
        let now = after_items(st, ls, init);
        assert(item_fits(st, ls, items[items.len() - 1]));
        lemma_fits_shape(st, now, ls, items.last());
        match items.last() {
            TimedItemView::Op(op) => if op.storage_id < now.len() {
                let i = op.storage_id as int;
                assert(now[i].zero_invalid());
                assert(now[i].wf());
                assert(fields_apart(ls[i], st[i].slot_size));
                assert(st[i].slot_size == now[i].slot_size);
                law_applied_zero_invalid(now[i], ls[i], op);
            },
            TimedItemView::Event(_) => {},
        }
    }
}

// ---------------------------------------------------------------------------
// What operations do, by their actions.

/// What is left of a number in as many bits as a type has.
pub open spec fn cut(t: FieldType, v: int) -> int {
    match t {
        FieldType::U8 | FieldType::I8 | FieldType::Bool | FieldType::Enum => v % 0x100,
        FieldType::U16 | FieldType::I16 => v % 0x1_0000,
        FieldType::U32 | FieldType::I32 | FieldType::StringRef => v % 0x1_0000_0000,
        FieldType::U64 | FieldType::I64 => v % 0x1_0000_0000_0000_0000,
    }
}

/// A value keeps as many of its low bits as its type has.
pub proof fn law_truncated(t: FieldType, v: u64)
    ensures
        truncated(t, v) == cut(t, v as int),
{
}

/// Action 1 sets a field, action 2 clears a slot, action 3 adds to a field and
/// action 4 sets a property, each cut to the size of its type; any other leaves
/// the storage as it is.
pub proof fn law_actions(v: StorageView, l: Layout, op: TimedOp)
    requires
        v.wf(),
        fields_apart(l, v.slot_size),
        op.slot < v.num_slots,
    ensures
        op.action == 1 && op.field_index < l.types.len() ==> {
            let w = applied(v, l, op);
            &&& w.slot_is_valid(op.slot)
            &&& w.field(op.slot, l, op.field_index) == cut(
                l.types[op.field_index as int],
                op.value as int,
            )
        },
        op.action == 2 ==> !applied(v, l, op).slot_is_valid(op.slot) && forall|f: u16|
            f < l.types.len() ==> #[trigger] applied(v, l, op).field(op.slot, l, f) == 0,
        op.action == 3 && op.field_index < l.types.len() ==> {
            let w = applied(v, l, op);
            &&& w.slot_is_valid(op.slot)
            &&& w.field(op.slot, l, op.field_index) == cut(
                l.types[op.field_index as int],
                v.field(op.slot, l, op.field_index) + op.value,
            )
        },
        op.action == 4 && op.field_index < l.prop_types.len() && v.property_fits(l, op.field_index)
            ==> applied(v, l, op).property(l, op.field_index) == cut(
            l.prop_types[op.field_index as int],
            op.value as int,
        ),
        op.action == 0 || op.action > 4 ==> applied(v, l, op) == v,
{
    let f = op.field_index;
    if f < l.types.len() {
        lemma_field_inside(v, l, op.slot, f);
        law_set_get(v, l, op.slot, f, op.value);
        law_add_get(v, l, op.slot, f, op.value);
        let sum = ((v.field(op.slot, l, f) + op.value) % 0x1_0000_0000_0000_0000) as u64;
        law_set_get(v, l, op.slot, f, sum);
        law_truncated(l.types[f as int], op.value);
        law_truncated(l.types[f as int], sum);
    }
    if op.action == 2 {
        assert forall|f: u16| f < l.types.len() implies #[trigger] applied(v, l, op).field(
            op.slot,
            l,
            f,
        ) == 0 by {
            law_clear_get(v, l, op.slot, f);
        }
        lemma_cleared(v, op.slot);
    }
    if f < l.prop_types.len() && v.property_fits(l, f) {
        law_property_get(v, l, f, op.value);
        law_truncated(l.prop_types[f as int], op.value);
    }
}

proof fn lemma_cleared(v: StorageView, slot: u16)
    requires
        v.wf(),
        slot < v.num_slots,
    ensures
        !v.clear(slot).slot_is_valid(slot),
{
}

/// An operation reaches the storage with its number and no other, and an event
/// reaches none.
pub proof fn law_item_reaches(
    st: Seq<StorageView>,
    ls: Seq<Layout>,
    item: TimedItemView,
    k: int,
)
    requires
        0 <= k < st.len(),
    ensures
        after_item(st, ls, item).len() == st.len(),
        item matches TimedItemView::Op(op) && op.storage_id == k ==> after_item(
            st,
            ls,
            item,
        )[k] == applied(st[k], ls[k], item->Op_0),
        !(item matches TimedItemView::Op(op) && op.storage_id == k) ==> after_item(
            st,
            ls,
            item,
        )[k] == st[k],
{
}

} // verus!
