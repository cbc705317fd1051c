//! State reconstruction: replay deltas to reconstruct storage state at any
//! point in time.

use vstd::prelude::*;
use crate::bytes::{
    get_u16, get_u32, get_u64, lemma_at_same, suffix, u16_at, u32_at, u64_at, ByteReader,
};
use crate::checkpoint::{FieldOffsets, Layout, StorageState, StorageView};
use crate::error::TraceError;
use crate::leb128::{decode_u64, leb_decode, leb_scan};
use crate::types::{
    put_slice, DeltaOp, DeltaOpCompact, EventRecord, EventRecordView, DA_PROP_SET, DA_SLOT_ADD,
    DA_SLOT_CLEAR, DA_SLOT_SET, TAG_COMPACT_OP, TAG_EVENT, TAG_WIDE_OP,
};
use crate::wire::{decode_n, lemma_decode_n_bounds, lemma_suffix_suffix, read_n, views, Wire};

verus! {

/// Reconstructed state at a point in time.
#[derive(Debug)]
pub struct TraceState {
    pub time_ps: u64,
    pub storages: Vec<StorageState>,
}

impl TraceState {
    /// Whether a slot exists and is valid.
    pub fn slot_valid(&self, storage_id: u16, slot: u16) -> (b: bool)
        ensures
            b == (storage_id < self.storages@.len()
                && self.storages@[storage_id as int]@.slot_is_valid(slot)),
    {
        let sid: usize = storage_id as usize;
        if sid < self.storages.len() {
            self.storages[sid].slot_valid(slot)
        } else {
            false
        }
    }

    /// The value of a field: 0 where there is no such storage or slot.
    pub fn slot_field(&self, storage_id: u16, slot: u16, field: u16, offsets: &FieldOffsets) -> (v:
        u64)
        requires
            storage_id < self.storages@.len() ==> {
                &&& self.storages@[storage_id as int]@.wf()
                &&& self.storages@[storage_id as int]@.field_fits(slot, offsets@, field)
            },
        ensures
            v == if storage_id < self.storages@.len() {
                self.storages@[storage_id as int]@.field(slot, offsets@, field)
            } else {
                0
            },
    {
        let sid: usize = storage_id as usize;
        if sid < self.storages.len() {
            self.storages[sid].get_field_at(slot, offsets, field)
        } else {
            0
        }
    }
}

/// Event observed during delta replay.
#[derive(Debug, Clone)]
pub struct TimedEvent {
    pub time_ps: u64,
    pub event_type_id: u16,
    pub payload: Vec<u8>,
}

/// What a `TimedEvent` holds.
#[verifier::ext_equal]
pub struct TimedEventView {
    pub time_ps: u64,
    pub event_type_id: u16,
    pub payload: Seq<u8>,
}

impl View for TimedEvent {
    type V = TimedEventView;

    open spec fn view(&self) -> TimedEventView {
        TimedEventView {
            time_ps: self.time_ps,
            event_type_id: self.event_type_id,
            payload: self.payload@,
        }
    }
}

/// Storage operation observed during delta replay.
#[derive(Debug, Clone, Copy)]
pub struct TimedOp {
    pub time_ps: u64,
    pub storage_id: u16,
    pub slot: u16,
    pub action: u8,
    pub field_index: u16,
    pub value: u64,
}

impl View for TimedOp {
    type V = TimedOp;

    open spec fn view(&self) -> TimedOp {
        *self
    }
}

/// An operation or an event, in the order of a frame.
#[derive(Debug, Clone)]
pub enum TimedItem {
    Op(TimedOp),
    Event(TimedEvent),
}

/// What a `TimedItem` holds.
#[verifier::ext_equal]
pub enum TimedItemView {
    Op(TimedOp),
    Event(TimedEventView),
}

impl TimedItemView {
    pub open spec fn time(self) -> u64 {
        match self {
            TimedItemView::Op(op) => op.time_ps,
            TimedItemView::Event(ev) => ev.time_ps,
        }
    }
}

impl View for TimedItem {
    type V = TimedItemView;

    open spec fn view(&self) -> TimedItemView {
        match self {
            TimedItem::Op(op) => TimedItemView::Op(*op),
            TimedItem::Event(ev) => TimedItemView::Event(ev@),
        }
    }
}

impl TimedItem {
    /// When the item happened.
    pub fn time_ps(&self) -> (t: u64)
        ensures
            t == self@.time(),
    {
        match self {
            TimedItem::Op(op) => op.time_ps,
            TimedItem::Event(ev) => ev.time_ps,
        }
    }
}

// ---------------------------------------------------------------------------
// Applying operations.

/// Whether an operation stays inside its storage.
pub open spec fn op_fits(v: StorageView, l: Layout, op: TimedOp) -> bool {
    if op.action == DA_SLOT_SET || op.action == DA_SLOT_ADD {
        v.field_fits(op.slot, l, op.field_index)
    } else if op.action == DA_PROP_SET {
        v.property_fits(l, op.field_index)
    } else {
        true
    }
}

/// A storage after an operation on it. An unknown action does nothing.
pub open spec fn applied(v: StorageView, l: Layout, op: TimedOp) -> StorageView {
    if op.action == DA_SLOT_SET {
        v.set_field(op.slot, l, op.field_index, op.value)
    } else if op.action == DA_SLOT_CLEAR {
        v.clear(op.slot)
    } else if op.action == DA_SLOT_ADD {
        v.add_field(op.slot, l, op.field_index, op.value)
    } else if op.action == DA_PROP_SET {
        v.set_property(l, op.field_index, op.value)
    } else {
        v
    }
}

/// The storages after an item. An event changes nothing, nor does an
/// operation on a storage that does not exist.
pub open spec fn after_item(
    st: Seq<StorageView>,
    ls: Seq<Layout>,
    item: TimedItemView,
) -> Seq<StorageView> {
    match item {
        TimedItemView::Op(op) => if op.storage_id < st.len() {
            st.update(
                op.storage_id as int,
                applied(st[op.storage_id as int], ls[op.storage_id as int], op),
            )
        } else {
            st
        },
        TimedItemView::Event(_) => st,
    }
}

/// The storages after some items, in turn.
pub open spec fn after_items(
    st: Seq<StorageView>,
    ls: Seq<Layout>,
    items: Seq<TimedItemView>,
) -> Seq<StorageView>
    decreases items.len(),
{
    if items.len() == 0 {
        st
    } else {
        after_item(after_items(st, ls, items.drop_last()), ls, items.last())
    }
}

/// Whether an item stays inside its storage.
pub open spec fn item_fits(st: Seq<StorageView>, ls: Seq<Layout>, item: TimedItemView) -> bool {
    match item {
        TimedItemView::Op(op) => op.storage_id < st.len() ==> op_fits(
            st[op.storage_id as int],
            ls[op.storage_id as int],
            op,
        ),
        TimedItemView::Event(_) => true,
    }
}

/// Whether every item stays inside its storage.
pub open spec fn items_fit(
    st: Seq<StorageView>,
    ls: Seq<Layout>,
    items: Seq<TimedItemView>,
) -> bool {
    forall|i: int| 0 <= i < items.len() ==> item_fits(st, ls, #[trigger] items[i])
}

/// Whether an item is an event or an operation on one of `n` storages.
pub open spec fn known_item(item: TimedItemView, n: int) -> bool {
    match item {
        TimedItemView::Op(op) => op.storage_id < n,
        TimedItemView::Event(_) => true,
    }
}

/// Every storage has the sizes that its counts say.
pub open spec fn all_wf(st: Seq<StorageView>) -> bool {
    forall|i: int| 0 <= i < st.len() ==> (#[trigger] st[i]).wf()
}

/// Two lists of storages of the same shapes.
pub open spec fn same_shapes(a: Seq<StorageView>, b: Seq<StorageView>) -> bool {
    &&& a.len() == b.len()
    &&& forall|i: int| #![trigger a[i]] #![trigger b[i]] 0 <= i < a.len() ==> {
        &&& crate::checkpoint::same_shape(a[i], b[i])
        &&& a[i].data.len() == b[i].data.len()
        &&& a[i].property_data.len() == b[i].property_data.len()
    }
}

/// Operations that fit change neither the shape of a storage nor whether
/// its arrays have the right sizes.
pub proof fn lemma_after_item_shape(st: Seq<StorageView>, ls: Seq<Layout>, item: TimedItemView)
    requires
        all_wf(st),
        item_fits(st, ls, item),
    ensures
        all_wf(after_item(st, ls, item)),
        same_shapes(st, after_item(st, ls, item)),
{
    broadcast use crate::bytes::group_le_len;

    match item {
        TimedItemView::Op(op) => if op.storage_id < st.len() {
            let i = op.storage_id as int;
            if op.slot < st[i].num_slots {
                crate::checkpoint::lemma_slot_bounds(st[i], op.slot as int);
            }
        },
        TimedItemView::Event(_) => {},
    }
}

/// Whether an item fits depends on the shapes of the storages alone.
pub proof fn lemma_fits_shape(
    a: Seq<StorageView>,
    b: Seq<StorageView>,
    ls: Seq<Layout>,
    item: TimedItemView,
)
    requires
        same_shapes(a, b),
    ensures
        item_fits(a, ls, item) == item_fits(b, ls, item),
{
    match item {
        TimedItemView::Op(op) => if op.storage_id < a.len() {
            let i = op.storage_id as int;
            assert(a[i].num_slots == b[i].num_slots);
        },
        TimedItemView::Event(_) => {},
    }
}

/// Some items that fit leave the shapes alone.
pub proof fn lemma_after_items_shape(
    st: Seq<StorageView>,
    ls: Seq<Layout>,
    items: Seq<TimedItemView>,
)
    requires
        all_wf(st),
        items_fit(st, ls, items),
    ensures
        all_wf(after_items(st, ls, items)),
        same_shapes(st, after_items(st, ls, items)),
    decreases items.len(),
{
    if items.len() > 0 {
        let init = items.drop_last();
        assert(items_fit(st, ls, init)) by {
            assert forall|i: int| 0 <= i < init.len() implies item_fits(
                st,
                ls,
                #[trigger] init[i],
            ) by {
                assert(init[i] == items[i]);
            }
        }
        lemma_after_items_shape(st, ls, init);
        assert(item_fits(st, ls, items[items.len() - 1]));
        lemma_fits_shape(st, after_items(st, ls, init), ls, items.last());
        lemma_after_item_shape(after_items(st, ls, init), ls, items.last());
    }
}

/// Items one after the other: first some, then the rest.
pub proof fn lemma_after_items_join(
    st: Seq<StorageView>,
    ls: Seq<Layout>,
    a: Seq<TimedItemView>,
    b: Seq<TimedItemView>,
)
    ensures
        after_items(st, ls, a + b) == after_items(after_items(st, ls, a), ls, b),
    decreases b.len(),
{
    if b.len() == 0 {
        assert(a + b =~= a);
    } else {
        lemma_after_items_join(st, ls, a, b.drop_last());
        assert((a + b).drop_last() =~= a + b.drop_last());
        assert((a + b).last() == b.last());
    }
}

/// Whether an operation stays inside its storage.
fn check_op(v: &StorageState, l: &FieldOffsets, op: &TimedOp) -> (b: bool)
    requires
        v@.wf(),
    ensures
        b == op_fits(v@, l@, *op),
{
    if op.action == DA_SLOT_SET || op.action == DA_SLOT_ADD {
        if op.slot >= v.num_slots {
            return true;
        }
        let fi: usize = op.field_index as usize;
        if fi >= l.types.len() || fi >= l.offsets.len() {
            return false;
        }
        proof {
            crate::checkpoint::lemma_slot_bounds(v@, op.slot as int);
        }
        let len: usize = v.data.len();
        let room: usize = len - op.slot as usize * v.slot_size;
        let size: usize = l.types[fi].size();
        room >= size && l.offsets[fi] <= room - size
    } else if op.action == DA_PROP_SET {
        let pi: usize = op.field_index as usize;
        if pi >= l.prop_types.len() {
            return true;
        }
        if pi >= l.prop_offsets.len() {
            return false;
        }
        let size: usize = l.prop_types[pi].size();
        let len: usize = v.property_data.len();
        len >= size && l.prop_offsets[pi] <= len - size
    } else {
        true
    }
}

/// Apply a delta op to a storage.
fn apply_op(v: &mut StorageState, l: &FieldOffsets, op: &TimedOp)
    requires
        old(v)@.wf(),
        op_fits(old(v)@, l@, *op),
    ensures
        final(v)@ == applied(old(v)@, l@, *op),
        final(v)@.wf(),
{
    if op.action == DA_SLOT_SET {
        v.set_field_at(op.slot, l, op.field_index, op.value);
    } else if op.action == DA_SLOT_CLEAR {
        v.clear_slot(op.slot);
    } else if op.action == DA_SLOT_ADD {
        v.add_field_at(op.slot, l, op.field_index, op.value);
    } else if op.action == DA_PROP_SET {
        v.set_property(l, op.field_index, op.value);
    }
}

/// Applies some items in turn, if every one of them stays inside its
/// storage; else nothing is changed.
fn apply_items(storages: &mut Vec<StorageState>, ls: &[FieldOffsets], items: &Vec<TimedItem>) -> (b:
    bool)
    requires
        all_wf(views(old(storages)@)),
        old(storages)@.len() <= ls@.len(),
    ensures
        b == items_fit(views(old(storages)@), views(ls@), views(items@)),
        all_wf(views(final(storages)@)),
        views(final(storages)@) == if b {
            after_items(views(old(storages)@), views(ls@), views(items@))
        } else {
            views(old(storages)@)
        },
{
    let ghost st = views(storages@);
    let ghost lv = views(ls@);
    let ghost iv = views(items@);
    let mut i: usize = 0;
    while i < items.len()
        invariant
            i <= items@.len(),
            storages@ == old(storages)@,
            st == views(storages@),
            lv == views(ls@),
            iv == views(items@),
            all_wf(st),
            storages@.len() <= ls@.len(),
            forall|j: int| 0 <= j < i ==> item_fits(st, lv, #[trigger] iv[j]),
        decreases items@.len() - i,
    {
        match &items[i] {
            TimedItem::Op(op) => {
                let sid: usize = op.storage_id as usize;
                if sid < storages.len() {
                    assert(st[sid as int] == storages@[sid as int]@);
                    assert(lv[sid as int] == ls@[sid as int]@);
                    if !check_op(&storages[sid], &ls[sid], op) {
                        assert(!item_fits(st, lv, iv[i as int]));
                        return false;
                    }
                }
            },
            TimedItem::Event(_) => {},
        }
        assert(item_fits(st, lv, iv[i as int]));
        i = i + 1;
    }
    let mut k: usize = 0;
    assert(iv.take(0) =~= Seq::<TimedItemView>::empty());
    while k < items.len()
        invariant
            k <= items@.len(),
            st == views(old(storages)@),
            lv == views(ls@),
            iv == views(items@),
            all_wf(st),
            items_fit(st, lv, iv),
            st.len() <= ls@.len(),
            views(storages@) == after_items(st, lv, iv.take(k as int)),
        decreases items@.len() - k,
    {
        let ghost now = views(storages@);
        proof {
            let prefix = iv.take(k as int);
            assert(items_fit(st, lv, prefix)) by {
                assert forall|i: int| 0 <= i < prefix.len() implies item_fits(
                    st,
                    lv,
                    #[trigger] prefix[i],
                ) by {
                    assert(prefix[i] == iv[i]);
                }
            }
            lemma_after_items_shape(st, lv, prefix);
            assert(item_fits(st, lv, iv[k as int]));
            lemma_fits_shape(st, now, lv, iv[k as int]);
            let next = iv.take(k + 1);
            assert(next.drop_last() =~= prefix);
            assert(next.last() == iv[k as int]);
        }
        match &items[k] {
            TimedItem::Op(op) => {
                let sid: usize = op.storage_id as usize;
                if sid < storages.len() {
                    assert(now[sid as int] == storages@[sid as int]@);
                    assert(lv[sid as int] == ls@[sid as int]@);
                    apply_op(&mut storages[sid], &ls[sid], op);
                    assert(views(storages@) =~= after_item(now, lv, iv[k as int]));
                }
            },
            TimedItem::Event(_) => {},
        }
        assert(views(storages@) =~= after_item(now, lv, iv[k as int]));
        k = k + 1;
    }
    proof {
        assert(iv.take(iv.len() as int) =~= iv);
        lemma_after_items_shape(st, lv, iv);
    }
    true
}

// ---------------------------------------------------------------------------
// Interleaved frames.

/// The item at the start of `s`, of a frame at time `t`, and how many bytes
/// it takes.
pub open spec fn parse_item(s: Seq<u8>, t: u64) -> Result<(TimedItemView, int), TraceError> {
    if s.len() < 1 {
        Err(TraceError::UnexpectedEof)
    } else if s[0] == TAG_WIDE_OP {
        if s.len() < 16 {
            Err(TraceError::UnexpectedEof)
        } else {
            Ok(
                (
                    TimedItemView::Op(
                        TimedOp {
                            time_ps: t,
                            storage_id: u16_at(s, 2),
                            slot: u16_at(s, 4),
                            action: s[1],
                            field_index: u16_at(s, 6),
                            value: u64_at(s, 8),
                        },
                    ),
                    16,
                ),
            )
        }
    } else if s[0] == TAG_COMPACT_OP {
        if s.len() < 9 {
            Err(TraceError::UnexpectedEof)
        } else {
            Ok(
                (
                    TimedItemView::Op(
                        TimedOp {
                            time_ps: t,
                            storage_id: s[2] as u16,
                            slot: u16_at(s, 3),
                            action: s[1],
                            field_index: u16_at(s, 5),
                            value: u16_at(s, 7) as u64,
                        },
                    ),
                    9,
                ),
            )
        }
    } else if s[0] == TAG_EVENT {
        if s.len() < 8 || s.len() < 8 + u32_at(s, 4) {
            Err(TraceError::UnexpectedEof)
        } else {
            Ok(
                (
                    TimedItemView::Event(
                        TimedEventView {
                            time_ps: t,
                            event_type_id: u16_at(s, 2),
                            payload: s.subrange(8, 8 + u32_at(s, 4)),
                        },
                    ),
                    8 + u32_at(s, 4),
                ),
            )
        }
    } else {
        Err(TraceError::UnknownItemTag(s[0]))
    }
}

/// The `count` items at the start of `s` and how many bytes they take.
/// Operations on a storage that is not one of `n` are left out.
pub open spec fn parse_items(s: Seq<u8>, t: u64, count: nat, n: int) -> Result<
    (Seq<TimedItemView>, int),
    TraceError,
>
    decreases count,
{
    if count == 0 {
        Ok((Seq::empty(), 0))
    } else {
        match parse_items(s, t, (count - 1) as nat, n) {
            Err(e) => Err(e),
            Ok((items, k)) => match parse_item(suffix(s, k), t) {
                Err(e) => Err(e),
                Ok((item, m)) => if known_item(item, n) {
                    Ok((items.push(item), k + m))
                } else {
                    Ok((items, k + m))
                },
            },
        }
    }
}

/// The time of the frame at the start of `s`, `time` being that of the frame
/// before, and how many bytes it takes.
pub open spec fn parse_time(s: Seq<u8>, time: u64) -> Result<(u64, int), TraceError> {
    match leb_decode(s) {
        Err(e) => Err(TraceError::Leb128(e)),
        Ok((delta, n)) => if time + delta > u64::MAX {
            Err(TraceError::TimeOverflow)
        } else {
            Ok(((time + delta) as u64, n))
        },
    }
}

/// Whether a frame at time `t` is past the target time.
pub open spec fn past(t: u64, target: Option<u64>) -> bool {
    target is Some && t > target->Some_0
}

pub proof fn lemma_leb_scan_bounds(s: Seq<u8>, i: int)
    requires
        0 <= i,
    ensures
        leb_scan(s, i) is Ok ==> i < leb_scan(s, i)->Ok_0 <= s.len(),
    decreases s.len() - i,
{
    if i < s.len() && i < 10 && s[i] >= 128 {
        lemma_leb_scan_bounds(s, i + 1);
    }
}

pub proof fn lemma_parse_item_bounds(s: Seq<u8>, t: u64)
    ensures
        parse_item(s, t) is Ok ==> 0 < parse_item(s, t)->Ok_0.1 <= s.len(),
{
}

pub proof fn lemma_parse_items_bounds(s: Seq<u8>, t: u64, count: nat, n: int)
    ensures
        parse_items(s, t, count, n) is Ok ==> 0 <= parse_items(s, t, count, n)->Ok_0.1 <= s.len(),
    decreases count,
{
    if count > 0 {
        lemma_parse_items_bounds(s, t, (count - 1) as nat, n);
        match parse_items(s, t, (count - 1) as nat, n) {
            Err(e) => {},
            Ok((items, k)) => {
                lemma_parse_item_bounds(suffix(s, k), t);
            },
        }
    }
}

proof fn lemma_parse_items_err(s: Seq<u8>, t: u64, i: nat, count: nat, n: int)
    requires
        i <= count,
        parse_items(s, t, i, n) is Err,
    ensures
        parse_items(s, t, count, n) == parse_items(s, t, i, n),
    decreases count,
{
    if i < count {
        lemma_parse_items_err(s, t, i, (count - 1) as nat, n);
    }
}

/// All items of the frames of `s`, up to the first frame past the target
/// time, and the time of the last frame looked at. `time` is that of the
/// frame before.
pub open spec fn parse_frames(s: Seq<u8>, time: u64, target: Option<u64>, n: int) -> Result<
    (u64, Seq<TimedItemView>),
    TraceError,
>
    decreases s.len(),
{
    if s.len() == 0 {
        Ok((time, Seq::empty()))
    } else {
        match parse_time(s, time) {
            Err(e) => Err(e),
            Ok((t, k)) => if past(t, target) {
                Ok((t, Seq::empty()))
            } else if s.len() < k + 2 {
                Err(TraceError::UnexpectedEof)
            } else {
                match parse_items(suffix(s, k + 2), t, u16_at(s, k) as nat, n) {
                    Err(e) => Err(e),
                    Ok((items, m)) => {
                        proof {
                            lemma_leb_scan_bounds(s, 0);
                            lemma_parse_items_bounds(
                                suffix(s, k + 2),
                                t,
                                u16_at(s, k) as nat,
                                n,
                            );
                        }
                        prepend(items, parse_frames(suffix(s, k + 2 + m), t, target, n))
                    },
                }
            },
        }
    }
}

/// The outcome with `items` put in front.
pub open spec fn prepend(
    items: Seq<TimedItemView>,
    r: Result<(u64, Seq<TimedItemView>), TraceError>,
) -> Result<(u64, Seq<TimedItemView>), TraceError> {
    match r {
        Err(e) => Err(e),
        Ok((t, more)) => Ok((t, items + more)),
    }
}

/// Reads one item of a frame at time `t`.
fn read_item(r: &mut ByteReader<'_>, t: u64) -> (res: Result<TimedItem, TraceError>)
    ensures
        match parse_item(old(r)@, t) {
            Ok((item, n)) => 0 <= n <= old(r)@.len() && res is Ok && res->Ok_0@ == item && final(r)@ == suffix(old(r)@, n),
            Err(e) => res == Err::<TimedItem, TraceError>(e),
        },
{
    let ghost s = r@;
    proof {
        reveal(u16_at);
        reveal(u32_at);
        reveal(u64_at);
    }
    let tag: u8 = match r.take(1) {
        Err(e) => return Err(e),
        Ok(b) => b[0],
    };
    assert(tag == s[0]);
    if tag == TAG_WIDE_OP {
        let b = match r.take(15) {
            Err(e) => return Err(e),
            Ok(b) => b,
        };
        assert(forall|i: int| 0 <= i < 15 ==> b@[i] == s[i + 1]);
        assert(r@ =~= suffix(s, 16));
        Ok(
            TimedItem::Op(
                TimedOp {
                    time_ps: t,
                    storage_id: get_u16(b, 1),
                    slot: get_u16(b, 3),
                    action: b[0],
                    field_index: get_u16(b, 5),
                    value: get_u64(b, 7),
                },
            ),
        )
    } else if tag == TAG_COMPACT_OP {
        let b = match r.take(8) {
            Err(e) => return Err(e),
            Ok(b) => b,
        };
        assert(forall|i: int| 0 <= i < 8 ==> b@[i] == s[i + 1]);
        assert(r@ =~= suffix(s, 9));
        Ok(
            TimedItem::Op(
                TimedOp {
                    time_ps: t,
                    storage_id: b[1] as u16,
                    slot: get_u16(b, 2),
                    action: b[0],
                    field_index: get_u16(b, 4),
                    value: get_u16(b, 6) as u64,
                },
            ),
        )
    } else if tag == TAG_EVENT {
        let h = match r.take(7) {
            Err(e) => return Err(e),
            Ok(b) => b,
        };
        assert(forall|i: int| 0 <= i < 7 ==> h@[i] == s[i + 1]);
        let size: u32 = get_u32(h, 3);
        assert(size == u32_at(s, 4));
        let body = match r.take(size as usize) {
            Err(e) => return Err(e),
            Ok(b) => b,
        };
        let mut payload: Vec<u8> = Vec::new();
        put_slice(&mut payload, body);
        assert(payload@ =~= s.subrange(8, 8 + size as int));
        assert(r@ =~= suffix(s, 8 + size));
        Ok(TimedItem::Event(TimedEvent { time_ps: t, event_type_id: get_u16(h, 1), payload }))
    } else {
        Err(TraceError::UnknownItemTag(tag))
    }
}

/// Reads the time of a frame.
fn read_time(r: &mut ByteReader<'_>, time: u64) -> (res: Result<u64, TraceError>)
    ensures
        match parse_time(old(r)@, time) {
            Ok((t, n)) => 0 < n <= old(r)@.len() && res == Ok::<u64, TraceError>(t) && final(r)@
                == suffix(old(r)@, n),
            Err(e) => res == Err::<u64, TraceError>(e),
        },
{
    let (delta, n) = match decode_u64(r.peek()) {
        Err(e) => return Err(TraceError::Leb128(e)),
        Ok(p) => p,
    };
    if delta > u64::MAX - time {
        return Err(TraceError::TimeOverflow);
    }
    match r.take(n) {
        Err(e) => return Err(e),
        Ok(_) => {},
    }
    Ok(time + delta)
}

/// Reads all items of interleaved frames, up to the first frame past the
/// target time.
fn read_frames(
    data: &[u8],
    start_time_ps: u64,
    target_time_ps: Option<u64>,
    num_storages: usize,
) -> (res: Result<(u64, Vec<TimedItem>), TraceError>)
    ensures
        match parse_frames(data@, start_time_ps, target_time_ps, num_storages as int) {
            Ok((t, items)) => res is Ok && res->Ok_0.0 == t && views(res->Ok_0.1@) == items,
            Err(e) => res == Err::<(u64, Vec<TimedItem>), TraceError>(e),
        },
{
    let mut r = ByteReader::new(data);
    let mut time: u64 = start_time_ps;
    let mut items: Vec<TimedItem> = Vec::new();
    let ghost n = num_storages as int;
    let ghost whole = parse_frames(data@, start_time_ps, target_time_ps, n);
    proof {
        assert(views(items@) =~= Seq::<TimedItemView>::empty());
        assert(whole is Ok ==> Seq::empty() + whole->Ok_0.1 =~= whole->Ok_0.1);
    }
    while r.remaining() > 0
        invariant
            n == num_storages,
            whole == parse_frames(data@, start_time_ps, target_time_ps, n),
            whole == prepend(views(items@), parse_frames(r@, time, target_time_ps, n)),
        decreases r@.len(),
    {
        let ghost s = r@;
        let ghost before = views(items@);
        proof {
            lemma_leb_scan_bounds(s, 0);
        }
        let t: u64 = match read_time(&mut r, time) {
            Err(e) => return Err(e),
            Ok(t) => t,
        };
        let ghost k = parse_time(s, time)->Ok_0.1;
        if let Some(target) = target_time_ps {
            if t > target {
                assert(before + Seq::<TimedItemView>::empty() =~= before);
                return Ok((t, items));
            }
        }
        let h = match r.take(2) {
            Err(e) => return Err(e),
            Ok(h) => h,
        };
        let count: u16 = get_u16(h, 0);
        proof {
            reveal(u16_at);
            assert(count == u16_at(s, k));
        }
        let ghost body = suffix(s, k + 2);
        proof {
            lemma_suffix_suffix(s, k, 2);
            assert(suffix(body, 0) =~= body);
            lemma_parse_items_bounds(body, t, count as nat, n);
        }
        let mut i: u16 = 0;
        let ghost mut m: int = 0;
        let ghost mut frame: Seq<TimedItemView> = Seq::empty();
        assert(views(items@) =~= before + frame);
        while i < count
            invariant
                i <= count,
                n == num_storages,
                0 <= m <= body.len(),
                r@ == suffix(body, m),
                parse_items(body, t, i as nat, n) == Ok::<(Seq<TimedItemView>, int), TraceError>(
                    (frame, m),
                ),
                views(items@) == before + frame,
                whole == parse_frames(data@, start_time_ps, target_time_ps, n),
                parse_items(body, t, count as nat, n) is Err ==> whole == Err::<
                    (u64, Seq<TimedItemView>),
                    TraceError,
                >(parse_items(body, t, count as nat, n)->Err_0),
            decreases count - i,
        {
            proof {
                lemma_parse_item_bounds(suffix(body, m), t);
                if parse_items(body, t, (i + 1) as nat, n) is Err {
                    lemma_parse_items_err(body, t, (i + 1) as nat, count as nat, n);
                }
            }
            let item = match read_item(&mut r, t) {
                Err(e) => return Err(e),
                Ok(item) => item,
            };
            let known: bool = match &item {
                TimedItem::Op(op) => (op.storage_id as usize) < num_storages,
                TimedItem::Event(_) => true,
            };
            proof {
                let size = parse_item(suffix(body, m), t)->Ok_0.1;
                lemma_suffix_suffix(body, m, size);
                m = m + size;
            }
            if known {
                let ghost prev = items@;
                items.push(item);
                proof {
                    frame = frame.push(item@);
                    assert(views(items@) =~= views(prev).push(item@));
                    assert(views(items@) =~= before + frame);
                }
            }
            i = i + 1;
        }
        proof {
            lemma_suffix_suffix(s, k + 2, m);
            let rest = parse_frames(suffix(s, k + 2 + m), t, target_time_ps, n);
            if rest is Ok {
                assert(before + (frame + rest->Ok_0.1) =~= (before + frame) + rest->Ok_0.1);
            }
        }
        time = t;
    }
    proof {
        assert(r@ =~= Seq::<u8>::empty());
        assert(views(items@) + Seq::<TimedItemView>::empty() =~= views(items@));
    }
    Ok((time, items))
}

/// Replay delta blob in interleaved format, starting from checkpoint state,
/// up to a target time. Items are returned in their original insertion order.
///
/// Where it fails, the storages are unchanged.
pub fn replay_deltas_v2(
    delta_data: &[u8],
    storages: &mut Vec<StorageState>,
    field_offsets: &[FieldOffsets],
    start_time_ps: u64,
    target_time_ps: Option<u64>,
) -> (res: Result<(u64, Vec<TimedItem>), TraceError>)
    requires
        all_wf(views(old(storages)@)),
        old(storages)@.len() <= field_offsets@.len(),
    ensures
        all_wf(views(final(storages)@)),
        match parse_frames(
            delta_data@,
            start_time_ps,
            target_time_ps,
            old(storages)@.len() as int,
        ) {
            Ok((t, items)) => if items_fit(
                views(old(storages)@),
                views(field_offsets@),
                items,
            ) {
                &&& res is Ok
                &&& res->Ok_0.0 == t
                &&& views(res->Ok_0.1@) == items
                &&& views(final(storages)@) == after_items(
                    views(old(storages)@),
                    views(field_offsets@),
                    items,
                )
            } else {
                &&& res == Err::<(u64, Vec<TimedItem>), TraceError>(TraceError::OpOutOfRange)
                &&& views(final(storages)@) == views(old(storages)@)
            },
            Err(e) => {
                &&& res == Err::<(u64, Vec<TimedItem>), TraceError>(e)
                &&& views(final(storages)@) == views(old(storages)@)
            },
        },
{
    let (t, items) = match read_frames(
        delta_data,
        start_time_ps,
        target_time_ps,
        storages.len(),
    ) {
        Err(e) => return Err(e),
        Ok(p) => p,
    };
    if !apply_items(storages, field_offsets, &items) {
        return Err(TraceError::OpOutOfRange);
    }
    Ok((t, items))
}

// ---------------------------------------------------------------------------
// Frames that hold their operations first and their events after them.

/// An operation of a frame at time `t`.
pub open spec fn timed_op(op: DeltaOp, t: u64) -> TimedOp {
    TimedOp {
        time_ps: t,
        storage_id: op.storage_id,
        slot: op.slot_index,
        action: op.action,
        field_index: op.field_index,
        value: op.value,
    }
}

/// An event of a frame at time `t`.
pub open spec fn timed_event(ev: EventRecordView, t: u64) -> TimedEventView {
    TimedEventView { time_ps: t, event_type_id: ev.event_type_id, payload: ev.payload }
}

/// The operations of a frame at time `t` on one of `n` storages.
pub open spec fn timed_ops(ops: Seq<DeltaOp>, t: u64, n: int) -> Seq<TimedOp>
    decreases ops.len(),
{
    if ops.len() == 0 {
        Seq::empty()
    } else {
        let before = timed_ops(ops.drop_last(), t, n);
        if ops.last().storage_id < n {
            before.push(timed_op(ops.last(), t))
        } else {
            before
        }
    }
}

/// The `count` operations at the start of `s`, in their short or their long
/// form, and how many bytes they take.
pub open spec fn parse_ops(s: Seq<u8>, count: nat, short: bool) -> Result<
    (Seq<DeltaOp>, int),
    TraceError,
> {
    if short {
        match decode_n::<DeltaOpCompact>(s, count) {
            Err(e) => Err(e),
            Ok((ops, k)) => Ok((ops.map_values(|c: DeltaOpCompact| c.spec_to_wide()), k)),
        }
    } else {
        decode_n::<DeltaOp>(s, count)
    }
}

pub proof fn lemma_parse_ops_bounds(s: Seq<u8>, count: nat, short: bool)
    ensures
        parse_ops(s, count, short) is Ok ==> 0 <= parse_ops(s, count, short)->Ok_0.1 <= s.len(),
{
    lemma_decode_n_bounds::<DeltaOpCompact>(s, count);
    lemma_decode_n_bounds::<DeltaOp>(s, count);
}

/// The events and the operations of the frame at time `t` whose counts are at
/// the start of `s`, and how many bytes they take.
pub open spec fn parse_split_frame(s: Seq<u8>, t: u64, compact: bool, n: int) -> Result<
    (Seq<TimedEventView>, Seq<TimedOp>, int),
    TraceError,
> {
    if s.len() < 6 {
        Err(TraceError::UnexpectedEof)
    } else {
        match parse_ops(suffix(s, 6), u16_at(s, 2) as nat, s[0] == 1 && compact) {
            Err(e) => Err(e),
            Ok((ops, a)) => match decode_n::<EventRecord>(suffix(s, 6 + a), u16_at(s, 4) as nat) {
                Err(e) => Err(e),
                Ok((events, b)) => Ok(
                    (
                        events.map_values(|e: EventRecordView| timed_event(e, t)),
                        timed_ops(ops, t, n),
                        6 + a + b,
                    ),
                ),
            },
        }
    }
}

pub proof fn lemma_parse_split_frame_bounds(s: Seq<u8>, t: u64, compact: bool, n: int)
    ensures
        parse_split_frame(s, t, compact, n) is Ok ==> 0 < parse_split_frame(
            s,
            t,
            compact,
            n,
        )->Ok_0.2 <= s.len(),
{
    if s.len() >= 6 {
        let count = u16_at(s, 2) as nat;
        let short = s[0] == 1 && compact;
        lemma_parse_ops_bounds(suffix(s, 6), count, short);
        match parse_ops(suffix(s, 6), count, short) {
            Err(e) => {},
            Ok((ops, a)) => {
                lemma_decode_n_bounds::<EventRecord>(suffix(s, 6 + a), u16_at(s, 4) as nat);
            },
        }
    }
}

/// What the frames of a blob hold.
#[verifier::ext_equal]
pub struct SplitFrames {
    /// The time of the last frame looked at.
    pub time: u64,
    pub events: Seq<TimedEventView>,
    pub ops: Seq<TimedOp>,
}

/// All operations and events of the frames of `s`, up to the first frame past
/// the target time. `time` is that of the frame before.
pub open spec fn parse_split_frames(
    s: Seq<u8>,
    time: u64,
    target: Option<u64>,
    compact: bool,
    n: int,
) -> Result<SplitFrames, TraceError>
    decreases s.len(),
{
    if s.len() == 0 {
        Ok(SplitFrames { time, events: Seq::empty(), ops: Seq::empty() })
    } else {
        match parse_time(s, time) {
            Err(e) => Err(e),
            Ok((t, k)) => if past(t, target) {
                Ok(SplitFrames { time: t, events: Seq::empty(), ops: Seq::empty() })
            } else {
                match parse_split_frame(suffix(s, k), t, compact, n) {
                    Err(e) => Err(e),
                    Ok((events, ops, m)) => {
                        proof {
                            lemma_leb_scan_bounds(s, 0);
                            lemma_parse_split_frame_bounds(suffix(s, k), t, compact, n);
                        }
                        join_frames(
                            events,
                            ops,
                            parse_split_frames(suffix(s, k + m), t, target, compact, n),
                        )
                    },
                }
            },
        }
    }
}

/// The outcome with the events and operations of a frame put in front.
pub open spec fn join_frames(
    events: Seq<TimedEventView>,
    ops: Seq<TimedOp>,
    r: Result<SplitFrames, TraceError>,
) -> Result<SplitFrames, TraceError> {
    match r {
        Err(e) => Err(e),
        Ok(f) => Ok(SplitFrames { time: f.time, events: events + f.events, ops: ops + f.ops }),
    }
}

/// Operations as items.
pub open spec fn op_items(ops: Seq<TimedOp>) -> Seq<TimedItemView> {
    ops.map_values(|op: TimedOp| TimedItemView::Op(op))
}

/// Reads operations in their short or their long form.
fn read_ops(r: &mut ByteReader<'_>, count: u16, short: bool) -> (res: Result<
    Vec<DeltaOp>,
    TraceError,
>)
    ensures
        match parse_ops(old(r)@, count as nat, short) {
            Ok((ops, n)) => 0 <= n <= old(r)@.len() && res is Ok && res->Ok_0@ == ops && final(r)@
                == suffix(old(r)@, n),
            Err(e) => res == Err::<Vec<DeltaOp>, TraceError>(e),
        },
{
    if !short {
        match read_n::<DeltaOp>(r, count as usize) {
            Err(e) => Err(e),
            Ok(ops) => {
                proof {
                    crate::types::lemma_views_self(ops@);
                }
                Ok(ops)
            },
        }
    } else {
        let short_ops = match read_n::<DeltaOpCompact>(r, count as usize) {
            Err(e) => return Err(e),
            Ok(ops) => ops,
        };
        proof {
            crate::types::lemma_views_self(short_ops@);
        }
        let ghost wide = short_ops@.map_values(|c: DeltaOpCompact| c.spec_to_wide());
        let mut ops: Vec<DeltaOp> = Vec::new();
        let mut i: usize = 0;
        while i < short_ops.len()
            invariant
                i <= short_ops@.len(),
                wide == short_ops@.map_values(|c: DeltaOpCompact| c.spec_to_wide()),
                ops@ == wide.take(i as int),
            decreases short_ops@.len() - i,
        {
            ops.push(short_ops[i].to_wide());
            i = i + 1;
            assert(ops@ =~= wide.take(i as int));
        }
        assert(wide.take(wide.len() as int) =~= wide);
        Ok(ops)
    }
}

/// Reads a frame at time `t` and adds its events and operations.
fn read_split_frame(
    r: &mut ByteReader<'_>,
    t: u64,
    compact_deltas: bool,
    num_storages: usize,
    events: &mut Vec<TimedEvent>,
    ops: &mut Vec<TimedOp>,
) -> (res: Result<(), TraceError>)
    ensures
        match parse_split_frame(old(r)@, t, compact_deltas, num_storages as int) {
            Ok((more_events, more_ops, n)) => {
                &&& res is Ok
                &&& 0 < n <= old(r)@.len()
                &&& final(r)@ == suffix(old(r)@, n)
                &&& views(final(events)@) == views(old(events)@) + more_events
                &&& final(ops)@ == old(ops)@ + more_ops
            },
            Err(e) => res == Err::<(), TraceError>(e),
        },
{
    let ghost s = r@;
    let ghost n = num_storages as int;
    let ghost events0 = views(events@);
    let ghost ops0 = ops@;
    let h = match r.take(6) {
        Err(e) => return Err(e),
        Ok(h) => h,
    };
    let short: bool = h[0] == 1 && compact_deltas;
    let num_ops: u16 = get_u16(h, 2);
    let num_events: u16 = get_u16(h, 4);
    proof {
        lemma_at_same(h@, 2, s, 2, 2);
        lemma_at_same(h@, 4, s, 4, 2);
    }
    let raw_ops = match read_ops(r, num_ops, short) {
        Err(e) => return Err(e),
        Ok(o) => o,
    };
    let ghost a = parse_ops(suffix(s, 6), num_ops as nat, short)->Ok_0.1;
    proof {
        lemma_suffix_suffix(s, 6, a);
    }
    let raw_events = match read_n::<EventRecord>(r, num_events as usize) {
        Err(e) => return Err(e),
        Ok(o) => o,
    };
    let ghost b = decode_n::<EventRecord>(suffix(s, 6 + a), num_events as nat)->Ok_0.1;
    proof {
        lemma_suffix_suffix(s, 6 + a, b);
    }
    let mut i: usize = 0;
    assert(raw_ops@.take(0) =~= Seq::<DeltaOp>::empty());
    assert(ops@ =~= ops0 + timed_ops(raw_ops@.take(0), t, n));
    while i < raw_ops.len()
        invariant
            i <= raw_ops@.len(),
            n == num_storages,
            ops@ == ops0 + timed_ops(raw_ops@.take(i as int), t, n),
        decreases raw_ops@.len() - i,
    {
        let op: DeltaOp = raw_ops[i];
        proof {
            let next = raw_ops@.take(i + 1);
            assert(next.drop_last() =~= raw_ops@.take(i as int));
            assert(next.last() == op);
        }
        if (op.storage_id as usize) < num_storages {
            ops.push(
                TimedOp {
                    time_ps: t,
                    storage_id: op.storage_id,
                    slot: op.slot_index,
                    action: op.action,
                    field_index: op.field_index,
                    value: op.value,
                },
            );
        }
        i = i + 1;
        assert(ops@ =~= ops0 + timed_ops(raw_ops@.take(i as int), t, n));
    }
    assert(raw_ops@.take(i as int) =~= raw_ops@);
    let ghost frame_events = views(raw_events@).map_values(
        |e: EventRecordView| timed_event(e, t),
    );
    let mut j: usize = 0;
    assert(views(events@) =~= events0 + frame_events.take(0));
    while j < raw_events.len()
        invariant
            j <= raw_events@.len(),
            frame_events == views(raw_events@).map_values(|e: EventRecordView| timed_event(e, t)),
            views(events@) == events0 + frame_events.take(j as int),
        decreases raw_events@.len() - j,
    {
        let ghost prev = events@;
        let ev: &EventRecord = &raw_events[j];
        let mut payload: Vec<u8> = Vec::new();
        put_slice(&mut payload, ev.payload.as_slice());
        assert(payload@ =~= ev.payload@);
        let timed = TimedEvent { time_ps: t, event_type_id: ev.event_type_id, payload };
        events.push(timed);
        proof {
            assert(timed@ == frame_events[j as int]);
            assert(views(events@) =~= views(prev).push(timed@));
        }
        j = j + 1;
        assert(views(events@) =~= events0 + frame_events.take(j as int));
    }
    assert(frame_events.take(j as int) =~= frame_events);
    Ok(())
}

/// Reads all operations and events of a blob, up to the first frame past the
/// target time.
fn read_split_frames(
    data: &[u8],
    start_time_ps: u64,
    target_time_ps: Option<u64>,
    compact_deltas: bool,
    num_storages: usize,
) -> (res: Result<(u64, Vec<TimedEvent>, Vec<TimedOp>), TraceError>)
    ensures
        match parse_split_frames(
            data@,
            start_time_ps,
            target_time_ps,
            compact_deltas,
            num_storages as int,
        ) {
            Ok(f) => res is Ok && res->Ok_0.0 == f.time && views(res->Ok_0.1@) == f.events
                && res->Ok_0.2@ == f.ops,
            Err(e) => res == Err::<(u64, Vec<TimedEvent>, Vec<TimedOp>), TraceError>(e),
        },
{
    let mut r = ByteReader::new(data);
    let mut time: u64 = start_time_ps;
    let mut events: Vec<TimedEvent> = Vec::new();
    let mut ops: Vec<TimedOp> = Vec::new();
    let ghost n = num_storages as int;
    let ghost whole = parse_split_frames(data@, start_time_ps, target_time_ps, compact_deltas, n);
    proof {
        assert(views(events@) =~= Seq::<TimedEventView>::empty());
        if whole is Ok {
            assert(Seq::empty() + whole->Ok_0.events =~= whole->Ok_0.events);
            assert(Seq::empty() + whole->Ok_0.ops =~= whole->Ok_0.ops);
        }
    }
    while r.remaining() > 0
        invariant
            n == num_storages,
            whole == parse_split_frames(
                data@,
                start_time_ps,
                target_time_ps,
                compact_deltas,
                n,
            ),
            whole == join_frames(
                views(events@),
                ops@,
                parse_split_frames(r@, time, target_time_ps, compact_deltas, n),
            ),
        decreases r@.len(),
    {
        let ghost s = r@;
        let ghost events0 = views(events@);
        let ghost ops0 = ops@;
        let t: u64 = match read_time(&mut r, time) {
            Err(e) => return Err(e),
            Ok(t) => t,
        };
        let ghost k = parse_time(s, time)->Ok_0.1;
        if let Some(target) = target_time_ps {
            if t > target {
                assert(events0 + Seq::<TimedEventView>::empty() =~= events0);
                assert(ops0 + Seq::<TimedOp>::empty() =~= ops0);
                return Ok((t, events, ops));
            }
        }
        let ghost frame = parse_split_frame(suffix(s, k), t, compact_deltas, n);
        match read_split_frame(
            &mut r,
            t,
            compact_deltas,
            num_storages,
            &mut events,
            &mut ops,
        ) {
            Err(e) => return Err(e),
            Ok(_) => {},
        }
        proof {
            let (more_events, more_ops, m) = frame->Ok_0;
            lemma_suffix_suffix(s, k, m);
            let rest = parse_split_frames(
                suffix(s, k + m),
                t,
                target_time_ps,
                compact_deltas,
                n,
            );
            if rest is Ok {
                assert(events0 + (more_events + rest->Ok_0.events) =~= (events0 + more_events)
                    + rest->Ok_0.events);
                assert(ops0 + (more_ops + rest->Ok_0.ops) =~= (ops0 + more_ops)
                    + rest->Ok_0.ops);
            }
        }
        time = t;
    }
    proof {
        assert(r@ =~= Seq::<u8>::empty());
        assert(views(events@) + Seq::<TimedEventView>::empty() =~= views(events@));
        assert(ops@ + Seq::<TimedOp>::empty() =~= ops@);
    }
    Ok((time, events, ops))
}

/// Replay delta blob, starting from checkpoint state, up to a target time.
/// Returns the final time, all events and all operations encountered.
///
/// For frames that hold their operations and their events apart
/// (`compact_deltas` allows operations in their short form). For interleaved
/// frames, use `replay_deltas_v2`. Where it fails, the storages are unchanged.
pub fn replay_deltas(
    delta_data: &[u8],
    storages: &mut Vec<StorageState>,
    field_offsets: &[FieldOffsets],
    start_time_ps: u64,
    target_time_ps: Option<u64>,
    compact_deltas: bool,
) -> (res: Result<(u64, Vec<TimedEvent>, Vec<TimedOp>), TraceError>)
    requires
        all_wf(views(old(storages)@)),
        old(storages)@.len() <= field_offsets@.len(),
    ensures
        all_wf(views(final(storages)@)),
        match parse_split_frames(
            delta_data@,
            start_time_ps,
            target_time_ps,
            compact_deltas,
            old(storages)@.len() as int,
        ) {
            Ok(f) => if items_fit(
                views(old(storages)@),
                views(field_offsets@),
                op_items(f.ops),
            ) {
                &&& res is Ok
                &&& res->Ok_0.0 == f.time
                &&& views(res->Ok_0.1@) == f.events
                &&& res->Ok_0.2@ == f.ops
                &&& views(final(storages)@) == after_items(
                    views(old(storages)@),
                    views(field_offsets@),
                    op_items(f.ops),
                )
            } else {
                &&& res == Err::<(u64, Vec<TimedEvent>, Vec<TimedOp>), TraceError>(
                    TraceError::OpOutOfRange,
                )
                &&& views(final(storages)@) == views(old(storages)@)
            },
            Err(e) => {
                &&& res == Err::<(u64, Vec<TimedEvent>, Vec<TimedOp>), TraceError>(e)
                &&& views(final(storages)@) == views(old(storages)@)
            },
        },
{
    let (t, events, ops) = match read_split_frames(
        delta_data,
        start_time_ps,
        target_time_ps,
        compact_deltas,
        storages.len(),
    ) {
        Err(e) => return Err(e),
        Ok(p) => p,
    };
    let mut items: Vec<TimedItem> = Vec::new();
    let mut i: usize = 0;
    assert(views(items@) =~= op_items(ops@).take(0));
    while i < ops.len()
        invariant
            i <= ops@.len(),
            views(items@) == op_items(ops@).take(i as int),
        decreases ops@.len() - i,
    {
        let ghost prev = items@;
        let item = TimedItem::Op(ops[i]);
        items.push(item);
        i = i + 1;
        assert(views(items@) =~= views(prev).push(item@));
        assert(views(items@) =~= op_items(ops@).take(i as int));
    }
    assert(op_items(ops@).take(ops@.len() as int) =~= op_items(ops@));
    if !apply_items(storages, field_offsets, &items) {
        return Err(TraceError::OpOutOfRange);
    }
    Ok((t, events, ops))
}

} // verus!
