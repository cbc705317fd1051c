//! Interleaved frames: the operations and events of a cycle, in the order in
//! which they were recorded, and their binary form.

use vstd::prelude::*;
use crate::bytes::{
    lemma_u16_at, lemma_u32_at, lemma_u64_at, put_u16, put_u32, put_u64, u16_bytes, u32_bytes,
    u64_bytes,
};
use crate::error::TraceError;
use crate::leb128::{encode_u64_vec, law_leb_len, law_leb_roundtrip, leb_bytes};
use crate::state::{
    known_item, parse_frames, parse_item, parse_items, parse_time, past, timed_event, timed_op,
    TimedItemView,
};
use crate::types::{
    put_slice, DeltaOp, EventRecord, EventRecordView, TAG_COMPACT_OP, TAG_EVENT, TAG_WIDE_OP,
};
use crate::wire::{lemma_join_assoc, lemma_suffix_join, lemma_suffix_suffix, views, Wire};

verus! {

broadcast use crate::bytes::group_le_len;

/// A single item in an interleaved frame.
#[derive(Debug)]
pub enum FrameItem {
    Op(DeltaOp),
    Event(EventRecord),
}

/// What a `FrameItem` holds.
#[verifier::ext_equal]
pub enum FrameItemView {
    Op(DeltaOp),
    Event(EventRecordView),
}

impl View for FrameItem {
    type V = FrameItemView;

    open spec fn view(&self) -> FrameItemView {
        match self {
            FrameItem::Op(op) => FrameItemView::Op(*op),
            FrameItem::Event(ev) => FrameItemView::Event(ev@),
        }
    }
}

impl FrameItemView {
    /// Whether the item is no operation, or one that has a short form.
    pub open spec fn compactable(self) -> bool {
        match self {
            FrameItemView::Op(op) => op.spec_to_compact() is Some,
            FrameItemView::Event(_) => true,
        }
    }

    /// Whether the item is no event, or one whose payload has the size it says.
    pub open spec fn sized(self) -> bool {
        match self {
            FrameItemView::Op(op) => true,
            FrameItemView::Event(ev) => ev.payload.len() == ev.payload_size,
        }
    }

    /// The bytes of the item, an operation in its short or its long form.
    pub open spec fn bytes(self, compact: bool) -> Seq<u8> {
        match self {
            FrameItemView::Op(op) => if compact {
                seq![TAG_COMPACT_OP, op.action, op.storage_id as u8] + u16_bytes(op.slot_index)
                    + u16_bytes(op.field_index) + u16_bytes(op.value as u16)
            } else {
                seq![TAG_WIDE_OP, op.action] + u16_bytes(op.storage_id) + u16_bytes(op.slot_index)
                    + u16_bytes(op.field_index) + u64_bytes(op.value)
            },
            FrameItemView::Event(ev) => seq![TAG_EVENT, 0u8] + u16_bytes(ev.event_type_id)
                + u32_bytes(ev.payload_size) + ev.payload,
        }
    }

    /// The item as it happened at time `t`.
    pub open spec fn at(self, t: u64) -> TimedItemView {
        match self {
            FrameItemView::Op(op) => TimedItemView::Op(timed_op(op, t)),
            FrameItemView::Event(ev) => TimedItemView::Event(timed_event(ev, t)),
        }
    }
}

/// The items of a cycle.
#[derive(Debug)]
pub struct CycleFrame {
    /// How long after the cycle before.
    pub time_delta: u64,
    pub items: Vec<FrameItem>,
}

/// What a `CycleFrame` holds.
#[verifier::ext_equal]
pub struct CycleFrameView {
    pub time_delta: u64,
    pub items: Seq<FrameItemView>,
}

impl View for CycleFrame {
    type V = CycleFrameView;

    open spec fn view(&self) -> CycleFrameView {
        CycleFrameView { time_delta: self.time_delta, items: views(self.items@) }
    }
}

/// Whether every operation among the items has a short form.
pub open spec fn all_compact(items: Seq<FrameItemView>) -> bool {
    forall|i: int| 0 <= i < items.len() ==> (#[trigger] items[i]).compactable()
}

/// Whether every event among the items has the size it says.
pub open spec fn all_sized(items: Seq<FrameItemView>) -> bool {
    forall|i: int| 0 <= i < items.len() ==> (#[trigger] items[i]).sized()
}

/// The bytes of some items.
pub open spec fn items_bytes(items: Seq<FrameItemView>, compact: bool) -> Seq<u8>
    decreases items.len(),
{
    if items.len() == 0 {
        Seq::empty()
    } else {
        items_bytes(items.drop_last(), compact) + items.last().bytes(compact)
    }
}

impl CycleFrameView {
    /// The bytes of the frame: its time, the number of its items, and the
    /// items. Operations have their short form if every one of them has one.
    pub open spec fn bytes(self) -> Seq<u8> {
        leb_bytes(self.time_delta as nat) + u16_bytes(self.items.len() as u16) + items_bytes(
            self.items,
            all_compact(self.items),
        )
    }

    /// Whether the number of its items fits in its place.
    pub open spec fn encodable(self) -> bool {
        self.items.len() <= u16::MAX && all_sized(self.items)
    }
}

/// The bytes of some frames.
pub open spec fn frames_bytes(frames: Seq<CycleFrameView>) -> Seq<u8>
    decreases frames.len(),
{
    if frames.len() == 0 {
        Seq::empty()
    } else {
        frames_bytes(frames.drop_last()) + frames.last().bytes()
    }
}

impl FrameItem {
    /// Appends the bytes of the item.
    fn write(&self, w: &mut Vec<u8>, compact: bool)
        ensures
            final(w)@ == old(w)@ + self@.bytes(compact),
    {
        match self {
            FrameItem::Op(op) => {
                if compact {
                    w.push(TAG_COMPACT_OP);
                    w.push(op.action);
                    w.push(op.storage_id as u8);
                    put_u16(w, op.slot_index);
                    put_u16(w, op.field_index);
                    put_u16(w, op.value as u16);
                } else {
                    w.push(TAG_WIDE_OP);
                    w.push(op.action);
                    put_u16(w, op.storage_id);
                    put_u16(w, op.slot_index);
                    put_u16(w, op.field_index);
                    put_u64(w, op.value);
                }
            },
            FrameItem::Event(ev) => {
                w.push(TAG_EVENT);
                w.push(0);
                put_u16(w, ev.event_type_id);
                put_u32(w, ev.payload_size);
                put_slice(w, ev.payload.as_slice());
            },
        }
        assert(w@ =~= old(w)@ + self@.bytes(compact));
    }
}

impl CycleFrame {
    /// Whether the frame has no items.
    pub fn is_empty(&self) -> (b: bool)
        ensures
            b == (self@.items.len() == 0),
    {
        self.items.len() == 0
    }

    /// The operations of the frame, in their order.
    pub fn ops(&self) -> (r: Vec<DeltaOp>)
        ensures
            r@ == frame_ops(self@.items),
    {
        let mut r: Vec<DeltaOp> = Vec::new();
        let mut i: usize = 0;
        let ghost all = self@.items;
        assert(all.take(0) =~= Seq::<FrameItemView>::empty());
        while i < self.items.len()
            invariant
                i <= self.items@.len(),
                all == self@.items,
                r@ == frame_ops(all.take(i as int)),
            decreases self.items@.len() - i,
        {
            proof {
                assert(all.take(i + 1).drop_last() =~= all.take(i as int));
                assert(all.take(i + 1).last() == self.items@[i as int]@);
            }
            match &self.items[i] {
                FrameItem::Op(op) => r.push(*op),
                FrameItem::Event(_) => {},
            }
            i = i + 1;
        }
        assert(all.take(i as int) =~= all);
        r
    }

    /// Appends the bytes of the frame.
    pub fn write(&self, w: &mut Vec<u8>)
        ensures
            final(w)@ == old(w)@ + self@.bytes(),
    {
        let ops = self.ops();
        let mut compact: bool = true;
        let mut i: usize = 0;
        while i < ops.len()
            invariant
                i <= ops@.len(),
                compact == forall|j: int|
                    0 <= j < i ==> (#[trigger] ops@[j]).spec_to_compact() is Some,
            decreases ops@.len() - i,
        {
            match ops[i].to_compact() {
                Some(_) => {},
                None => {
                    compact = false;
                },
            }
            i = i + 1;
        }
        let ghost all = self@.items;
        proof {
            lemma_frame_ops(all);
            assert(compact == all_compact(all));
        }
        encode_u64_vec(self.time_delta, w);
        put_u16(w, self.items.len() as u16);
        let ghost head = w@;
        let mut k: usize = 0;
        assert(all.take(0) =~= Seq::<FrameItemView>::empty());
        assert(w@ =~= head + items_bytes(all.take(0), compact));
        while k < self.items.len()
            invariant
                k <= self.items@.len(),
                all == self@.items,
                w@ == head + items_bytes(all.take(k as int), compact),
            decreases self.items@.len() - k,
        {
            proof {
                assert(all.take(k + 1).drop_last() =~= all.take(k as int));
                assert(all.take(k + 1).last() == self.items@[k as int]@);
            }
            self.items[k].write(w, compact);
            k = k + 1;
            assert(w@ =~= head + items_bytes(all.take(k as int), compact));
        }
        assert(all.take(k as int) =~= all);
        assert(w@ =~= old(w)@ + self@.bytes());
    }
}

/// The operations among some items, in their order.
pub open spec fn frame_ops(items: Seq<FrameItemView>) -> Seq<DeltaOp>
    decreases items.len(),
{
    if items.len() == 0 {
        Seq::empty()
    } else {
        let before = frame_ops(items.drop_last());
        match items.last() {
            FrameItemView::Op(op) => before.push(op),
            FrameItemView::Event(_) => before,
        }
    }
}

proof fn lemma_frame_ops(items: Seq<FrameItemView>)
    ensures
        all_compact(items) == (forall|j: int|
            0 <= j < frame_ops(items).len() ==> (#[trigger] frame_ops(items)[j]).spec_to_compact()
                is Some),
    decreases items.len(),
{
    if items.len() > 0 {
        let init = items.drop_last();
        let ops = frame_ops(items);
        let before = frame_ops(init);
        lemma_frame_ops(init);
        assert(all_compact(items) == (all_compact(init) && items.last().compactable())) by {
            if all_compact(init) && items.last().compactable() {
                assert forall|i: int| 0 <= i < items.len() implies (
                #[trigger] items[i]).compactable() by {
                    if i < init.len() {
                        assert(init[i] == items[i]);
                    }
                }
            }
            if all_compact(items) {
                assert(items[items.len() - 1].compactable());
                assert forall|i: int| 0 <= i < init.len() implies (
                #[trigger] init[i]).compactable() by {
                    assert(init[i] == items[i]);
                }
            }
        }
        match items.last() {
            FrameItemView::Op(op) => {
                assert(ops =~= before.push(op));
                assert forall|j: int| 0 <= j < before.len() implies before[j] == ops[j] by {}
                assert(ops[before.len() as int] == op);
                if all_compact(init) && op.spec_to_compact() is Some {
                    assert forall|j: int| 0 <= j < ops.len() implies (
                    #[trigger] ops[j]).spec_to_compact() is Some by {
                        if j < before.len() {
                            assert(before[j].spec_to_compact() is Some);
                        }
                    }
                }
                if forall|j: int|
                    0 <= j < ops.len() ==> (#[trigger] ops[j]).spec_to_compact() is Some {
                    assert(ops[before.len() as int].spec_to_compact() is Some);
                    assert forall|j: int| 0 <= j < before.len() implies (
                    #[trigger] before[j]).spec_to_compact() is Some by {
                        assert(ops[j].spec_to_compact() is Some);
                    }
                }
            },
            FrameItemView::Event(_) => {},
        }
    }
}

/// Appends the bytes of some frames.
pub fn write_frames(frames: &Vec<CycleFrame>, w: &mut Vec<u8>)
    ensures
        final(w)@ == old(w)@ + frames_bytes(views(frames@)),
{
    let ghost all = views(frames@);
    let mut i: usize = 0;
    assert(all.take(0) =~= Seq::<CycleFrameView>::empty());
    assert(w@ =~= old(w)@ + frames_bytes(all.take(0)));
    while i < frames.len()
        invariant
            i <= frames@.len(),
            all == views(frames@),
            w@ == old(w)@ + frames_bytes(all.take(i as int)),
        decreases frames@.len() - i,
    {
        proof {
            assert(all.take(i + 1).drop_last() =~= all.take(i as int));
            assert(all.take(i + 1).last() == frames@[i as int]@);
        }
        frames[i].write(w);
        i = i + 1;
        assert(w@ =~= old(w)@ + frames_bytes(all.take(i as int)));
    }
    assert(all.take(i as int) =~= all);
}

// ---------------------------------------------------------------------------
// Reading frames back.

/// The items of a frame as they happened at time `t`, without operations on a
/// storage that is not one of `n`.
pub open spec fn timed_items(items: Seq<FrameItemView>, t: u64, n: int) -> Seq<TimedItemView>
    decreases items.len(),
{
    if items.len() == 0 {
        Seq::empty()
    } else {
        let before = timed_items(items.drop_last(), t, n);
        let item = items.last().at(t);
        if known_item(item, n) {
            before.push(item)
        } else {
            before
        }
    }
}

/// What the frames hold, up to the first past the target time: the time of
/// the last frame looked at, and the items. `time` is that of the frame before.
pub open spec fn replayed(
    frames: Seq<CycleFrameView>,
    time: u64,
    target: Option<u64>,
    n: int,
) -> (u64, Seq<TimedItemView>)
    decreases frames.len(),
{
    if frames.len() == 0 {
        (time, Seq::empty())
    } else {
        let t = (time + frames[0].time_delta) as u64;
        if past(t, target) {
            (t, Seq::empty())
        } else {
            let (end, more) = replayed(frames.drop_first(), t, target, n);
            (end, timed_items(frames[0].items, t, n) + more)
        }
    }
}

/// How long some frames last.
pub open spec fn duration(frames: Seq<CycleFrameView>) -> int
    decreases frames.len(),
{
    if frames.len() == 0 {
        0
    } else {
        duration(frames.drop_last()) + frames.last().time_delta
    }
}

/// An item is read back as it was written, whatever follows it.
pub proof fn law_item_roundtrip(item: FrameItemView, compact: bool, t: u64, rest: Seq<u8>)
    requires
        compact ==> item.compactable(),
        item.sized(),
    ensures
        parse_item(item.bytes(compact) + rest, t) == Ok::<(TimedItemView, int), TraceError>(
            (item.at(t), item.bytes(compact).len() as int),
        ),
{
    let s = item.bytes(compact) + rest;
    match item {
        FrameItemView::Op(op) => {
            if compact {
                assert(s[0] == TAG_COMPACT_OP);
                assert(s[1] == op.action);
                assert(s[2] == op.storage_id as u8);
                assert(s.subrange(3, 5) =~= u16_bytes(op.slot_index));
                lemma_u16_at(s, 3, op.slot_index);
                assert(s.subrange(5, 7) =~= u16_bytes(op.field_index));
                lemma_u16_at(s, 5, op.field_index);
                assert(s.subrange(7, 9) =~= u16_bytes(op.value as u16));
                lemma_u16_at(s, 7, op.value as u16);
            } else {
                assert(s[0] == TAG_WIDE_OP);
                assert(s[1] == op.action);
                assert(s.subrange(2, 4) =~= u16_bytes(op.storage_id));
                lemma_u16_at(s, 2, op.storage_id);
                assert(s.subrange(4, 6) =~= u16_bytes(op.slot_index));
                lemma_u16_at(s, 4, op.slot_index);
                assert(s.subrange(6, 8) =~= u16_bytes(op.field_index));
                lemma_u16_at(s, 6, op.field_index);
                assert(s.subrange(8, 16) =~= u64_bytes(op.value));
                lemma_u64_at(s, 8, op.value);
            }
        },
        FrameItemView::Event(ev) => {
            assert(s[0] == TAG_EVENT);
            assert(s.subrange(2, 4) =~= u16_bytes(ev.event_type_id));
            lemma_u16_at(s, 2, ev.event_type_id);
            assert(s.subrange(4, 8) =~= u32_bytes(ev.payload_size));
            lemma_u32_at(s, 4, ev.payload_size);
            assert(s.subrange(8, 8 + ev.payload_size as int) =~= ev.payload);
        },
    }
}

/// The items of a frame are read back in the order in which they were
/// written, but for operations on storages that do not exist.
pub proof fn law_items_roundtrip(
    items: Seq<FrameItemView>,
    compact: bool,
    t: u64,
    n: int,
    rest: Seq<u8>,
)
    requires
        compact ==> all_compact(items),
        all_sized(items),
    ensures
        parse_items(items_bytes(items, compact) + rest, t, items.len(), n) == Ok::<
            (Seq<TimedItemView>, int),
            TraceError,
        >((timed_items(items, t, n), items_bytes(items, compact).len() as int)),
    decreases items.len(),
{
    if items.len() > 0 {
        let init = items.drop_last();
        let last = items.last();
        assert(last == items[items.len() - 1]);
        assert forall|i: int| 0 <= i < init.len() implies (#[trigger] init[i]).sized() by {
            assert(init[i] == items[i]);
        }
        if compact {
            assert forall|i: int| 0 <= i < init.len() implies (
            #[trigger] init[i]).compactable() by {
                assert(init[i] == items[i]);
            }
        }
        let front = items_bytes(init, compact);
        let tail = last.bytes(compact) + rest;
        law_items_roundtrip(init, compact, t, n, tail);
        lemma_join_assoc(front, last.bytes(compact), rest);
        lemma_suffix_join(front, tail);
        law_item_roundtrip(last, compact, t, rest);
    }
}

proof fn lemma_frames_bytes_front(frames: Seq<CycleFrameView>)
    requires
        frames.len() > 0,
    ensures
        frames_bytes(frames) == frames[0].bytes() + frames_bytes(frames.drop_first()),
    decreases frames.len(),
{
    let rest = frames.drop_first();
    if rest.len() == 0 {
        assert(frames.drop_last() =~= Seq::<CycleFrameView>::empty());
        assert(frames_bytes(frames.drop_last()) =~= Seq::<u8>::empty());
        assert(frames_bytes(frames) =~= frames[0].bytes() + frames_bytes(rest));
    } else {
        let init = frames.drop_last();
        lemma_frames_bytes_front(init);
        assert(init.drop_first() =~= rest.drop_last());
        lemma_join_assoc(frames[0].bytes(), frames_bytes(rest.drop_last()), rest.last().bytes());
    }
}

pub proof fn lemma_duration_front(frames: Seq<CycleFrameView>)
    requires
        frames.len() > 0,
    ensures
        duration(frames) == frames[0].time_delta + duration(frames.drop_first()),
        duration(frames.drop_first()) >= 0,
    decreases frames.len(),
{
    let rest = frames.drop_first();
    if rest.len() == 0 {
        assert(frames.drop_last() =~= Seq::<CycleFrameView>::empty());
        assert(duration(frames.drop_last()) == 0);
        assert(duration(rest) == 0);
    } else {
        lemma_duration_front(frames.drop_last());
        assert(frames.drop_last().drop_first() =~= rest.drop_last());
    }
}

/// Frames are read back as they were written: the same items in the same
/// order at the same times, up to the target time.
pub proof fn law_frames_roundtrip(
    frames: Seq<CycleFrameView>,
    time: u64,
    target: Option<u64>,
    n: int,
)
    requires
        forall|i: int| 0 <= i < frames.len() ==> (#[trigger] frames[i]).encodable(),
        time + duration(frames) <= u64::MAX,
    ensures
        parse_frames(frames_bytes(frames), time, target, n) == Ok::<
            (u64, Seq<TimedItemView>),
            TraceError,
        >(replayed(frames, time, target, n)),
    decreases frames.len(),
{
    if frames.len() > 0 {
        let f = frames[0];
        let more = frames.drop_first();
        let s = frames_bytes(frames);
        let rest = frames_bytes(more);
        lemma_frames_bytes_front(frames);
        lemma_duration_front(frames);
        let lead = leb_bytes(f.time_delta as nat);
        let count = u16_bytes(f.items.len() as u16);
        let compact = all_compact(f.items);
        let body = items_bytes(f.items, compact);
        let k = lead.len() as int;
        law_leb_len(f.time_delta);
        law_leb_roundtrip(f.time_delta, count + (body + rest));
        lemma_join_assoc(lead + count, body, rest);
        lemma_join_assoc(lead, count, body + rest);
        assert(s == lead + (count + (body + rest)));
        let t = (time + f.time_delta) as u64;
        assert(parse_time(s, time) == Ok::<(u64, int), TraceError>((t, k)));
        if !past(t, target) {
            assert(s.subrange(k, k + 2) =~= count);
            lemma_u16_at(s, k, f.items.len() as u16);
            assert(s == (lead + count) + (body + rest));
            lemma_suffix_join(lead + count, body + rest);
            assert(f.encodable());
            law_items_roundtrip(f.items, compact, t, n, rest);
            let m = body.len() as int;
            lemma_suffix_join(body, rest);
            lemma_suffix_suffix(s, k + 2, m);
            assert forall|i: int| 0 <= i < more.len() implies (#[trigger] more[i]).encodable() by {
                assert(more[i] == frames[i + 1]);
            }
            law_frames_roundtrip(more, t, target, n);
        }
    }
}

} // verus!
