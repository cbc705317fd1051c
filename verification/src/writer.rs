//! Streaming writer for µScope traces.
//! Builds file header, preamble, and segments incrementally.

use vstd::prelude::*;
use vstd::hash_map::StringHashMap;
use vstd::string::StringSliceAdditionalSpecFns;
use vstd::utf8::encode_utf8;
use crate::checkpoint::{allocatable, FieldOffsets, Layout, StorageState, StorageView};
use crate::compress::{
    claimed_size, compressible, is_compressible, longest_blob, lz4_compress, unpacked,
};
use crate::error::TraceError;
use crate::frame::{
    all_sized, duration, frames_bytes, replayed, timed_items, write_frames, CycleFrame,
    CycleFrameView, FrameItem, FrameItemView,
};
use crate::schema::{Schema, SchemaView};
use crate::state::{
    after_item, after_items, all_wf, item_fits, items_fit, known_item, lemma_after_item_shape,
    lemma_after_items_join, lemma_after_items_shape, lemma_fits_shape, same_shapes, timed_op,
    TimedItemView,
};
use crate::trace::{
    active_frames, checkpoints, end_section, initial_states, layouts_of, preamble, segment_index,
    segments_bytes, segments_ok, states_after, string_data, string_indices, string_table_bytes,
    tail_offset, time_after, Recording, Segment, MAX_IMAGE,
};
use crate::types::{
    lemma_views_self, pad8, put_slice, put_zeros, zeros, DeltaOp, DutDesc, DutDescView, EventRecord,
    EventRecordView, FieldType, FileHeader, PreambleChunk, SectionEntry, SegmentHeader,
    SegmentIndexEntry, StorageDef, StorageDefView, StringIndex, StringTableHeader, TraceConfig,
    CHUNK_DUT_DESC, CHUNK_END, CHUNK_SCHEMA, CHUNK_TRACE_CONFIG, DA_SLOT_ADD, DA_SLOT_CLEAR,
    DA_SLOT_SET, F_COMPLETE, F_HAS_STRINGS, SECTION_END, SECTION_SEGMENTS, SECTION_STRINGS,
    SEG_MAGIC,
};
use crate::wire::{encode_all, lemma_join_assoc, views, write_all, Wire};

verus! {

broadcast use crate::bytes::group_le_len;

// ---------------------------------------------------------------------------
// String table.

/// String table builder for STRING_REF fields.
pub struct StringTable {
    entries: Vec<String>,
    index: StringHashMap<u32>,
}

/// The texts of some strings.
pub open spec fn string_texts(strings: Seq<String>) -> Seq<Seq<char>> {
    strings.map_values(|s: String| s@)
}

impl View for StringTable {
    type V = Seq<Seq<char>>;

    closed spec fn view(&self) -> Seq<Seq<char>> {
        string_texts(self.entries@)
    }
}

/// The table after `s` was inserted: a string is stored once.
pub open spec fn table_insert(strings: Seq<Seq<char>>, s: Seq<char>) -> Seq<Seq<char>> {
    if strings.contains(s) {
        strings
    } else {
        strings.push(s)
    }
}

/// Where `s` stands in a table that holds it: the place of its first insertion.
pub open spec fn table_place(strings: Seq<Seq<char>>, s: Seq<char>) -> int
    decreases strings.len(),
{
    if strings.len() > 0 && strings.drop_last().contains(s) {
        table_place(strings.drop_last(), s)
    } else {
        strings.len() - 1
    }
}

/// A string stands at its place.
pub proof fn law_table_place(strings: Seq<Seq<char>>, s: Seq<char>)
    requires
        strings.contains(s),
    ensures
        0 <= table_place(strings, s) < strings.len(),
        strings[table_place(strings, s)] == s,
    decreases strings.len(),
{
    let init = strings.drop_last();
    if init.contains(s) {
        law_table_place(init, s);
    } else {
        let i = choose|i: int| 0 <= i < strings.len() && strings[i] == s;
        if i < init.len() {
            assert(init[i] == s);
        }
    }
}

/// Inserting a string keeps every other at its place, and holds it.
pub proof fn law_table_insert(strings: Seq<Seq<char>>, s: Seq<char>, t: Seq<char>)
    ensures
        table_insert(strings, s).contains(s),
        strings.contains(t) ==> table_insert(strings, s).contains(t) && table_place(
            table_insert(strings, s),
            t,
        ) == table_place(strings, t),
        !strings.contains(s) ==> table_place(table_insert(strings, s), s) == strings.len(),
        table_insert(strings, s).contains(t) ==> strings.contains(t) || t == s,
{
    if !strings.contains(s) {
        let p = strings.push(s);
        assert(p.drop_last() =~= strings);
        assert(p[strings.len() as int] == s);
        if strings.contains(t) {
            let i = choose|i: int| 0 <= i < strings.len() && strings[i] == t;
            assert(p[i] == t);
        }
        if p.contains(t) && t != s {
            let i = choose|i: int| 0 <= i < p.len() && p[i] == t;
            assert(strings[i] == t);
        }
    }
}

impl StringTable {
    #[verifier::type_invariant]
    closed spec fn inv(self) -> bool {
        forall|s: Seq<char>|
            #![trigger self.index@.contains_key(s)]
            #![trigger self@.contains(s)]
            {
                &&& self.index@.contains_key(s) <==> self@.contains(s)
                &&& self.index@.contains_key(s) ==> self.index@[s] == table_place(self@, s) as u32
            }
    }

    /// An empty table.
    fn new() -> (t: StringTable)
        ensures
            t@ == Seq::<Seq<char>>::empty(),
    {
        let entries: Vec<String> = Vec::new();
        let index: StringHashMap<u32> = StringHashMap::new();
        assert(string_texts(entries@) =~= Seq::<Seq<char>>::empty());
        StringTable { entries, index }
    }

    /// Insert a string and return its index: that of its first insertion.
    pub fn insert(&mut self, s: &str) -> (idx: u32)
        ensures
            final(self)@ == table_insert(old(self)@, s@),
            final(self)@.contains(s@),
            idx == table_place(final(self)@, s@) as u32,
    {
        proof {
            use_type_invariant(&*self);
            assert(self.index@.contains_key(s@) <==> self@.contains(s@));
        }
        match self.index.get(s) {
            Some(idx) => return *idx,
            None => {},
        }
        let entries: Vec<String> = Vec::new();
        let index: StringHashMap<u32> = StringHashMap::new();
        assert(string_texts(entries@) =~= Seq::<Seq<char>>::empty());
        let mut spare = StringTable { entries, index };
        std::mem::swap(self, &mut spare);
        let StringTable { entries: mut entries, index: mut index } = spare;
        let idx: u32 = #[verifier::truncate] (entries.len() as u32);
        let ghost before = string_texts(entries@);
        let text: String = s.to_owned();
        index.insert(s.to_owned(), idx);
        entries.push(text);
        proof {
            let after = string_texts(entries@);
            assert(after =~= before.push(s@));
            law_table_insert(before, s@, s@);
            assert forall|t: Seq<char>|
                #![trigger index@.contains_key(t)]
                #![trigger after.contains(t)]
                {
                    &&& index@.contains_key(t) <==> after.contains(t)
                    &&& index@.contains_key(t) ==> index@[t] == table_place(after, t) as u32
                } by {
                assert(old(self).index@.contains_key(t) <==> before.contains(t));
                law_table_insert(before, s@, t);
            }
        }
        *self = StringTable { entries, index };
        idx
    }

    /// Appends the bytes of the table. Returns how many.
    fn write_to(&self, w: &mut Vec<u8>) -> (res: Result<usize, TraceError>)
        ensures
            if string_data(self@).len() > u32::MAX || self@.len() > u32::MAX {
                res == Err::<usize, TraceError>(TraceError::StringsTooLarge) && final(w)@ == old(w)@
            } else {
                res is Ok && res->Ok_0 == string_table_bytes(self@).len() && final(w)@ == old(w)@
                    + string_table_bytes(self@)
            },
    {
        let ghost all = self@;
        if self.entries.len() > u32::MAX as usize {
            return Err(TraceError::StringsTooLarge);
        }
        let mut data: Vec<u8> = Vec::new();
        let mut indices: Vec<StringIndex> = Vec::new();
        let mut i: usize = 0;
        assert(all.take(0) =~= Seq::<Seq<char>>::empty());
        while i < self.entries.len()
            invariant
                i <= self.entries@.len(),
                all == self@,
                self@.len() <= u32::MAX,
                data@ == string_data(all.take(i as int)),
                data@.len() <= u32::MAX,
                indices@ == string_indices(all).take(i as int),
                w@ == old(w)@,
            decreases self.entries@.len() - i,
        {
            let b = self.entries[i].as_str().as_bytes();
            proof {
                let next = all.take(i + 1);
                assert(next.drop_last() =~= all.take(i as int));
                assert(next.last() == self.entries@[i as int]@);
                lemma_string_data_prefix(all, i + 1);
                assert(b@ == encode_utf8(all[i as int]));
            }
            let len: usize = b.len();
            let before: usize = data.len();
            if len >= u32::MAX as usize || before > u32::MAX as usize - len - 1 {
                return Err(TraceError::StringsTooLarge);
            }
            indices.push(StringIndex { offset: before as u32, length: len as u32 });
            put_slice(&mut data, b);
            data.push(0);
            i = i + 1;
            proof {
                assert(data@ =~= string_data(all.take(i as int)));
                assert(indices@ =~= string_indices(all).take(i as int));
            }
        }
        assert(all.take(i as int) =~= all);
        assert(indices@ =~= string_indices(all));
        let ghost start = w@;
        let header = StringTableHeader { num_entries: self.entries.len() as u32, reserved: 0 };
        let mut section: Vec<u8> = Vec::new();
        header.write_to(&mut section);
        write_all::<StringIndex>(&indices, &mut section);
        put_slice(&mut section, data.as_slice());
        proof {
            lemma_views_self(indices@);
            assert(section@ =~= string_table_bytes(all));
        }
        put_slice(w, section.as_slice());
        Ok(section.len())
    }
}

proof fn lemma_string_data_prefix(s: Seq<Seq<char>>, n: int)
    requires
        0 <= n <= s.len(),
    ensures
        string_data(s.take(n)).len() <= string_data(s).len(),
    decreases s.len() - n,
{
    if n < s.len() {
        lemma_string_data_prefix(s, n + 1);
        assert(s.take(n + 1).drop_last() =~= s.take(n));
    } else {
        assert(s.take(n) =~= s);
    }
}

// ---------------------------------------------------------------------------
// Writer.

/// A buffered segment waiting to be flushed.
#[derive(Debug)]
struct SegmentBuffer {
    frames: Vec<CycleFrame>,
    time_start_ps: u64,
    time_end_ps: u64,
}

impl SegmentBuffer {
    fn new(time_start_ps: u64) -> (b: SegmentBuffer)
        ensures
            b.frames@.len() == 0,
            b.time_start_ps == time_start_ps,
            b.time_end_ps == time_start_ps,
    {
        SegmentBuffer { frames: Vec::new(), time_start_ps, time_end_ps: time_start_ps }
    }
}

/// What a `Writer` holds.
#[verifier::ext_equal]
pub struct WriterView {
    pub rec: Recording,
    /// The states of the storages at the start of the current segment.
    pub base: Seq<StorageView>,
    /// The items of the current cycle.
    pub items: Seq<FrameItemView>,
    /// When the current segment starts.
    pub start: u64,
    /// The time of the current cycle.
    pub time: u64,
    /// The time of the last cycle that ended.
    pub last_time: u64,
    pub next_checkpoint: u64,
    pub in_cycle: bool,
}

impl WriterView {
    pub open spec fn layouts(self) -> Seq<Layout> {
        layouts_of(self.rec.schema.storages)
    }

    /// The items of the frames of the current segment.
    pub open spec fn segment_items(self) -> Seq<TimedItemView> {
        replayed(self.rec.frames, self.start, None, self.base.len() as int).1
    }

    /// The items of the current cycle, as they will be read back.
    pub open spec fn cycle_items(self) -> Seq<TimedItemView> {
        timed_items(self.items, self.time, self.base.len() as int)
    }

    /// The states of the storages at the end of the last cycle.
    pub open spec fn settled_states(self) -> Seq<StorageView> {
        after_items(self.base, self.layouts(), self.segment_items())
    }

    /// The states of the storages now.
    pub open spec fn states(self) -> Seq<StorageView> {
        after_items(self.settled_states(), self.layouts(), self.cycle_items())
    }

    /// Everything but what belongs to the current cycle is in order.
    pub open spec fn settled(self) -> bool {
        let storages = self.rec.schema.storages;
        &&& segments_ok(storages, self.rec.segments)
        &&& self.base == states_after(storages, self.rec.segments)
        &&& self.start == time_after(self.rec.segments)
        &&& self.start + duration(self.rec.frames) == self.last_time
        &&& self.last_time <= self.time
        &&& forall|i: int|
            0 <= i < self.rec.frames.len() ==> (#[trigger] self.rec.frames[i]).encodable()
        &&& self.base.len() == storages.len()
        &&& all_wf(self.base)
        &&& items_fit(self.base, self.layouts(), self.segment_items())
        &&& self.rec.base() <= u32::MAX
        &&& 48 + self.rec.body().len() <= MAX_IMAGE + 0x4_0000_0000
        &&& self.rec.segments.len() <= u32::MAX
    }

    /// What belongs to the current cycle is in order.
    pub open spec fn pending_ok(self) -> bool {
        &&& all_sized(self.items)
        &&& items_fit(self.base, self.layouts(), self.cycle_items())
        &&& !self.in_cycle ==> self.items.len() == 0
    }

    /// The writer after `item` was recorded.
    pub open spec fn with_item(self, item: FrameItemView) -> WriterView {
        WriterView { items: self.items.push(item), ..self }
    }

    /// The writer after `s` was put into the string table.
    pub open spec fn with_string(self, s: Seq<char>) -> WriterView {
        WriterView {
            rec: Recording { strings: table_insert(self.rec.strings, s), ..self.rec },
            ..self
        }
    }

    /// The frame of the current cycle.
    pub open spec fn frame(self) -> CycleFrameView {
        CycleFrameView {
            time_delta: (self.time - self.last_time) as u64,
            items: self.items,
        }
    }

    /// The writer after the current cycle ended.
    pub open spec fn with_frame(self) -> WriterView {
        WriterView {
            rec: Recording { frames: self.rec.frames.push(self.frame()), ..self.rec },
            items: Seq::empty(),
            last_time: self.time,
            in_cycle: false,
            ..self
        }
    }

    /// The segment that the current frames make, with their compressed form.
    pub open spec fn segment(self, blob: Seq<u8>) -> Segment {
        Segment {
            start: self.start,
            end: self.last_time,
            checkpoint: self.base,
            frames: self.rec.frames,
            blob,
        }
    }

    /// What is recorded once the current frames are a segment.
    pub open spec fn flushed_recording(self, blob: Seq<u8>) -> Recording {
        Recording {
            segments: self.rec.segments.push(self.segment(blob)),
            frames: Seq::empty(),
            ..self.rec
        }
    }

    /// The writer after the current frames became a segment.
    pub open spec fn flushed(self, blob: Seq<u8>) -> WriterView {
        WriterView {
            rec: self.flushed_recording(blob),
            base: self.settled_states(),
            start: self.time,
            ..self
        }
    }

    /// Why the current frames cannot become a segment, if they cannot.
    pub open spec fn flush_error(self) -> Option<TraceError> {
        if !compressible(frames_bytes(self.rec.frames).len() as int) || checkpoints(
            self.base,
        ).len() > u32::MAX || self.rec.frames.len() > u32::MAX {
            Some(TraceError::SegmentTooLarge)
        } else if 48 + self.rec.body().len() > MAX_IMAGE || self.rec.segments.len() >= u32::MAX {
            Some(TraceError::TraceTooLarge)
        } else {
            None
        }
    }

    /// Whether `blob` is a compressed form of the current frames.
    pub open spec fn compresses_to(self, blob: Seq<u8>) -> bool {
        let raw = frames_bytes(self.rec.frames);
        &&& unpacked(blob) == Some(raw)
        &&& claimed_size(blob) == raw.len()
        &&& blob.len() <= longest_blob(raw.len() as int)
    }

    /// Whether `blob` is a compressed form of the current frames that fits in
    /// a segment.
    pub open spec fn packs(self, blob: Seq<u8>) -> bool {
        self.compresses_to(blob) && blob.len() <= u32::MAX
    }

    /// Whether `blob` is a compressed form of the current frames that is too
    /// long for a segment.
    pub open spec fn overfills(self, blob: Seq<u8>) -> bool {
        self.compresses_to(blob) && blob.len() > u32::MAX
    }

    /// Whether the current frames have come out too long.
    pub open spec fn overfull(self) -> bool {
        exists|blob: Seq<u8>| #[trigger] self.overfills(blob)
    }

    /// Whether the strings fit in a string table.
    pub open spec fn strings_fit(self) -> bool {
        string_data(self.rec.strings).len() <= u32::MAX && self.rec.strings.len() <= u32::MAX
    }
}

/// Streaming µScope trace writer.
pub struct Writer {
    header: FileHeader,
    /// Everything behind the file header.
    body: Vec<u8>,
    field_offsets: Vec<FieldOffsets>,
    checkpoint_interval_ps: u64,
    storage_states: Vec<StorageState>,
    /// The states at the start of the current segment.
    checkpoint_states: Vec<StorageState>,
    segment_buf: SegmentBuffer,
    current_items: Vec<FrameItem>,
    current_time_ps: u64,
    last_frame_time_ps: u64,
    in_cycle: bool,
    segment_index: Vec<SegmentIndexEntry>,
    next_checkpoint_ps: u64,
    /// The strings that events refer to.
    pub string_table: StringTable,
    dut: Ghost<DutDescView>,
    schema: Ghost<SchemaView>,
    segments: Ghost<Seq<Segment>>,
}

impl View for Writer {
    type V = WriterView;

    closed spec fn view(&self) -> WriterView {
        WriterView {
            rec: Recording {
                dut: self.dut@,
                schema: self.schema@,
                interval: self.checkpoint_interval_ps,
                segments: self.segments@,
                frames: views(self.segment_buf.frames@),
                strings: self.string_table@,
            },
            base: views(self.checkpoint_states@),
            items: views(self.current_items@),
            start: self.segment_buf.time_start_ps,
            time: self.current_time_ps,
            last_time: self.last_frame_time_ps,
            next_checkpoint: self.next_checkpoint_ps,
            in_cycle: self.in_cycle,
        }
    }
}

/// One more item, as it will be read back.
proof fn lemma_timed_items_push(items: Seq<FrameItemView>, item: FrameItemView, t: u64, n: int)
    ensures
        timed_items(items.push(item), t, n) == if known_item(item.at(t), n) {
            timed_items(items, t, n).push(item.at(t))
        } else {
            timed_items(items, t, n)
        },
{
    assert(items.push(item).drop_last() =~= items);
}

/// One more frame, as it will be read back.
pub proof fn lemma_replayed_push(
    frames: Seq<CycleFrameView>,
    f: CycleFrameView,
    time: u64,
    n: int,
)
    requires
        time + duration(frames) + f.time_delta <= u64::MAX,
    ensures
        duration(frames) >= 0,
        duration(frames.push(f)) == duration(frames) + f.time_delta,
        replayed(frames, time, None, n).0 == time + duration(frames),
        replayed(frames.push(f), time, None, n) == (
            (time + duration(frames) + f.time_delta) as u64,
            replayed(frames, time, None, n).1 + timed_items(
                f.items,
                (time + duration(frames) + f.time_delta) as u64,
                n,
            ),
        ),
    decreases frames.len(),
{
    let more = frames.push(f);
    assert(more.drop_last() =~= frames);
    if frames.len() == 0 {
        assert(more.drop_first() =~= Seq::<CycleFrameView>::empty());
        assert(frames =~= Seq::<CycleFrameView>::empty());
        let t = (time + f.time_delta) as u64;
        assert(replayed(more.drop_first(), t, None, n) == (t, Seq::<TimedItemView>::empty()));
        assert(replayed(more, time, None, n).1 =~= timed_items(f.items, t, n));
        assert(replayed(frames, time, None, n).1 + timed_items(f.items, t, n) =~= timed_items(
            f.items,
            t,
            n,
        ));
    } else {
        crate::frame::lemma_duration_front(frames);
        let t = (time + frames[0].time_delta) as u64;
        lemma_replayed_push(frames.drop_first(), f, t, n);
        assert(more.drop_first() =~= frames.drop_first().push(f));
        assert(more[0] == frames[0]);
        let a = timed_items(frames[0].items, t, n);
        let b = replayed(frames.drop_first(), t, None, n).1;
        let c = timed_items(f.items, (time + duration(frames) + f.time_delta) as u64, n);
        assert(a + (b + c) =~= (a + b) + c);
    }
}

impl Writer {
    /// The fields agree with each other.
    pub closed spec fn wf(&self) -> bool {
        &&& self.consistent()
        &&& self@.pending_ok()
        &&& views(self.storage_states@) == self@.states()
    }

    /// The fields agree with each other, but for the current cycle.
    closed spec fn consistent(&self) -> bool {
        let v = self@;
        &&& v.settled()
        &&& self.header == v.rec.header()
        &&& self.body@ == v.rec.body()
        &&& views(self.field_offsets@) == v.layouts()
        &&& self.segment_index@ == segment_index(v.rec.base(), v.rec.segments)
        &&& self.segment_buf.time_end_ps == v.last_time
    }

    /// What a writer that is in order promises of its view.
    pub proof fn lemma_wf(&self)
        requires
            self.wf(),
        ensures
            self@.settled(),
            self@.pending_ok(),
            all_wf(self@.states()),
            same_shapes(self@.base, self@.states()),
    {
        let v = self@;
        lemma_after_items_shape(v.base, v.layouts(), v.segment_items());
        lemma_items_fit_shape(v.base, v.settled_states(), v.layouts(), v.cycle_items());
        lemma_after_items_shape(v.settled_states(), v.layouts(), v.cycle_items());
    }

    /// Begin a new cycle at the given time, which is not before the last.
    pub fn begin_cycle(&mut self, time_ps: u64)
        requires
            old(self).wf(),
            !old(self)@.in_cycle,
            time_ps >= old(self)@.time,
        ensures
            final(self).wf(),
            final(self)@ == (WriterView { time: time_ps, in_cycle: true, ..old(self)@ }),
    {
        self.current_time_ps = time_ps;
        self.in_cycle = true;
        proof {
            let v = self@;
            let o = old(self)@;
            assert(v.items =~= Seq::<FrameItemView>::empty());
            assert(v.cycle_items() =~= o.cycle_items());
            assert(v =~= (WriterView { time: time_ps, in_cycle: true, ..o }));
        }
    }

    /// Records an operation and applies it.
    fn record_op(&mut self, op: DeltaOp)
        requires
            old(self).wf(),
            old(self)@.in_cycle,
            item_fits(
                old(self)@.base,
                old(self)@.layouts(),
                TimedItemView::Op(timed_op(op, old(self)@.time)),
            ),
            op.action == DA_SLOT_SET || op.action == DA_SLOT_CLEAR || op.action == DA_SLOT_ADD,
        ensures
            final(self).wf(),
            final(self)@ == old(self)@.with_item(FrameItemView::Op(op)),
    {
        let ghost o = self@;
        let ghost item = FrameItemView::Op(op);
        let ghost timed = item.at(o.time);
        let ghost n = o.base.len() as int;
        let ghost now = o.states();
        proof {
            self.lemma_wf();
            lemma_fits_shape(o.base, now, o.layouts(), timed);
            lemma_timed_items_push(o.items, item, o.time, n);
            lemma_after_item_shape(now, o.layouts(), timed);
        }
        let sid: usize = op.storage_id as usize;
        if sid < self.storage_states.len() {
            proof {
                assert(now[sid as int] == self.storage_states@[sid as int]@);
                assert(views(self.field_offsets@).len() == o.layouts().len());
                assert(o.layouts().len() == o.base.len());
                assert(sid < self.field_offsets@.len());
                assert(o.layouts()[sid as int] == self.field_offsets@[sid as int]@);
            }
            if op.action == DA_SLOT_SET {
                self.storage_states[sid].set_field_at(
                    op.slot_index,
                    &self.field_offsets[sid],
                    op.field_index,
                    op.value,
                );
            } else if op.action == DA_SLOT_CLEAR {
                self.storage_states[sid].clear_slot(op.slot_index);
            } else {
                self.storage_states[sid].add_field_at(
                    op.slot_index,
                    &self.field_offsets[sid],
                    op.field_index,
                    op.value,
                );
            }
        }
        proof {
            assert(views(self.storage_states@) =~= after_item(now, o.layouts(), timed));
        }
        let fi = FrameItem::Op(op);
        let ghost items0 = self.current_items@;
        self.current_items.push(fi);
        proof {
            let v = self@;
            assert(views(self.current_items@) =~= views(items0).push(item));
            assert(v =~= o.with_item(item));
            assert(v.settled_states() == o.settled_states());
            if known_item(timed, n) {
                let c = o.cycle_items();
                assert(c.push(timed).drop_last() =~= c);
                assert(v.states() == after_item(now, o.layouts(), timed));
                assert forall|i: int| 0 <= i < v.cycle_items().len() implies item_fits(
                    o.base,
                    o.layouts(),
                    #[trigger] v.cycle_items()[i],
                ) by {
                    if i < c.len() {
                        assert(v.cycle_items()[i] == c[i]);
                    }
                }
            } else {
                assert(after_item(now, o.layouts(), timed) == now);
            }
            assert forall|i: int| 0 <= i < v.items.len() implies (#[trigger] v.items[i]).sized() by {
                if i < o.items.len() {
                    assert(v.items[i] == o.items[i]);
                }
            }
        }
    }

    /// Insert a string into the string table and return its index.
    pub fn insert_string(&mut self, s: &str) -> (idx: u32)
        requires
            old(self).wf(),
        ensures
            final(self).wf(),
            final(self)@ == old(self)@.with_string(s@),
            idx == table_place(final(self)@.rec.strings, s@) as u32,
    {
        let ghost o = self@;
        let idx: u32 = self.string_table.insert(s);
        proof {
            assert(self@ =~= o.with_string(s@));
        }
        idx
    }

    /// Set a field value in a storage slot.
    pub fn slot_set(&mut self, storage_id: u16, slot: u16, field: u16, value: u64)
        requires
            old(self).wf(),
            old(self)@.in_cycle,
            storage_id < old(self)@.base.len() ==> old(self)@.base[storage_id as int].field_fits(
                slot,
                old(self)@.layouts()[storage_id as int],
                field,
            ),
        ensures
            final(self).wf(),
            final(self)@ == old(self)@.with_item(
                FrameItemView::Op(spec_op(DA_SLOT_SET, storage_id, slot, field, value)),
            ),
    {
        self.record_op(
            DeltaOp {
                action: DA_SLOT_SET,
                reserved: 0,
                storage_id,
                slot_index: slot,
                field_index: field,
                value,
            },
        );
    }

    /// Clear a slot in a storage.
    pub fn slot_clear(&mut self, storage_id: u16, slot: u16)
        requires
            old(self).wf(),
            old(self)@.in_cycle,
        ensures
            final(self).wf(),
            final(self)@ == old(self)@.with_item(
                FrameItemView::Op(spec_op(DA_SLOT_CLEAR, storage_id, slot, 0, 0)),
            ),
    {
        self.record_op(
            DeltaOp {
                action: DA_SLOT_CLEAR,
                reserved: 0,
                storage_id,
                slot_index: slot,
                field_index: 0,
                value: 0,
            },
        );
    }

    /// Add a value to a field in a storage slot.
    pub fn slot_add(&mut self, storage_id: u16, slot: u16, field: u16, value: u64)
        requires
            old(self).wf(),
            old(self)@.in_cycle,
            storage_id < old(self)@.base.len() ==> old(self)@.base[storage_id as int].field_fits(
                slot,
                old(self)@.layouts()[storage_id as int],
                field,
            ),
        ensures
            final(self).wf(),
            final(self)@ == old(self)@.with_item(
                FrameItemView::Op(spec_op(DA_SLOT_ADD, storage_id, slot, field, value)),
            ),
    {
        self.record_op(
            DeltaOp {
                action: DA_SLOT_ADD,
                reserved: 0,
                storage_id,
                slot_index: slot,
                field_index: field,
                value,
            },
        );
    }

    /// Emit an event with a pre-serialized payload.
    pub fn event(&mut self, event_type_id: u16, payload: &[u8])
        requires
            old(self).wf(),
            old(self)@.in_cycle,
            payload@.len() <= u32::MAX,
        ensures
            final(self).wf(),
            final(self)@ == old(self)@.with_item(
                FrameItemView::Event(spec_event(event_type_id, payload@)),
            ),
    {
        let ghost o = self@;
        let mut bytes: Vec<u8> = Vec::new();
        put_slice(&mut bytes, payload);
        assert(bytes@ =~= payload@);
        let fi = FrameItem::Event(
            EventRecord {
                event_type_id,
                reserved: 0,
                payload_size: payload.len() as u32,
                payload: bytes,
            },
        );
        let ghost item = fi@;
        let ghost items0 = self.current_items@;
        self.current_items.push(fi);
        proof {
            let v = self@;
            let n = o.base.len() as int;
            let timed = item.at(o.time);
            let c = o.cycle_items();
            assert(views(self.current_items@) =~= views(items0).push(item));
            assert(item =~= FrameItemView::Event(spec_event(event_type_id, payload@)));
            assert(v =~= o.with_item(item));
            lemma_timed_items_push(o.items, item, o.time, n);
            assert(c.push(timed).drop_last() =~= c);
            assert(v.states() == o.states());
            assert forall|i: int| 0 <= i < v.cycle_items().len() implies item_fits(
                o.base,
                o.layouts(),
                #[trigger] v.cycle_items()[i],
            ) by {
                if i < c.len() {
                    assert(v.cycle_items()[i] == c[i]);
                }
            }
            assert forall|i: int| 0 <= i < v.items.len() implies (#[trigger] v.items[i]).sized() by {
                if i < o.items.len() {
                    assert(v.items[i] == o.items[i]);
                }
            }
        }
    }
}

/// An operation as the writer records it.
pub open spec fn spec_op(
    action: u8,
    storage_id: u16,
    slot: u16,
    field: u16,
    value: u64,
) -> DeltaOp {
    DeltaOp {
        action,
        reserved: 0,
        storage_id,
        slot_index: slot,
        field_index: field,
        value,
    }
}

/// An event as the writer records it.
pub open spec fn spec_event(event_type_id: u16, payload: Seq<u8>) -> EventRecordView {
    EventRecordView {
        event_type_id,
        reserved: 0,
        payload_size: payload.len() as u32,
        payload,
    }
}

/// Whether items fit depends on the shapes of the storages alone.
pub proof fn lemma_items_fit_shape(
    a: Seq<StorageView>,
    b: Seq<StorageView>,
    ls: Seq<Layout>,
    items: Seq<TimedItemView>,
)
    requires
        same_shapes(a, b),
    ensures
        items_fit(a, ls, items) == items_fit(b, ls, items),
{
    if items_fit(a, ls, items) {
        assert forall|i: int| 0 <= i < items.len() implies item_fits(b, ls, #[trigger] items[i]) by {
            lemma_fits_shape(a, b, ls, items[i]);
        }
    }
    if items_fit(b, ls, items) {
        assert forall|i: int| 0 <= i < items.len() implies item_fits(a, ls, #[trigger] items[i]) by {
            lemma_fits_shape(a, b, ls, items[i]);
        }
    }
}

/// The writer of a trace in which nothing happened yet.
pub open spec fn fresh(dut: DutDescView, schema: SchemaView, interval: u64) -> WriterView {
    WriterView {
        rec: Recording {
            dut,
            schema,
            interval,
            segments: Seq::empty(),
            frames: Seq::empty(),
            strings: Seq::empty(),
        },
        base: initial_states(schema.storages),
        items: Seq::empty(),
        start: 0,
        time: 0,
        last_time: 0,
        next_checkpoint: interval,
        in_cycle: false,
    }
}

/// Whether the slots of every storage fit in memory.
pub open spec fn all_allocatable(storages: Seq<StorageDefView>) -> bool {
    forall|i: int| 0 <= i < storages.len() ==> allocatable(#[trigger] storages[i])
}

/// Why a trace cannot be started, if it cannot.
pub open spec fn create_error(dut: DutDescView, schema: SchemaView, interval: u64) -> Option<
    TraceError,
> {
    if 48 + preamble(dut, schema, interval).len() > u32::MAX {
        Some(TraceError::PreambleTooLarge)
    } else if !all_allocatable(schema.storages) {
        Some(TraceError::StorageTooLarge)
    } else {
        None
    }
}

/// Whether the slots of a storage fit in memory.
pub fn is_allocatable(def: &StorageDef) -> (b: bool)
    ensures
        b == allocatable(def@),
{
    let limit: usize = usize::MAX / 8;
    if def.fields.len() > limit || def.properties.len() > limit {
        return false;
    }
    match (def.num_slots as usize).checked_mul(def.slot_size()) {
        Some(_) => true,
        None => false,
    }
}

/// The initial states and the layouts of some storages.
pub fn init_storages(defs: &Vec<StorageDef>) -> (r: Option<(Vec<StorageState>, Vec<FieldOffsets>)>)
    ensures
        match r {
            Some((states, offsets)) => {
                &&& all_allocatable(views(defs@))
                &&& views(states@) == initial_states(views(defs@))
                &&& views(offsets@) == layouts_of(views(defs@))
                &&& all_wf(views(states@))
            },
            None => !all_allocatable(views(defs@)),
        },
{
    let ghost all = views(defs@);
    let mut states: Vec<StorageState> = Vec::new();
    let mut offsets: Vec<FieldOffsets> = Vec::new();
    let mut i: usize = 0;
    assert(views(states@) =~= initial_states(all).take(0));
    assert(views(offsets@) =~= layouts_of(all).take(0));
    while i < defs.len()
        invariant
            i <= defs@.len(),
            all == views(defs@),
            forall|j: int| 0 <= j < i ==> allocatable(#[trigger] all[j]),
            views(states@) == initial_states(all).take(i as int),
            views(offsets@) == layouts_of(all).take(i as int),
            all_wf(views(states@)),
        decreases defs@.len() - i,
    {
        assert(all[i as int] == defs@[i as int]@);
        if !is_allocatable(&defs[i]) {
            return None;
        }
        let state = StorageState::new(&defs[i]);
        let offset = FieldOffsets::from_storage_def(&defs[i]);
        let ghost s0 = states@;
        let ghost o0 = offsets@;
        states.push(state);
        offsets.push(offset);
        proof {
            assert(views(states@) =~= views(s0).push(state@));
            assert(views(offsets@) =~= views(o0).push(offset@));
            assert(views(states@) =~= initial_states(all).take(i + 1));
            assert(views(offsets@) =~= layouts_of(all).take(i + 1));
            assert forall|j: int| 0 <= j < views(states@).len() implies (
            #[trigger] views(states@)[j]).wf() by {
                if j < i {
                    assert(views(states@)[j] == views(s0)[j]);
                }
            }
        }
        i = i + 1;
    }
    assert(initial_states(all).take(i as int) =~= initial_states(all));
    assert(layouts_of(all).take(i as int) =~= layouts_of(all));
    Some((states, offsets))
}

/// A copy of some states.
fn clone_states(v: &Vec<StorageState>) -> (r: Vec<StorageState>)
    ensures
        views(r@) == views(v@),
{
    let mut r: Vec<StorageState> = Vec::new();
    let mut i: usize = 0;
    assert(views(r@) =~= views(v@).take(0));
    while i < v.len()
        invariant
            i <= v@.len(),
            views(r@) == views(v@).take(i as int),
        decreases v@.len() - i,
    {
        let ghost r0 = r@;
        let c = v[i].clone();
        r.push(c);
        i = i + 1;
        assert(views(r@) =~= views(r0).push(c@));
        assert(views(r@) =~= views(v@).take(i as int));
    }
    assert(views(v@).take(i as int) =~= views(v@));
    r
}

/// Appends the checkpoints of some storages.
fn write_checkpoints(states: &Vec<StorageState>, w: &mut Vec<u8>)
    requires
        all_wf(views(states@)),
    ensures
        final(w)@ == old(w)@ + checkpoints(views(states@)),
{
    let ghost all = views(states@);
    let types: Vec<FieldType> = Vec::new();
    let mut i: usize = 0;
    assert(all.take(0) =~= Seq::<StorageView>::empty());
    assert(w@ =~= old(w)@ + checkpoints(all.take(0)));
    while i < states.len()
        invariant
            i <= states@.len(),
            all == views(states@),
            all_wf(all),
            w@ == old(w)@ + checkpoints(all.take(i as int)),
        decreases states@.len() - i,
    {
        proof {
            assert(all.take(i + 1).drop_last() =~= all.take(i as int));
            assert(all.take(i + 1).last() == states@[i as int]@);
            assert(all[i as int].wf());
        }
        states[i].write_checkpoint(w, types.as_slice());
        i = i + 1;
        assert(w@ =~= old(w)@ + checkpoints(all.take(i as int)));
    }
    assert(all.take(i as int) =~= all);
}

/// How many of the frames have items.
fn count_active(frames: &Vec<CycleFrame>) -> (n: usize)
    ensures
        n == active_frames(views(frames@)),
        n <= frames@.len(),
{
    let ghost all = views(frames@);
    let mut n: usize = 0;
    let mut i: usize = 0;
    assert(all.take(0) =~= Seq::<CycleFrameView>::empty());
    while i < frames.len()
        invariant
            i <= frames@.len(),
            all == views(frames@),
            n == active_frames(all.take(i as int)),
            n <= i,
        decreases frames@.len() - i,
    {
        proof {
            assert(all.take(i + 1).drop_last() =~= all.take(i as int));
            assert(all.take(i + 1).last() == frames@[i as int]@);
        }
        if !frames[i].is_empty() {
            n = n + 1;
        }
        i = i + 1;
    }
    assert(all.take(i as int) =~= all);
    n
}

/// One more segment in the table.
pub proof fn lemma_segment_index_push(base: int, segments: Seq<Segment>, s: Segment)
    ensures
        segment_index(base, segments.push(s)) == segment_index(base, segments).push(
            SegmentIndexEntry {
                offset: (base + segments_bytes(base, segments).len()) as u64,
                time_start_ps: s.start,
                time_end_ps: s.end,
            },
        ),
        segments_bytes(base, segments.push(s)) == segments_bytes(base, segments) + s.bytes(
            tail_offset(base, segments),
        ),
        tail_offset(base, segments.push(s)) == (base + segments_bytes(base, segments).len()) as u64,
{
    let more = segments.push(s);
    assert(more.drop_last() =~= segments);
    assert forall|k: int| 0 <= k < more.len() implies segment_index(base, more)[k]
        == segment_index(base, segments).push(
        SegmentIndexEntry {
            offset: (base + segments_bytes(base, segments).len()) as u64,
            time_start_ps: s.start,
            time_end_ps: s.end,
        },
    )[k] by {
        if k < segments.len() {
            assert(more.take(k) =~= segments.take(k));
        } else {
            assert(more.take(k) =~= segments);
        }
    }
    assert(segment_index(base, more) =~= segment_index(base, segments).push(
        SegmentIndexEntry {
            offset: (base + segments_bytes(base, segments).len()) as u64,
            time_start_ps: s.start,
            time_end_ps: s.end,
        },
    ));
}

impl WriterView {
    /// Why the current cycle cannot end, if it cannot.
    pub open spec fn end_error(self) -> Option<TraceError> {
        if self.items.len() > u16::MAX {
            Some(TraceError::FrameTooLarge)
        } else if self.time < self.next_checkpoint {
            None
        } else if self.time + self.rec.interval > u64::MAX {
            Some(TraceError::TimeOverflow)
        } else {
            self.with_frame().flush_error()
        }
    }

    /// The writer after the current cycle ended and its segment was flushed.
    pub open spec fn ended(self, blob: Seq<u8>) -> WriterView {
        WriterView {
            next_checkpoint: (self.time + self.rec.interval) as u64,
            ..self.with_frame().flushed(blob)
        }
    }

    /// Whether the current cycle can fail to end with `e`.
    pub open spec fn fails_to_end(self, e: TraceError) -> bool {
        match self.end_error() {
            Some(cause) => e == cause,
            None => self.time >= self.next_checkpoint && e == TraceError::SegmentTooLarge
                && self.with_frame().overfull(),
        }
    }

    /// Whether closing the trace can fail with `e`.
    pub open spec fn fails_to_close(self, e: TraceError) -> bool {
        if self.rec.frames.len() == 0 {
            !self.strings_fit() && e == TraceError::StringsTooLarge
        } else {
            match self.flush_error() {
                Some(cause) => e == cause,
                None => {
                    ||| e == TraceError::SegmentTooLarge && self.overfull()
                    ||| e == TraceError::StringsTooLarge && !self.strings_fit()
                },
            }
        }
    }

    /// Whether closing the trace can give `img`.
    pub open spec fn closes_to(self, img: Seq<u8>) -> bool {
        &&& self.strings_fit()
        &&& if self.rec.frames.len() == 0 {
            img == self.rec.closed_image(self.time)
        } else {
            &&& self.flush_error() is None
            &&& exists|blob: Seq<u8>| #[trigger]
                self.packs(blob) && img == self.flushed_recording(blob).closed_image(self.time)
        }
    }
}

impl Writer {
    /// Create a new trace writer.
    pub fn create(dut: &DutDesc, schema: &Schema, checkpoint_interval_ps: u64) -> (res: Result<
        Writer,
        TraceError,
    >)
        ensures
            match create_error(dut@, schema@, checkpoint_interval_ps) {
                Some(e) => res == Err::<Writer, TraceError>(e),
                None => {
                    &&& res is Ok
                    &&& res->Ok_0.wf()
                    &&& res->Ok_0@ == fresh(dut@, schema@, checkpoint_interval_ps)
                },
            },
    {
        let mut dut_payload: Vec<u8> = Vec::new();
        dut.write_to(&mut dut_payload);
        let mut schema_payload: Vec<u8> = Vec::new();
        schema.write_to(&mut schema_payload);
        let config = TraceConfig { checkpoint_interval_ps };
        let mut config_payload: Vec<u8> = Vec::new();
        config.write_to(&mut config_payload);
        proof {
            assert(dut_payload@ =~= DutDesc::encode(dut@));
            assert(schema_payload@ =~= schema@.encode());
            assert(config_payload@ =~= TraceConfig::encode(config));
        }
        let mut body: Vec<u8> = Vec::new();
        PreambleChunk::new(CHUNK_DUT_DESC, dut_payload).write_to(&mut body);
        PreambleChunk::new(CHUNK_SCHEMA, schema_payload).write_to(&mut body);
        PreambleChunk::new(CHUNK_TRACE_CONFIG, config_payload).write_to(&mut body);
        let end_payload: Vec<u8> = Vec::new();
        assert(end_payload@ =~= Seq::<u8>::empty());
        PreambleChunk::new(CHUNK_END, end_payload).write_to(&mut body);
        assert(body@ =~= preamble(dut@, schema@, checkpoint_interval_ps));
        if body.len() > u32::MAX as usize - 48 {
            return Err(TraceError::PreambleTooLarge);
        }
        let (storage_states, field_offsets) = match init_storages(&schema.storages) {
            None => return Err(TraceError::StorageTooLarge),
            Some(p) => p,
        };
        let checkpoint_states = clone_states(&storage_states);
        let mut header = FileHeader::new();
        header.preamble_end = (48 + body.len()) as u32;
        let w = Writer {
            header,
            body,
            field_offsets,
            checkpoint_interval_ps,
            storage_states,
            checkpoint_states,
            segment_buf: SegmentBuffer::new(0),
            current_items: Vec::new(),
            current_time_ps: 0,
            last_frame_time_ps: 0,
            in_cycle: false,
            segment_index: Vec::new(),
            next_checkpoint_ps: checkpoint_interval_ps,
            string_table: StringTable::new(),
            dut: Ghost(dut@),
            schema: Ghost(schema@),
            segments: Ghost(Seq::empty()),
        };
        proof {
            let v = w@;
            assert(v.rec.frames =~= Seq::<CycleFrameView>::empty());
            assert(v.items =~= Seq::<FrameItemView>::empty());
            assert(v =~= fresh(dut@, schema@, checkpoint_interval_ps));
            assert(segments_bytes(v.rec.base(), v.rec.segments) =~= Seq::<u8>::empty());
            assert(w.body@ =~= v.rec.body());
            assert(w.segment_index@ =~= segment_index(v.rec.base(), v.rec.segments));
            assert(w.header == v.rec.header());
        }
        Ok(w)
    }

    /// Makes a segment of the current frames. The states, the times and the
    /// current cycle are left alone.
    fn append_segment(&mut self) -> (res: Result<Ghost<Seq<u8>>, TraceError>)
        requires
            old(self).consistent(),
            old(self)@.rec.frames.len() > 0,
        ensures
            match old(self)@.flush_error() {
                Some(e) => res == Err::<Ghost<Seq<u8>>, TraceError>(e) && *final(self) == *old(
                    self),
                None => if res is Err {
                    &&& res == Err::<Ghost<Seq<u8>>, TraceError>(TraceError::SegmentTooLarge)
                    &&& old(self)@.overfull()
                    &&& *final(self) == *old(self)
                } else {
                    &&& old(self)@.packs(res->Ok_0@)
                    &&& final(self)@ == (WriterView {
                        rec: old(self)@.flushed_recording(res->Ok_0@),
                        start: final(self)@.start,
                        ..old(self)@
                    })
                    &&& segments_ok(final(self)@.rec.schema.storages, final(self)@.rec.segments)
                    &&& final(self)@.rec.segments.len() <= u32::MAX
                    &&& 48 + final(self)@.rec.body().len() <= MAX_IMAGE + 0x4_0000_0000
                    &&& final(self).header == final(self)@.rec.header()
                    &&& final(self).body@ == final(self)@.rec.body()
                    &&& final(self).segment_index@ == segment_index(
                        final(self)@.rec.base(),
                        final(self)@.rec.segments,
                    )
                    &&& final(self).storage_states == old(self).storage_states
                    &&& final(self).field_offsets == old(self).field_offsets
                },
            },
    {
        let ghost o = self@;
        let mut raw: Vec<u8> = Vec::new();
        write_frames(&self.segment_buf.frames, &mut raw);
        let mut checkpoint_data: Vec<u8> = Vec::new();
        write_checkpoints(&self.checkpoint_states, &mut checkpoint_data);
        proof {
            assert(raw@ =~= frames_bytes(o.rec.frames));
            assert(checkpoint_data@ =~= checkpoints(o.base));
        }
        if !is_compressible(raw.len()) || checkpoint_data.len() > u32::MAX as usize
            || self.segment_buf.frames.len() > u32::MAX as usize {
            return Err(TraceError::SegmentTooLarge);
        }
        let body_len: u64 = self.body.len() as u64;
        if body_len > MAX_IMAGE - 48 || self.header.num_segments == u32::MAX {
            return Err(TraceError::TraceTooLarge);
        }
        let seg_offset: u64 = body_len + 48;
        let blob = lz4_compress(raw.as_slice());
        let ghost seg = o.segment(blob@);
        if blob.len() as u64 > u32::MAX as u64 {
            assert(o.overfills(blob@));
            return Err(TraceError::SegmentTooLarge);
        }
        let seg_header = SegmentHeader {
            segment_magic: SEG_MAGIC,
            flags: 0,
            time_start_ps: self.segment_buf.time_start_ps,
            time_end_ps: self.segment_buf.time_end_ps,
            prev_segment_offset: self.header.tail_offset,
            checkpoint_size: checkpoint_data.len() as u32,
            deltas_compressed_size: blob.len() as u32,
            deltas_raw_size: raw.len() as u32,
            num_frames: self.segment_buf.frames.len() as u32,
            num_frames_active: count_active(&self.segment_buf.frames) as u32,
            reserved: 0,
        };
        assert(seg_header == seg.header(tail_offset(o.rec.base(), o.rec.segments)));
        seg_header.write_to(&mut self.body);
        put_slice(&mut self.body, checkpoint_data.as_slice());
        put_slice(&mut self.body, blob.as_slice());
        self.segment_index.push(
            SegmentIndexEntry {
                offset: seg_offset,
                time_start_ps: self.segment_buf.time_start_ps,
                time_end_ps: self.segment_buf.time_end_ps,
            },
        );
        self.header.num_segments = self.header.num_segments + 1;
        self.header.tail_offset = seg_offset;
        self.segment_buf = SegmentBuffer::new(self.current_time_ps);
        self.segments = Ghost(self.segments@.push(seg));
        proof {
            let v = self@;
            let rec = o.flushed_recording(blob@);
            let base = o.rec.base();
            assert(views(self.segment_buf.frames@) =~= Seq::<CycleFrameView>::empty());
            assert(v.rec =~= rec);
            assert(rec.base() == base);
            lemma_segment_index_push(base, o.rec.segments, seg);
            let pre = preamble(rec.dut, rec.schema, rec.interval);
            let segs = segments_bytes(base, o.rec.segments);
            let bytes = seg.bytes(tail_offset(base, o.rec.segments));
            assert(self.body@ =~= (pre + segs) + bytes);
            lemma_join_assoc(pre, segs, bytes);
            assert(self.body@ == rec.body());
            assert(seg_offset == base + segs.len());
            assert(self.segment_index@ =~= segment_index(base, rec.segments));
            assert(rec.segments.drop_last() =~= o.rec.segments);
            assert(segments_ok(rec.schema.storages, rec.segments));
            assert(bytes.len() == 56 + checkpoint_data@.len() + blob@.len());
        }
        Ok(Ghost(blob@))
    }

    /// Flush the current segment buffer, if there is anything in it.
    fn flush_segment(&mut self) -> (res: Result<(), TraceError>)
        requires
            old(self).wf(),
            !old(self)@.in_cycle,
            old(self)@.time == old(self)@.last_time,
        ensures
            final(self).wf(),
            if old(self)@.rec.frames.len() == 0 {
                res is Ok && *final(self) == *old(self)
            } else {
                match old(self)@.flush_error() {
                    Some(e) => res == Err::<(), TraceError>(e) && *final(self) == *old(self),
                    None => if res is Err {
                        &&& res == Err::<(), TraceError>(TraceError::SegmentTooLarge)
                        &&& old(self)@.overfull()
                        &&& *final(self) == *old(self)
                    } else {
                        exists|blob: Seq<u8>| #[trigger]
                            old(self)@.packs(blob) && final(self)@ == old(self)@.flushed(blob)
                    },
                }
            },
    {
        if self.segment_buf.frames.len() == 0 {
            return Ok(());
        }
        let ghost o = self@;
        proof {
            self.lemma_wf();
            assert(o.items =~= Seq::<FrameItemView>::empty());
            assert(o.cycle_items() =~= Seq::<TimedItemView>::empty());
            assert(o.states() == o.settled_states());
            lemma_after_items_shape(o.base, o.layouts(), o.segment_items());
        }
        let blob = match self.append_segment() {
            Err(e) => return Err(e),
            Ok(b) => b,
        };
        self.checkpoint_states = clone_states(&self.storage_states);
        self.segment_buf = SegmentBuffer::new(self.current_time_ps);
        proof {
            let v = self@;
            assert(views(self.segment_buf.frames@) =~= Seq::<CycleFrameView>::empty());
            assert(v =~= o.flushed(blob@));
            assert(v.segment_items() =~= Seq::<TimedItemView>::empty());
            assert(v.cycle_items() =~= Seq::<TimedItemView>::empty());
            assert(v.states() == v.base);
            assert(v.rec.segments.last() == o.segment(blob@));
            assert(o.packs(blob@));
        }
        Ok(())
    }

    /// End the current cycle. Once the checkpoint interval has passed, the
    /// segment is flushed. A cycle with too many items stays open; where the
    /// segment cannot be flushed it is kept.
    pub fn end_cycle(&mut self) -> (res: Result<(), TraceError>)
        requires
            old(self).wf(),
            old(self)@.in_cycle,
        ensures
            final(self).wf(),
            match res {
                Err(e) => {
                    &&& old(self)@.fails_to_end(e)
                    &&& final(self)@ == if e == TraceError::FrameTooLarge {
                        old(self)@
                    } else {
                        old(self)@.with_frame()
                    }
                },
                Ok(()) => {
                    &&& old(self)@.end_error() is None
                    &&& if old(self)@.time < old(self)@.next_checkpoint {
                        final(self)@ == old(self)@.with_frame()
                    } else {
                        exists|blob: Seq<u8>| #[trigger]
                            old(self)@.with_frame().packs(blob) && final(self)@ == old(
                                self)@.ended(blob)
                    }
                },
            },
    {
        let ghost o = self@;
        if self.current_items.len() > u16::MAX as usize {
            return Err(TraceError::FrameTooLarge);
        }
        proof {
            self.lemma_wf();
        }
        let time_delta: u64 = self.current_time_ps - self.last_frame_time_ps;
        let mut items: Vec<FrameItem> = Vec::new();
        assert(views(items@) =~= Seq::<FrameItemView>::empty());
        std::mem::swap(&mut self.current_items, &mut items);
        let frame = CycleFrame { time_delta, items };
        let ghost frames0 = self.segment_buf.frames@;
        self.in_cycle = false;
        self.last_frame_time_ps = self.current_time_ps;
        self.segment_buf.time_end_ps = self.current_time_ps;
        self.segment_buf.frames.push(frame);
        proof {
            let v = self@;
            let n = o.base.len() as int;
            assert(frame@ =~= o.frame());
            assert(views(self.segment_buf.frames@) =~= views(frames0).push(frame@));
            assert(v =~= o.with_frame());
            assert(v.items =~= Seq::<FrameItemView>::empty());
            assert(v.cycle_items() =~= Seq::<TimedItemView>::empty());
            lemma_replayed_push(o.rec.frames, o.frame(), o.start, n);
            let a = o.segment_items();
            let b = o.cycle_items();
            assert(v.segment_items() == a + b);
            lemma_after_items_join(o.base, o.layouts(), a, b);
            assert(v.states() == o.states());
            assert forall|i: int| 0 <= i < (a + b).len() implies item_fits(
                o.base,
                o.layouts(),
                #[trigger] (a + b)[i],
            ) by {
                if i < a.len() {
                    assert((a + b)[i] == a[i]);
                } else {
                    assert((a + b)[i] == b[i - a.len()]);
                }
            }
            assert forall|i: int| 0 <= i < v.rec.frames.len() implies (
            #[trigger] v.rec.frames[i]).encodable() by {
                if i < o.rec.frames.len() {
                    assert(v.rec.frames[i] == o.rec.frames[i]);
                }
            }
            assert(self.wf());
        }
        if self.current_time_ps >= self.next_checkpoint_ps {
            if self.current_time_ps > u64::MAX - self.checkpoint_interval_ps {
                return Err(TraceError::TimeOverflow);
            }
            match self.flush_segment() {
                Err(e) => return Err(e),
                Ok(_) => {},
            }
            let ghost f = self@;
            self.next_checkpoint_ps = self.current_time_ps + self.checkpoint_interval_ps;
            proof {
                let blob = choose|blob: Seq<u8>| #[trigger]
                    o.with_frame().packs(blob) && f == o.with_frame().flushed(blob);
                let v = self@;
                assert(v =~= o.ended(blob));
                assert(v.segment_items() == f.segment_items());
                assert(v.states() == f.states());
                assert(o.with_frame().packs(blob));
            }
        }
        Ok(())
    }

    /// The trace as it is now: the header and all complete segments.
    pub fn image(&self) -> (img: Vec<u8>)
        requires
            self.wf(),
        ensures
            img@ == self@.rec.open_image(),
    {
        let mut img: Vec<u8> = Vec::new();
        self.header.write_to(&mut img);
        put_slice(&mut img, self.body.as_slice());
        assert(img@ =~= self@.rec.open_image());
        img
    }
}

/// A table entry takes 24 bytes.
proof fn lemma_segment_section_len(entries: Seq<SegmentIndexEntry>)
    ensures
        encode_all::<SegmentIndexEntry>(entries).len() == 24 * entries.len(),
    decreases entries.len(),
{
    reveal(encode_all);
    if entries.len() > 0 {
        lemma_segment_section_len(entries.drop_last());
    }
}

/// An index entry takes 8 bytes.
pub proof fn lemma_string_index_len(entries: Seq<StringIndex>)
    ensures
        encode_all::<StringIndex>(entries).len() == 8 * entries.len(),
    decreases entries.len(),
{
    reveal(encode_all);
    if entries.len() > 0 {
        lemma_string_index_len(entries.drop_last());
    }
}

/// How much the sections behind the segments take.
pub proof fn lemma_sections_bound(rec: Recording)
    requires
        rec.segments.len() <= u32::MAX,
        rec.strings.len() <= u32::MAX,
        string_data(rec.strings).len() <= u32::MAX,
    ensures
        rec.string_section().len() <= 0x10_0000_0000,
        rec.segment_section().len() == 24 * rec.segments.len(),
{
    lemma_segment_section_len(segment_index(rec.base(), rec.segments));
    lemma_string_index_len(string_indices(rec.strings));
}

/// Joining six sequences from the left or from the right.
proof fn lemma_join_six(
    a: Seq<u8>,
    b: Seq<u8>,
    c: Seq<u8>,
    d: Seq<u8>,
    e: Seq<u8>,
    f: Seq<u8>,
)
    ensures
        a + b + c + d + e + f == a + (b + (c + (d + (e + f)))),
{
    lemma_join_assoc(a, b, c);
    lemma_join_assoc(a, b + c, d);
    lemma_join_assoc(b, c, d);
    lemma_join_assoc(a, b + (c + d), e);
    lemma_join_assoc(b, c + d, e);
    lemma_join_assoc(c, d, e);
    lemma_join_assoc(a, b + (c + (d + e)), f);
    lemma_join_assoc(b, c + (d + e), f);
    lemma_join_assoc(c, d + e, f);
    lemma_join_assoc(d, e, f);
}

/// Appends the sections of a recording to its body. Returns their entries.
fn write_sections(
    out: &mut Vec<u8>,
    strings: &StringTable,
    index: &Vec<SegmentIndexEntry>,
    Ghost(rec): Ghost<Recording>,
) -> (res: Result<Vec<SectionEntry>, TraceError>)
    requires
        old(out)@ == rec.body(),
        strings@ == rec.strings,
        index@ == segment_index(rec.base(), rec.segments),
        rec.segments.len() <= u32::MAX,
        48 + rec.body().len() <= MAX_IMAGE + 0x4_0000_0000,
    ensures
        if string_data(rec.strings).len() > u32::MAX || rec.strings.len() > u32::MAX {
            res == Err::<Vec<SectionEntry>, TraceError>(TraceError::StringsTooLarge)
        } else {
            &&& res is Ok
            &&& res->Ok_0@ == rec.sections()
            &&& final(out)@ == rec.body() + rec.string_section() + rec.segment_section()
        },
{
    let mut sections: Vec<SectionEntry> = Vec::new();
    let strings_at: u64 = 48 + out.len() as u64;
    if strings.entries.len() != 0 {
        let size: usize = match strings.write_to(out) {
            Err(e) => return Err(e),
            Ok(n) => n,
        };
        sections.push(
            SectionEntry {
                section_type: SECTION_STRINGS,
                flags: 0,
                reserved: 0,
                offset: strings_at,
                size: size as u64,
            },
        );
    }
    assert(strings@.len() == strings.entries@.len());
    assert(out@ =~= rec.body() + rec.string_section());
    proof {
        if rec.strings.len() == 0 {
            assert(rec.strings =~= Seq::<Seq<char>>::empty());
        }
        lemma_sections_bound(rec);
    }
    let segments_at: u64 = 48 + out.len() as u64;
    let before: usize = out.len();
    write_all::<SegmentIndexEntry>(index, out);
    proof {
        lemma_views_self(index@);
    }
    if index.len() != 0 {
        sections.push(
            SectionEntry {
                section_type: SECTION_SEGMENTS,
                flags: 0,
                reserved: 0,
                offset: segments_at,
                size: (out.len() - before) as u64,
            },
        );
    }
    assert(sections@ =~= rec.sections());
    Ok(sections)
}

/// The finished trace of a recording whose body and sections are given.
fn finish(
    header: FileHeader,
    body: Vec<u8>,
    sections: &Vec<SectionEntry>,
    time: u64,
    Ghost(rec): Ghost<Recording>,
) -> (img: Vec<u8>)
    requires
        header == rec.header(),
        body@ == rec.body() + rec.string_section() + rec.segment_section(),
        sections@ == rec.sections(),
        body@.len() <= 0x5000_0000_0000_0000,
    ensures
        img@ == rec.closed_image(time),
{
    let mut out: Vec<u8> = body;
    let end: u64 = 48 + out.len() as u64;
    let pad: usize = ((8 - end % 8) % 8) as usize;
    put_zeros(&mut out, pad);
    let section_table_offset: u64 = end + pad as u64;
    write_all::<SectionEntry>(sections, &mut out);
    let last = SectionEntry { section_type: SECTION_END, flags: 0, reserved: 0, offset: 0, size: 0 };
    last.write_to(&mut out);
    let mut header: FileHeader = header;
    let mut has_strings: bool = false;
    let mut i: usize = 0;
    while i < sections.len()
        invariant
            i <= sections@.len(),
            sections@ == rec.sections(),
            has_strings == (i > 0 && rec.strings.len() != 0),
        decreases sections@.len() - i,
    {
        if sections[i].section_type == SECTION_STRINGS {
            has_strings = true;
        }
        i = i + 1;
    }
    if has_strings {
        header.flags = header.flags | F_HAS_STRINGS;
    }
    header.flags = header.flags | F_COMPLETE;
    header.total_time_ps = time;
    header.section_table_offset = section_table_offset;
    let mut img: Vec<u8> = Vec::new();
    header.write_to(&mut img);
    put_slice(&mut img, out.as_slice());
    proof {
        lemma_views_self(sections@);
        assert(rec.sections_end() == end);
        assert(header == rec.final_header(time));
        lemma_join_six(
            rec.body(),
            rec.string_section(),
            rec.segment_section(),
            zeros(pad8(rec.sections_end())),
            encode_all::<SectionEntry>(rec.sections()),
            SectionEntry::encode(end_section()),
        );
        assert(img@ =~= FileHeader::encode(header) + out@);
    }
    img
}

impl Writer {
    /// Finalize the trace: flush remaining data, write string table,
    /// segment table, and section table. Sets F_COMPLETE flag. What was
    /// recorded in a cycle that did not end is dropped.
    pub fn close(self) -> (res: Result<Vec<u8>, TraceError>)
        requires
            self.wf(),
        ensures
            match res {
                Ok(img) => self@.closes_to(img@),
                Err(e) => self@.fails_to_close(e),
            },
    {
        let ghost o = self@;
        let mut w = self;
        let ghost mut rec = o.rec;
        let ghost mut packed: Seq<u8> = Seq::empty();
        if w.segment_buf.frames.len() != 0 {
            match w.append_segment() {
                Err(e) => return Err(e),
                Ok(b) => {
                    proof {
                        packed = b@;
                        rec = o.flushed_recording(packed);
                    }
                },
            }
        }
        assert(w@.rec == rec);
        let mut out: Vec<u8> = w.body;
        let sections = match write_sections(
            &mut out,
            &w.string_table,
            &w.segment_index,
            Ghost(rec),
        ) {
            Err(e) => return Err(e),
            Ok(s) => s,
        };
        proof {
            lemma_sections_bound(rec);
        }
        let img = finish(w.header, out, &sections, w.current_time_ps, Ghost(rec));
        proof {
            if o.rec.frames.len() != 0 {
                assert(o.packs(packed));
            }
        }
        Ok(img)
    }
}

} // verus!
