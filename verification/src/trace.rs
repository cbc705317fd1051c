//! The bytes of a whole trace: header, preamble, segments, and the tables
//! behind them.

use vstd::prelude::*;
use vstd::utf8::encode_utf8;
use crate::checkpoint::{initial_state, layout_of, Layout, StorageView};
use crate::compress::{compressible, unpacked};
use crate::frame::{duration, frames_bytes, replayed, CycleFrameView};
use crate::schema::SchemaView;
use crate::state::{after_items, items_fit};
use crate::types::{
    pad8, spec_new_header, zeros, DutDesc, DutDescView, FileHeader, PreambleChunk,
    PreambleChunkView, SectionEntry, SegmentHeader, SegmentIndexEntry, StorageDefView, StringIndex,
    StringTableHeader, TraceConfig, CHUNK_DUT_DESC, CHUNK_END, CHUNK_SCHEMA, CHUNK_TRACE_CONFIG,
    F_COMPLETE, F_HAS_STRINGS, SECTION_END, SECTION_SEGMENTS, SECTION_STRINGS, SEG_MAGIC,
};
use crate::wire::{encode_all, Wire};

verus! {

/// A chunk of the preamble.
pub open spec fn chunk(chunk_type: u16, payload: Seq<u8>) -> Seq<u8> {
    PreambleChunk::encode(PreambleChunkView { chunk_type, flags: 0, payload })
}

/// The preamble: design under test, schema, configuration, end mark.
pub open spec fn preamble(dut: DutDescView, schema: SchemaView, interval: u64) -> Seq<u8> {
    chunk(CHUNK_DUT_DESC, DutDesc::encode(dut)) + (chunk(CHUNK_SCHEMA, schema.encode()) + (chunk(
        CHUNK_TRACE_CONFIG,
        TraceConfig::encode(TraceConfig { checkpoint_interval_ps: interval }),
    ) + chunk(CHUNK_END, Seq::empty())))
}

/// The layouts of all storages.
pub open spec fn layouts_of(storages: Seq<StorageDefView>) -> Seq<Layout> {
    storages.map_values(|d: StorageDefView| layout_of(d))
}

/// The states of all storages before anything happened.
pub open spec fn initial_states(storages: Seq<StorageDefView>) -> Seq<StorageView> {
    storages.map_values(|d: StorageDefView| initial_state(d))
}

/// The checkpoints of some storages, one after the other.
pub open spec fn checkpoints(st: Seq<StorageView>) -> Seq<u8>
    decreases st.len(),
{
    if st.len() == 0 {
        Seq::empty()
    } else {
        checkpoints(st.drop_last()) + st.last().checkpoint()
    }
}

/// A segment: the state it starts from, its frames, and the compressed form
/// of the frames.
#[verifier::ext_equal]
pub struct Segment {
    pub start: u64,
    pub end: u64,
    pub checkpoint: Seq<StorageView>,
    pub frames: Seq<CycleFrameView>,
    pub blob: Seq<u8>,
}

/// How many of the frames have items.
pub open spec fn active_frames(frames: Seq<CycleFrameView>) -> nat
    decreases frames.len(),
{
    if frames.len() == 0 {
        0
    } else {
        active_frames(frames.drop_last()) + if frames.last().items.len() == 0 {
            0nat
        } else {
            1nat
        }
    }
}

/// How large a trace may be before another segment is added.
pub const MAX_IMAGE: u64 = 0x4000_0000_0000_0000;

impl Segment {
    /// The header of the segment, `prev` being where the one before starts.
    pub open spec fn header(self, prev: u64) -> SegmentHeader {
        SegmentHeader {
            segment_magic: SEG_MAGIC,
            flags: 0,
            time_start_ps: self.start,
            time_end_ps: self.end,
            prev_segment_offset: prev,
            checkpoint_size: checkpoints(self.checkpoint).len() as u32,
            deltas_compressed_size: self.blob.len() as u32,
            deltas_raw_size: frames_bytes(self.frames).len() as u32,
            num_frames: self.frames.len() as u32,
            num_frames_active: active_frames(self.frames) as u32,
            reserved: 0,
        }
    }

    /// The bytes of the segment.
    pub open spec fn bytes(self, prev: u64) -> Seq<u8> {
        SegmentHeader::encode(self.header(prev)) + (checkpoints(self.checkpoint) + self.blob)
    }

    /// The states of the storages at the end of the segment.
    pub open spec fn end_states(self, ls: Seq<Layout>) -> Seq<StorageView> {
        after_items(
            self.checkpoint,
            ls,
            replayed(self.frames, self.start, None, self.checkpoint.len() as int).1,
        )
    }

    /// Whether the segment starts from the given states at the given time,
    /// and everything in it fits in its place.
    pub open spec fn follows(self, ls: Seq<Layout>, before: Seq<StorageView>, time: u64) -> bool {
        &&& self.checkpoint == before
        &&& self.start == time
        &&& self.frames.len() > 0
        &&& self.start + duration(self.frames) == self.end
        &&& forall|i: int| 0 <= i < self.frames.len() ==> (#[trigger] self.frames[i]).encodable()
        &&& items_fit(
            before,
            ls,
            replayed(self.frames, self.start, None, before.len() as int).1,
        )
        &&& unpacked(self.blob) == Some(frames_bytes(self.frames))
        &&& compressible(frames_bytes(self.frames).len() as int)
        &&& self.frames.len() <= u32::MAX
        &&& self.blob.len() <= u32::MAX
        &&& checkpoints(self.checkpoint).len() <= u32::MAX
    }
}

/// Where the last of some segments starts, the first starting at `base`: 0
/// where there is none.
pub open spec fn tail_offset(base: int, segments: Seq<Segment>) -> u64 {
    if segments.len() == 0 {
        0
    } else {
        (base + segments_bytes(base, segments.drop_last()).len()) as u64
    }
}

/// The bytes of some segments, the first starting at `base`.
pub open spec fn segments_bytes(base: int, segments: Seq<Segment>) -> Seq<u8>
    decreases segments.len(),
{
    if segments.len() == 0 {
        Seq::empty()
    } else {
        let init = segments.drop_last();
        segments_bytes(base, init) + segments.last().bytes(
            if init.len() == 0 {
                0
            } else {
                (base + segments_bytes(base, init.drop_last()).len()) as u64
            },
        )
    }
}

/// Where segment `k` starts.
pub open spec fn segment_offset(base: int, segments: Seq<Segment>, k: int) -> int {
    base + segments_bytes(base, segments.take(k)).len()
}

/// The segment table.
pub open spec fn segment_index(base: int, segments: Seq<Segment>) -> Seq<SegmentIndexEntry> {
    Seq::new(
        segments.len(),
        |k: int|
            SegmentIndexEntry {
                offset: segment_offset(base, segments, k) as u64,
                time_start_ps: segments[k].start,
                time_end_ps: segments[k].end,
            },
    )
}

/// The states of the storages after some segments.
pub open spec fn states_after(storages: Seq<StorageDefView>, segments: Seq<Segment>) -> Seq<
    StorageView,
> {
    if segments.len() == 0 {
        initial_states(storages)
    } else {
        segments.last().end_states(layouts_of(storages))
    }
}

/// The time after some segments.
pub open spec fn time_after(segments: Seq<Segment>) -> u64 {
    if segments.len() == 0 {
        0
    } else {
        segments.last().end
    }
}

/// Whether each segment starts where the one before ends.
pub open spec fn segments_ok(storages: Seq<StorageDefView>, segments: Seq<Segment>) -> bool
    decreases segments.len(),
{
    segments.len() == 0 || {
        let init = segments.drop_last();
        &&& segments_ok(storages, init)
        &&& segments.last().follows(
            layouts_of(storages),
            states_after(storages, init),
            time_after(init),
        )
    }
}

/// The null-terminated UTF-8 forms of some strings.
pub open spec fn string_data(strings: Seq<Seq<char>>) -> Seq<u8>
    decreases strings.len(),
{
    if strings.len() == 0 {
        Seq::empty()
    } else {
        string_data(strings.drop_last()) + encode_utf8(strings.last()) + seq![0u8]
    }
}

/// Where each string lies in their data.
pub open spec fn string_indices(strings: Seq<Seq<char>>) -> Seq<StringIndex> {
    Seq::new(
        strings.len(),
        |i: int|
            StringIndex {
                offset: string_data(strings.take(i)).len() as u32,
                length: encode_utf8(strings[i]).len() as u32,
            },
    )
}

/// The string table.
pub open spec fn string_table_bytes(strings: Seq<Seq<char>>) -> Seq<u8> {
    StringTableHeader::encode(
        StringTableHeader { num_entries: strings.len() as u32, reserved: 0 },
    ) + (encode_all::<StringIndex>(string_indices(strings)) + string_data(strings))
}

/// What a writer has recorded.
#[verifier::ext_equal]
pub struct Recording {
    pub dut: DutDescView,
    pub schema: SchemaView,
    pub interval: u64,
    /// The segments that are complete.
    pub segments: Seq<Segment>,
    /// The frames of the segment that is being recorded.
    pub frames: Seq<CycleFrameView>,
    pub strings: Seq<Seq<char>>,
}

impl Recording {
    /// Where the first segment starts.
    pub open spec fn base(self) -> int {
        48int + preamble(self.dut, self.schema, self.interval).len()
    }

    /// Everything behind the file header, up to the last complete segment.
    pub open spec fn body(self) -> Seq<u8> {
        preamble(self.dut, self.schema, self.interval) + segments_bytes(
            self.base(),
            self.segments,
        )
    }

    /// The file header while the trace is being written.
    pub open spec fn header(self) -> FileHeader {
        FileHeader {
            preamble_end: self.base() as u32,
            num_segments: self.segments.len() as u32,
            tail_offset: tail_offset(self.base(), self.segments),
            ..spec_new_header()
        }
    }

    /// The trace while it is being written.
    pub open spec fn open_image(self) -> Seq<u8> {
        FileHeader::encode(self.header()) + self.body()
    }

    /// The string table section: nothing where there are no strings.
    pub open spec fn string_section(self) -> Seq<u8> {
        if self.strings.len() == 0 {
            Seq::empty()
        } else {
            string_table_bytes(self.strings)
        }
    }

    /// The segment table section: nothing where there are no segments.
    pub open spec fn segment_section(self) -> Seq<u8> {
        encode_all::<SegmentIndexEntry>(segment_index(self.base(), self.segments))
    }

    /// Where the string table starts.
    pub open spec fn strings_at(self) -> int {
        48int + self.body().len()
    }

    /// Where the segment table starts.
    pub open spec fn segments_at(self) -> int {
        self.strings_at() + self.string_section().len()
    }

    /// Where the segment table ends.
    pub open spec fn sections_end(self) -> int {
        self.segments_at() + self.segment_section().len()
    }

    /// Where the section table starts: at the next multiple of 8.
    pub open spec fn section_table_at(self) -> int {
        self.sections_end() + pad8(self.sections_end())
    }

    /// The entry for the string table.
    pub open spec fn string_entry(self) -> SectionEntry {
        SectionEntry {
            section_type: SECTION_STRINGS,
            flags: 0,
            reserved: 0,
            offset: self.strings_at() as u64,
            size: self.string_section().len() as u64,
        }
    }

    /// The entry for the segment table.
    pub open spec fn segment_entry(self) -> SectionEntry {
        SectionEntry {
            section_type: SECTION_SEGMENTS,
            flags: 0,
            reserved: 0,
            offset: self.segments_at() as u64,
            size: self.segment_section().len() as u64,
        }
    }

    /// The entries of the section table: one for each section that is there.
    pub open spec fn sections(self) -> Seq<SectionEntry> {
        (if self.strings.len() == 0 {
            Seq::empty()
        } else {
            seq![self.string_entry()]
        }) + (if self.segments.len() == 0 {
            Seq::empty()
        } else {
            seq![self.segment_entry()]
        })
    }

    /// The file header of the finished trace, which ends at `time`.
    pub open spec fn final_header(self, time: u64) -> FileHeader {
        FileHeader {
            flags: (if self.strings.len() == 0 {
                self.header().flags
            } else {
                self.header().flags | F_HAS_STRINGS
            }) | F_COMPLETE,
            total_time_ps: time,
            section_table_offset: self.section_table_at() as u64,
            ..self.header()
        }
    }

    /// The finished trace, which ends at `time`.
    pub open spec fn closed_image(self, time: u64) -> Seq<u8> {
        FileHeader::encode(self.final_header(time)) + (self.body() + (self.string_section() + (
        self.segment_section() + (zeros(pad8(self.sections_end())) + (encode_all::<SectionEntry>(
            self.sections(),
        ) + SectionEntry::encode(end_section()))))))
    }
}

/// The end mark of a section table.
pub open spec fn end_section() -> SectionEntry {
    SectionEntry { section_type: SECTION_END, flags: 0, reserved: 0, offset: 0, size: 0 }
}

} // verus!
