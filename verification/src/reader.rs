//! Reader for µScope traces.
//! Supports both finalized traces and live tailing.

use vstd::prelude::*;
use crate::bytes::{suffix, ByteReader};
use crate::checkpoint::{restored, FieldOffsets, Layout, StorageState, StorageView};
use crate::compress::{decompress, unpacked};
use crate::error::TraceError;
use crate::schema::{parse_schema, Schema, SchemaView};
use crate::segment::{
    chain, chain_entries, chain_until, find_segment_for_time, index_chain, read_segment_table,
    segment_for_time, segment_table, walk_chain, walk_until,
};
use crate::state::{
    after_items, all_wf, items_fit, op_items, parse_frames, parse_split_frames, replay_deltas,
    replay_deltas_v2, TimedEvent, TimedEventView, TimedItem, TimedItemView, TimedOp, TraceState,
};
use crate::string_pool::{pool_get, StringPoolReader};
use crate::summary::{deserialize_trace_summary, parse_summary, SummaryView, TraceSummary};
use crate::text::{lossy_string, lossy_text, str_eq};
use crate::trace::{initial_states, layouts_of};
use crate::types::{
    copy_vec, lemma_views_self, CheckpointBlock, DutDesc, DutDescView, DutProperty, FileHeader,
    PreambleChunk, PreambleChunkView, SectionEntry, SegmentHeader, SegmentIndexEntry, StringIndex,
    StringTableHeader, TraceConfig, CHUNK_DUT_DESC, CHUNK_END, CHUNK_SCHEMA, CHUNK_TRACE_CONFIG,
    F_COMPACT_DELTAS, F_COMPLETE, F_COMPRESSED, F_INTERLEAVED_DELTAS, SECTION_COUNTER_SUMMARY,
    SECTION_END, SECTION_SEGMENTS, SECTION_STRINGS,
};
use crate::wire::{decode_n, lemma_suffix_suffix, read_n, views, Wire};
use crate::writer::{all_allocatable, init_storages, string_texts};

verus! {

// ---------------------------------------------------------------------------
// String table.

/// Parsed string table.
#[derive(Debug)]
pub struct StringTable {
    entries: Vec<String>,
}

impl View for StringTable {
    type V = Seq<Seq<char>>;

    closed spec fn view(&self) -> Seq<Seq<char>> {
        string_texts(self.entries@)
    }
}

/// Whether every string lies within its data.
pub open spec fn indices_fit(indices: Seq<StringIndex>, size: int) -> bool {
    forall|i: int|
        0 <= i < indices.len() ==> (#[trigger] indices[i]).offset + indices[i].length <= size
}

/// The strings at the given places of some data.
pub open spec fn indexed_strings(indices: Seq<StringIndex>, data: Seq<u8>) -> Seq<Seq<char>> {
    indices.map_values(
        |x: StringIndex| lossy_text(data.subrange(x.offset as int, x.offset + x.length)),
    )
}

/// The string table of `size` bytes at the start of `s`.
pub open spec fn parse_strings(s: Seq<u8>, size: u64) -> Result<Seq<Seq<char>>, TraceError> {
    match StringTableHeader::decode(s) {
        Err(e) => Err(e),
        Ok((h, _)) => match decode_n::<StringIndex>(suffix(s, 8), h.num_entries as nat) {
            Err(e) => Err(e),
            Ok((indices, k)) => if size < 8 + 8 * h.num_entries {
                Err(TraceError::StringTableOutOfRange)
            } else {
                let data_size = size - 8 - 8 * h.num_entries;
                if s.len() < 8 + k + data_size {
                    Err(TraceError::UnexpectedEof)
                } else if !indices_fit(indices, data_size) {
                    Err(TraceError::StringTableOutOfRange)
                } else {
                    Ok(indexed_strings(indices, s.subrange(8 + k, 8 + k + data_size)))
                }
            },
        },
    }
}

impl StringTable {
    /// Reads a string table of `size` bytes.
    fn read_from(r: &mut ByteReader<'_>, size: u64) -> (res: Result<StringTable, TraceError>)
        ensures
            match parse_strings(old(r)@, size) {
                Ok(t) => res is Ok && res->Ok_0@ == t,
                Err(e) => res == Err::<StringTable, TraceError>(e),
            },
    {
        let ghost s = r@;
        let h = match StringTableHeader::read_from(r) {
            Err(e) => return Err(e),
            Ok(h) => h,
        };
        let indices = match read_n::<StringIndex>(r, h.num_entries as usize) {
            Err(e) => return Err(e),
            Ok(i) => i,
        };
        let ghost k = decode_n::<StringIndex>(suffix(s, 8), h.num_entries as nat)->Ok_0.1;
        proof {
            lemma_views_self(indices@);
            lemma_suffix_suffix(s, 8, k);
        }
        let head: u64 = 8 + 8 * h.num_entries as u64;
        if size < head {
            return Err(TraceError::StringTableOutOfRange);
        }
        let data_size: u64 = size - head;
        if data_size > r.remaining() as u64 {
            return Err(TraceError::UnexpectedEof);
        }
        let data = match r.take(data_size as usize) {
            Err(e) => return Err(e),
            Ok(d) => d,
        };
        assert(data@ =~= s.subrange(8 + k, 8 + k + data_size));
        let ghost want = indexed_strings(indices@, data@);
        let mut entries: Vec<String> = Vec::new();
        let mut i: usize = 0;
        assert(string_texts(entries@) =~= want.take(0));
        while i < indices.len()
            invariant
                i <= indices@.len(),
                want == indexed_strings(indices@, data@),
                data_size == data@.len(),
                forall|j: int|
                    0 <= j < i ==> (#[trigger] indices@[j]).offset + indices@[j].length
                        <= data_size,
                string_texts(entries@) == want.take(i as int),
                indices_fit(indices@, data_size as int) || parse_strings(old(r)@, size) == Err::<
                    Seq<Seq<char>>,
                    TraceError,
                >(TraceError::StringTableOutOfRange),
            decreases indices@.len() - i,
        {
            let x: StringIndex = indices[i];
            if x.offset as u64 + x.length as u64 > data_size {
                assert(!indices_fit(indices@, data_size as int)) by {
                    assert(indices@[i as int].offset + indices@[i as int].length > data_size);
                }
                return Err(TraceError::StringTableOutOfRange);
            }
            let limit: usize = data.len();
            let start: usize = x.offset as usize;
            assert(start + x.length <= limit);
            let end: usize = start + x.length as usize;
            let ghost before = entries@;
            let text = lossy_string(vstd::slice::slice_subrange(data, start, end));
            entries.push(text);
            i = i + 1;
            proof {
                assert(string_texts(entries@) =~= string_texts(before).push(text@));
                assert(string_texts(entries@) =~= want.take(i as int));
            }
        }
        assert(want.take(i as int) =~= want);
        Ok(StringTable { entries })
    }

    /// Get a string by its index.
    pub fn get(&self, index: u32) -> (r: Option<&str>)
        ensures
            if index < self@.len() {
                r is Some && r->Some_0@ == self@[index as int]
            } else {
                r is None
            },
    {
        if (index as usize) < self.entries.len() {
            Some(self.entries[index as usize].as_str())
        } else {
            None
        }
    }
}

// ---------------------------------------------------------------------------
// Preamble and sections.

/// What the preamble of a trace holds, as far as it was read.
#[verifier::ext_equal]
pub struct Preamble {
    pub schema: Option<SchemaView>,
    pub dut: Option<DutDescView>,
    pub config: Option<TraceConfig>,
}

/// The preamble with one more chunk. A later chunk of a kind replaces an
/// earlier one; chunks of an unknown kind are skipped.
pub open spec fn with_chunk(p: Preamble, c: PreambleChunkView) -> Result<Preamble, TraceError> {
    if c.chunk_type == CHUNK_DUT_DESC {
        match DutDesc::decode(c.payload) {
            Err(e) => Err(e),
            Ok((d, _)) => Ok(Preamble { dut: Some(d), ..p }),
        }
    } else if c.chunk_type == CHUNK_SCHEMA {
        match parse_schema(c.payload, c.payload.len() as int) {
            Err(e) => Err(e),
            Ok((s, _)) => Ok(Preamble { schema: Some(s), ..p }),
        }
    } else if c.chunk_type == CHUNK_TRACE_CONFIG {
        match TraceConfig::decode(c.payload) {
            Err(e) => Err(e),
            Ok((t, _)) => Ok(Preamble { config: Some(t), ..p }),
        }
    } else {
        Ok(p)
    }
}

/// The preamble at the start of `s`, up to its end mark.
pub open spec fn parse_preamble(s: Seq<u8>, p: Preamble) -> Result<Preamble, TraceError>
    decreases s.len(),
{
    match PreambleChunk::decode(s) {
        Err(e) => Err(e),
        Ok((c, n)) => if c.chunk_type == CHUNK_END {
            Ok(p)
        } else {
            match with_chunk(p, c) {
                Err(e) => Err(e),
                Ok(q) => parse_preamble(suffix(s, n), q),
            }
        },
    }
}

/// The entries of the section table at the start of `s`, up to its end mark.
pub open spec fn parse_sections(s: Seq<u8>) -> Result<Seq<SectionEntry>, TraceError>
    decreases s.len(),
{
    match SectionEntry::decode(s) {
        Err(e) => Err(e),
        Ok((entry, n)) => if entry.section_type == SECTION_END {
            Ok(Seq::empty())
        } else {
            match parse_sections(suffix(s, n)) {
                Err(e) => Err(e),
                Ok(more) => Ok(seq![entry] + more),
            }
        },
    }
}

/// What the sections of a trace hold.
#[verifier::ext_equal]
pub struct Sections {
    pub table: Seq<SegmentIndexEntry>,
    pub strings: Option<Seq<Seq<char>>>,
    pub summary: Option<SummaryView>,
}

/// What the sections hold with one more. A summary that cannot be read is
/// passed over; sections of an unknown kind are skipped.
pub open spec fn with_section(data: Seq<u8>, x: Sections, entry: SectionEntry) -> Result<
    Sections,
    TraceError,
> {
    if entry.section_type == SECTION_SEGMENTS {
        match segment_table(data, entry.offset, entry.size) {
            Err(e) => Err(e),
            Ok(table) => Ok(Sections { table, ..x }),
        }
    } else if entry.section_type == SECTION_STRINGS {
        match parse_strings(suffix(data, entry.offset as int), entry.size) {
            Err(e) => Err(e),
            Ok(t) => Ok(Sections { strings: Some(t), ..x }),
        }
    } else if entry.section_type == SECTION_COUNTER_SUMMARY {
        let s = suffix(data, entry.offset as int);
        if s.len() < entry.size {
            Err(TraceError::UnexpectedEof)
        } else {
            match parse_summary(s.subrange(0, entry.size as int)) {
                Err(_) => Ok(x),
                Ok(v) => Ok(Sections { summary: Some(v), ..x }),
            }
        }
    } else {
        Ok(x)
    }
}

/// What some sections hold, read in turn.
pub open spec fn with_sections(data: Seq<u8>, x: Sections, entries: Seq<SectionEntry>) -> Result<
    Sections,
    TraceError,
>
    decreases entries.len(),
{
    if entries.len() == 0 {
        Ok(x)
    } else {
        match with_sections(data, x, entries.drop_last()) {
            Err(e) => Err(e),
            Ok(y) => with_section(data, y, entries.last()),
        }
    }
}

/// No section was read.
pub open spec fn no_sections() -> Sections {
    Sections { table: Seq::empty(), strings: None, summary: None }
}

/// What the section table of a trace leads to: nothing unless it is finished.
pub open spec fn sections_of(data: Seq<u8>, h: FileHeader) -> Result<Sections, TraceError> {
    if h.flags & F_COMPLETE != 0 && h.section_table_offset != 0 {
        match parse_sections(suffix(data, h.section_table_offset as int)) {
            Err(e) => Err(e),
            Ok(entries) => with_sections(data, no_sections(), entries),
        }
    } else {
        Ok(no_sections())
    }
}

/// The segment table of a trace: that of its section, or, where there is
/// none, that of its chain of segments.
pub open spec fn table_of(data: Seq<u8>, h: FileHeader, x: Sections) -> Result<
    Seq<SegmentIndexEntry>,
    TraceError,
> {
    if x.table.len() == 0 && h.tail_offset != 0 {
        match chain(data, h.tail_offset) {
            Err(e) => Err(e),
            Ok(c) => Ok(chain_entries(c)),
        }
    } else {
        Ok(x.table)
    }
}

/// What a `Reader` holds.
#[verifier::ext_equal]
pub struct ReaderView {
    pub data: Seq<u8>,
    pub header: FileHeader,
    pub schema: SchemaView,
    pub dut: DutDescView,
    pub config: TraceConfig,
    pub table: Seq<SegmentIndexEntry>,
    pub strings: Option<Seq<Seq<char>>>,
    pub summary: Option<SummaryView>,
}

/// What opening the trace `data` gives.
pub open spec fn opened(data: Seq<u8>) -> Result<ReaderView, TraceError> {
    match FileHeader::decode(data) {
        Err(e) => Err(e),
        Ok((header, n)) => match parse_preamble(
            suffix(data, n),
            Preamble { schema: None, dut: None, config: None },
        ) {
            Err(e) => Err(e),
            Ok(p) => match p.schema {
                None => Err(TraceError::MissingSchema),
                Some(schema) => match p.dut {
                    None => Err(TraceError::MissingDut),
                    Some(dut) => match p.config {
                        None => Err(TraceError::MissingConfig),
                        Some(config) => if !all_allocatable(schema.storages) {
                            Err(TraceError::StorageTooLarge)
                        } else {
                            match sections_of(data, header) {
                                Err(e) => Err(e),
                                Ok(x) => match table_of(data, header, x) {
                                    Err(e) => Err(e),
                                    Ok(table) => Ok(
                                        ReaderView {
                                            data,
                                            header,
                                            schema,
                                            dut,
                                            config,
                                            table,
                                            strings: x.strings,
                                            summary: x.summary,
                                        },
                                    ),
                                },
                            }
                        },
                    },
                },
            },
        },
    }
}

/// Preamble chunks as they were read.
struct RawPreamble {
    schema: Option<Schema>,
    dut: Option<DutDesc>,
    config: Option<TraceConfig>,
}

impl View for RawPreamble {
    type V = Preamble;

    closed spec fn view(&self) -> Preamble {
        Preamble {
            schema: match self.schema {
                Some(s) => Some(s@),
                None => None,
            },
            dut: match self.dut {
                Some(d) => Some(d@),
                None => None,
            },
            config: self.config,
        }
    }
}

/// Reads the preamble up to its end mark.
fn read_preamble(r: &mut ByteReader<'_>) -> (res: Result<RawPreamble, TraceError>)
    ensures
        match parse_preamble(old(r)@, Preamble { schema: None, dut: None, config: None }) {
            Ok(p) => res is Ok && res->Ok_0@ == p,
            Err(e) => res == Err::<RawPreamble, TraceError>(e),
        },
{
    let mut p = RawPreamble { schema: None, dut: None, config: None };
    let ghost whole = parse_preamble(r@, p@);
    loop
        invariant
            whole == parse_preamble(r@, p@),
            whole == parse_preamble(
                old(r)@,
                Preamble { schema: None, dut: None, config: None },
            ),
        decreases r@.len(),
    {
        let ghost s = r@;
        let chunk = match PreambleChunk::read_from(r) {
            Err(e) => return Err(e),
            Ok(c) => c,
        };
        if chunk.chunk_type == CHUNK_END {
            return Ok(p);
        } else if chunk.chunk_type == CHUNK_DUT_DESC {
            let mut b = ByteReader::new(chunk.payload.as_slice());
            match DutDesc::read_from(&mut b) {
                Err(e) => return Err(e),
                Ok(d) => {
                    p.dut = Some(d);
                },
            }
        } else if chunk.chunk_type == CHUNK_SCHEMA {
            let mut b = ByteReader::new(chunk.payload.as_slice());
            match Schema::read_from(&mut b, chunk.payload.len()) {
                Err(e) => return Err(e),
                Ok(d) => {
                    p.schema = Some(d);
                },
            }
        } else if chunk.chunk_type == CHUNK_TRACE_CONFIG {
            let mut b = ByteReader::new(chunk.payload.as_slice());
            match TraceConfig::read_from(&mut b) {
                Err(e) => return Err(e),
                Ok(d) => {
                    p.config = Some(d);
                },
            }
        }
    }
}

/// Reads the entries of a section table up to its end mark.
pub fn read_sections(r: &mut ByteReader<'_>) -> (res: Result<Vec<SectionEntry>, TraceError>)
    ensures
        match parse_sections(old(r)@) {
            Ok(entries) => res is Ok && res->Ok_0@ == entries,
            Err(e) => res == Err::<Vec<SectionEntry>, TraceError>(e),
        },
{
    let mut entries: Vec<SectionEntry> = Vec::new();
    let ghost whole = parse_sections(r@);
    proof {
        if whole is Ok {
            assert(entries@ + whole->Ok_0 =~= whole->Ok_0);
        }
    }
    loop
        invariant
            whole == parse_sections(old(r)@),
            match parse_sections(r@) {
                Ok(more) => whole == Ok::<Seq<SectionEntry>, TraceError>(entries@ + more),
                Err(e) => whole == Err::<Seq<SectionEntry>, TraceError>(e),
            },
        decreases r@.len(),
    {
        let ghost before = entries@;
        let ghost s = r@;
        let entry = match SectionEntry::read_from(r) {
            Err(e) => return Err(e),
            Ok(x) => x,
        };
        if entry.section_type == SECTION_END {
            assert(before + Seq::<SectionEntry>::empty() =~= before);
            return Ok(entries);
        }
        entries.push(entry);
        proof {
            let rest = parse_sections(r@);
            if rest is Ok {
                assert(before + (seq![entry] + rest->Ok_0) =~= entries@ + rest->Ok_0);
            }
        }
    }
}

/// Section contents as they were read.
struct RawSections {
    table: Vec<SegmentIndexEntry>,
    strings: Option<StringTable>,
    summary: Option<TraceSummary>,
}

impl View for RawSections {
    type V = Sections;

    closed spec fn view(&self) -> Sections {
        Sections {
            table: self.table@,
            strings: match self.strings {
                Some(s) => Some(s@),
                None => None,
            },
            summary: match self.summary {
                Some(s) => Some(s@),
                None => None,
            },
        }
    }
}

proof fn lemma_with_sections_err(
    data: Seq<u8>,
    x: Sections,
    entries: Seq<SectionEntry>,
    i: int,
)
    requires
        0 <= i <= entries.len(),
        with_sections(data, x, entries.take(i)) is Err,
    ensures
        with_sections(data, x, entries) == with_sections(data, x, entries.take(i)),
    decreases entries.len() - i,
{
    if i < entries.len() {
        assert(entries.take(i + 1).drop_last() =~= entries.take(i));
        lemma_with_sections_err(data, x, entries, i + 1);
    } else {
        assert(entries.take(i) =~= entries);
    }
}

/// Reads what the section table of a trace leads to.
fn load_sections(data: &[u8], h: &FileHeader) -> (res: Result<RawSections, TraceError>)
    ensures
        match sections_of(data@, *h) {
            Ok(x) => res is Ok && res->Ok_0@ == x,
            Err(e) => res == Err::<RawSections, TraceError>(e),
        },
{
    let mut x = RawSections { table: Vec::new(), strings: None, summary: None };
    assert(x@ =~= no_sections());
    if h.flags & F_COMPLETE == 0 || h.section_table_offset == 0 {
        return Ok(x);
    }
    let mut r = ByteReader::at(data, h.section_table_offset);
    let entries = match read_sections(&mut r) {
        Err(e) => return Err(e),
        Ok(v) => v,
    };
    let mut i: usize = 0;
    assert(entries@.take(0) =~= Seq::<SectionEntry>::empty());
    while i < entries.len()
        invariant
            i <= entries@.len(),
            with_sections(data@, no_sections(), entries@.take(i as int)) == Ok::<
                Sections,
                TraceError,
            >(x@),
            sections_of(data@, *h) == with_sections(data@, no_sections(), entries@),
        decreases entries@.len() - i,
    {
        let entry: SectionEntry = entries[i];
        proof {
            assert(entries@.take(i + 1).drop_last() =~= entries@.take(i as int));
            assert(entries@.take(i + 1).last() == entry);
            if with_section(data@, x@, entry) is Err {
                lemma_with_sections_err(data@, no_sections(), entries@, i + 1);
            }
        }
        if entry.section_type == SECTION_SEGMENTS {
            match read_segment_table(data, entry.offset, entry.size) {
                Err(e) => return Err(e),
                Ok(t) => {
                    x.table = t;
                },
            }
        } else if entry.section_type == SECTION_STRINGS {
            let mut b = ByteReader::at(data, entry.offset);
            match StringTable::read_from(&mut b, entry.size) {
                Err(e) => return Err(e),
                Ok(t) => {
                    x.strings = Some(t);
                },
            }
        } else if entry.section_type == SECTION_COUNTER_SUMMARY {
            let mut b = ByteReader::at(data, entry.offset);
            if entry.size > b.remaining() as u64 {
                return Err(TraceError::UnexpectedEof);
            }
            let bytes = match b.take(entry.size as usize) {
                Err(e) => return Err(e),
                Ok(b) => b,
            };
            match deserialize_trace_summary(bytes) {
                Err(_) => {},
                Ok(v) => {
                    x.summary = Some(v);
                },
            }
        }
        i = i + 1;
    }
    assert(entries@.take(i as int) =~= entries@);
    Ok(x)
}

/// µScope trace reader.
pub struct Reader {
    data: Vec<u8>,
    header: FileHeader,
    schema: Schema,
    dut: DutDesc,
    trace_config: TraceConfig,
    field_offsets: Vec<FieldOffsets>,
    segment_table: Vec<SegmentIndexEntry>,
    string_table: Option<StringTable>,
    trace_summary: Option<TraceSummary>,
}

impl View for Reader {
    type V = ReaderView;

    closed spec fn view(&self) -> ReaderView {
        ReaderView {
            data: self.data@,
            header: self.header,
            schema: self.schema@,
            dut: self.dut@,
            config: self.trace_config,
            table: self.segment_table@,
            strings: match self.string_table {
                Some(s) => Some(s@),
                None => None,
            },
            summary: match self.trace_summary {
                Some(s) => Some(s@),
                None => None,
            },
        }
    }
}

impl Reader {
    #[verifier::type_invariant]
    closed spec fn inv(self) -> bool {
        &&& all_allocatable(self.schema@.storages)
        &&& views(self.field_offsets@) == layouts_of(self.schema@.storages)
    }

    /// Open a trace for reading.
    pub fn open(data: Vec<u8>) -> (res: Result<Reader, TraceError>)
        ensures
            match opened(data@) {
                Ok(v) => res is Ok && res->Ok_0@ == v,
                Err(e) => res == Err::<Reader, TraceError>(e),
            },
    {
        let mut r = ByteReader::new(data.as_slice());
        let header = match FileHeader::read_from(&mut r) {
            Err(e) => return Err(e),
            Ok(h) => h,
        };
        let p = match read_preamble(&mut r) {
            Err(e) => return Err(e),
            Ok(p) => p,
        };
        let schema = match p.schema {
            None => return Err(TraceError::MissingSchema),
            Some(s) => s,
        };
        let dut = match p.dut {
            None => return Err(TraceError::MissingDut),
            Some(d) => d,
        };
        let trace_config = match p.config {
            None => return Err(TraceError::MissingConfig),
            Some(c) => c,
        };
        let (_states, field_offsets) = match init_storages(&schema.storages) {
            None => return Err(TraceError::StorageTooLarge),
            Some(p) => p,
        };
        let x = match load_sections(data.as_slice(), &header) {
            Err(e) => return Err(e),
            Ok(x) => x,
        };
        let segment_table = if x.table.len() == 0 && header.tail_offset != 0 {
            match walk_chain(data.as_slice(), header.tail_offset) {
                Err(e) => return Err(e),
                Ok(c) => index_chain(&c),
            }
        } else {
            x.table
        };
        Ok(
            Reader {
                data,
                header,
                schema,
                dut,
                trace_config,
                field_offsets,
                segment_table,
                string_table: x.strings,
                trace_summary: x.summary,
            },
        )
    }
}

// ---------------------------------------------------------------------------
// Segments.

/// The states of the first `n` storages as the checkpoints at the start of
/// `s` have them, and how many bytes these take.
pub open spec fn parse_checkpoints(s: Seq<u8>, init: Seq<StorageView>, n: nat) -> Result<
    (Seq<StorageView>, int),
    TraceError,
>
    decreases n,
{
    if n == 0 {
        Ok((Seq::empty(), 0))
    } else {
        match parse_checkpoints(s, init, (n - 1) as nat) {
            Err(e) => Err(e),
            Ok((st, k)) => match CheckpointBlock::decode(suffix(s, k)) {
                Err(e) => Err(e),
                Ok((block, _)) => {
                    let body = suffix(s, k + 8);
                    if body.len() < block.size {
                        Err(TraceError::UnexpectedEof)
                    } else {
                        match restored(init[n - 1], body.subrange(0, block.size as int)) {
                            Err(e) => Err(e),
                            Ok(v) => Ok((st.push(v), k + 8 + block.size)),
                        }
                    }
                },
            },
        }
    }
}

pub proof fn lemma_parse_checkpoints_bounds(s: Seq<u8>, init: Seq<StorageView>, n: nat)
    ensures
        parse_checkpoints(s, init, n) is Ok ==> {
            &&& 0 <= parse_checkpoints(s, init, n)->Ok_0.1 <= s.len()
            &&& parse_checkpoints(s, init, n)->Ok_0.0.len() == n
        },
    decreases n,
{
    if n > 0 {
        lemma_parse_checkpoints_bounds(s, init, (n - 1) as nat);
    }
}

proof fn lemma_parse_checkpoints_err(s: Seq<u8>, init: Seq<StorageView>, i: nat, n: nat)
    requires
        i <= n,
        parse_checkpoints(s, init, i) is Err,
    ensures
        parse_checkpoints(s, init, n) == parse_checkpoints(s, init, i),
    decreases n,
{
    if i < n {
        lemma_parse_checkpoints_err(s, init, i, (n - 1) as nat);
    }
}

/// The raw delta blob of `size` bytes at the start of `s`.
pub open spec fn delta_blob(s: Seq<u8>, size: u32, flags: u64) -> Result<Seq<u8>, TraceError> {
    if s.len() < size {
        Err(TraceError::UnexpectedEof)
    } else if flags & F_COMPRESSED != 0 {
        match unpacked(s.subrange(0, size as int)) {
            Some(raw) => Ok(raw),
            None => Err(TraceError::Decompress),
        }
    } else {
        Ok(s.subrange(0, size as int))
    }
}

/// What replaying a delta blob gives.
#[verifier::ext_equal]
pub struct Replay {
    /// The time of the last frame looked at.
    pub time: u64,
    pub states: Seq<StorageView>,
    pub items: Seq<TimedItemView>,
}

/// Events and operations in the order of their times; at the same time the
/// operations come first.
pub open spec fn merged(ops: Seq<TimedOp>, events: Seq<TimedEventView>) -> Seq<TimedItemView>
    decreases ops.len() + events.len(),
{
    if ops.len() == 0 && events.len() == 0 {
        Seq::empty()
    } else if events.len() == 0 || ops.len() > 0 && ops[0].time_ps <= events[0].time_ps {
        seq![TimedItemView::Op(ops[0])] + merged(ops.drop_first(), events)
    } else {
        seq![TimedItemView::Event(events[0])] + merged(ops, events.drop_first())
    }
}

/// What replaying a delta blob gives, starting from the states `st` at `start`.
pub open spec fn replay(
    raw: Seq<u8>,
    flags: u64,
    st: Seq<StorageView>,
    ls: Seq<Layout>,
    start: u64,
    target: Option<u64>,
) -> Result<Replay, TraceError> {
    if flags & F_INTERLEAVED_DELTAS != 0 {
        match parse_frames(raw, start, target, st.len() as int) {
            Err(e) => Err(e),
            Ok((time, items)) => if items_fit(st, ls, items) {
                Ok(Replay { time, states: after_items(st, ls, items), items })
            } else {
                Err(TraceError::OpOutOfRange)
            },
        }
    } else {
        match parse_split_frames(
            raw,
            start,
            target,
            flags & F_COMPACT_DELTAS != 0,
            st.len() as int,
        ) {
            Err(e) => Err(e),
            Ok(f) => if items_fit(st, ls, op_items(f.ops)) {
                Ok(
                    Replay {
                        time: f.time,
                        states: after_items(st, ls, op_items(f.ops)),
                        items: merged(f.ops, f.events),
                    },
                )
            } else {
                Err(TraceError::OpOutOfRange)
            },
        }
    }
}

/// The events among some items.
pub open spec fn events_of(items: Seq<TimedItemView>) -> Seq<TimedEventView>
    decreases items.len(),
{
    if items.len() == 0 {
        Seq::empty()
    } else {
        let before = events_of(items.drop_last());
        match items.last() {
            TimedItemView::Event(ev) => before.push(ev),
            TimedItemView::Op(_) => before,
        }
    }
}

/// Those of some events that lie in a time range.
pub open spec fn events_within(events: Seq<TimedEventView>, t0: u64, t1: u64) -> Seq<TimedEventView>
    decreases events.len(),
{
    if events.len() == 0 {
        Seq::empty()
    } else {
        let before = events_within(events.drop_last(), t0, t1);
        if t0 <= events.last().time_ps <= t1 {
            before.push(events.last())
        } else {
            before
        }
    }
}

/// The first segment, counting back from `i`, all of whose predecessors end
/// before `t0`.
pub open spec fn first_reaching(table: Seq<SegmentIndexEntry>, i: int, t0: u64) -> int
    decreases i,
{
    if i <= 0 || table[i - 1].time_end_ps < t0 {
        i
    } else {
        first_reaching(table, i - 1, t0)
    }
}

impl ReaderView {
    pub open spec fn layouts(self) -> Seq<Layout> {
        layouts_of(self.schema.storages)
    }

    pub open spec fn initial(self) -> Seq<StorageView> {
        initial_states(self.schema.storages)
    }

    /// The header of a segment and what follows it.
    pub open spec fn segment(self, offset: u64) -> Result<(SegmentHeader, Seq<u8>), TraceError> {
        match SegmentHeader::decode(suffix(self.data, offset as int)) {
            Err(e) => Err(e),
            Ok((h, n)) => Ok((h, suffix(suffix(self.data, offset as int), n))),
        }
    }

    /// What replaying the segment at `offset` from its checkpoint gives.
    pub open spec fn replay_segment(self, offset: u64, target: Option<u64>) -> Result<
        Replay,
        TraceError,
    > {
        match self.segment(offset) {
            Err(e) => Err(e),
            Ok((h, s)) => match parse_checkpoints(s, self.initial(), self.initial().len()) {
                Err(e) => Err(e),
                Ok((st, k)) => match delta_blob(
                    suffix(s, k),
                    h.deltas_compressed_size,
                    self.header.flags,
                ) {
                    Err(e) => Err(e),
                    Ok(raw) => replay(
                        raw,
                        self.header.flags,
                        st,
                        self.layouts(),
                        h.time_start_ps,
                        target,
                    ),
                },
            },
        }
    }

    /// The time of the last frame looked at, and the states at a given time.
    pub open spec fn state_at(self, time: u64) -> Result<(u64, Seq<StorageView>), TraceError> {
        match segment_for_time(self.table, time) {
            None => Err(TraceError::NoSegmentForTime),
            Some(i) => match self.replay_segment(self.table[i].offset, Some(time)) {
                Err(e) => Err(e),
                Ok(r) => Ok((r.time, r.states)),
            },
        }
    }

    /// The events of the segment at `offset` in a time range. Its checkpoint
    /// plays no part.
    pub open spec fn segment_events(self, offset: u64, t0: u64, t1: u64) -> Result<
        Seq<TimedEventView>,
        TraceError,
    > {
        match self.segment(offset) {
            Err(e) => Err(e),
            Ok((h, s)) => if s.len() < h.checkpoint_size {
                Err(TraceError::UnexpectedEof)
            } else {
                match delta_blob(
                    suffix(s, h.checkpoint_size as int),
                    h.deltas_compressed_size,
                    self.header.flags,
                ) {
                    Err(e) => Err(e),
                    Ok(raw) => match replay(
                        raw,
                        self.header.flags,
                        self.initial(),
                        self.layouts(),
                        h.time_start_ps,
                        Some(t1),
                    ) {
                        Err(e) => Err(e),
                        Ok(r) => Ok(events_within(events_of(r.items), t0, t1)),
                    },
                }
            },
        }
    }

    /// The events of the segments from `i` up to but not with `j`.
    pub open spec fn events_between(self, i: int, j: int, t0: u64, t1: u64) -> Result<
        Seq<TimedEventView>,
        TraceError,
    >
        decreases j - i,
    {
        if j <= i {
            Ok(Seq::empty())
        } else {
            match self.events_between(i, j - 1, t0, t1) {
                Err(e) => Err(e),
                Ok(before) => match self.segment_events(self.table[j - 1].offset, t0, t1) {
                    Err(e) => Err(e),
                    Ok(more) => Ok(before + more),
                },
            }
        }
    }

    /// All events in a time range: those of every segment that reaches it.
    pub open spec fn events_in_range(self, t0: u64, t1: u64) -> Result<
        Seq<TimedEventView>,
        TraceError,
    > {
        match (segment_for_time(self.table, t0), segment_for_time(self.table, t1)) {
            (None, None) => Ok(Seq::empty()),
            (None, Some(j)) => self.events_between(0, j + 1, t0, t1),
            (Some(i), last) => {
                let first = first_reaching(self.table, i, t0);
                let last = match last {
                    Some(j) => j,
                    None => i,
                };
                self.events_between(first, last + 1, t0, t1)
            },
        }
    }

    /// The value of the first property with the given key, if it has one.
    pub open spec fn property(self, key: Seq<char>) -> Option<Seq<char>> {
        find_property(self.dut.properties, self.schema.string_pool, key)
    }

    /// All properties that have a key and a value.
    pub open spec fn properties(self) -> Seq<(Seq<char>, Seq<char>)> {
        named_properties(self.dut.properties, self.schema.string_pool)
    }
}

/// The value of the first property with the given key, if it has one.
pub open spec fn find_property(ps: Seq<DutProperty>, pool: Seq<u8>, key: Seq<char>) -> Option<
    Seq<char>,
>
    decreases ps.len(),
{
    if ps.len() == 0 {
        None
    } else if pool_get(pool, ps[0].key as int) == Some(key) {
        pool_get(pool, ps[0].value as int)
    } else {
        find_property(ps.drop_first(), pool, key)
    }
}

/// The keys and values of the properties that have both.
pub open spec fn named_properties(ps: Seq<DutProperty>, pool: Seq<u8>) -> Seq<
    (Seq<char>, Seq<char>),
>
    decreases ps.len(),
{
    if ps.len() == 0 {
        Seq::empty()
    } else {
        let before = named_properties(ps.drop_last(), pool);
        match (pool_get(pool, ps.last().key as int), pool_get(pool, ps.last().value as int)) {
            (Some(k), Some(v)) => before.push((k, v)),
            _ => before,
        }
    }
}

/// The texts of some pairs of references.
pub open spec fn pair_texts(pairs: Seq<(&str, &str)>) -> Seq<(Seq<char>, Seq<char>)> {
    pairs.map_values(|p: (&str, &str)| (p.0@, p.1@))
}

/// Merges operations and events in the order of their times.
fn merge_items(ops: Vec<TimedOp>, events: Vec<TimedEvent>) -> (items: Vec<TimedItem>)
    ensures
        views(items@) == merged(ops@, views(events@)),
{
    let mut events: Vec<TimedEvent> = events;
    let ghost all_events = views(events@);
    let mut items: Vec<TimedItem> = Vec::new();
    let n: usize = events.len();
    let mut i: usize = 0;
    let mut j: usize = 0;
    proof {
        assert(ops@.skip(0) =~= ops@);
        assert(all_events.skip(0) =~= all_events);
        assert(views(items@) + merged(ops@, all_events) =~= merged(ops@, all_events));
    }
    while i < ops.len() || j < n
        invariant
            i <= ops@.len(),
            j <= n,
            n == all_events.len(),
            events@.len() == n,
            forall|k: int| j <= k < n ==> (#[trigger] events@[k])@ == all_events[k],
            views(items@) + merged(ops@.skip(i as int), all_events.skip(j as int)) == merged(
                ops@,
                all_events,
            ),
        decreases ops@.len() - i + n - j,
    {
        let ghost before = items@;
        let ghost os = ops@.skip(i as int);
        let ghost es = all_events.skip(j as int);
        let take_op: bool = if j >= n {
            true
        } else if i >= ops.len() {
            false
        } else {
            assert(events@[j as int]@ == all_events[j as int]);
            ops[i].time_ps <= events[j].time_ps
        };
        if take_op {
            let item = TimedItem::Op(ops[i]);
            items.push(item);
            i = i + 1;
            proof {
                assert(os.drop_first() =~= ops@.skip(i as int));
                assert(views(items@) =~= views(before).push(item@));
                let rest = merged(ops@.skip(i as int), es);
                assert(views(before) + (seq![item@] + rest) =~= views(items@) + rest);
            }
        } else {
            let mut ev = TimedEvent { time_ps: 0, event_type_id: 0, payload: Vec::new() };
            std::mem::swap(&mut ev, &mut events[j]);
            let item = TimedItem::Event(ev);
            items.push(item);
            j = j + 1;
            proof {
                assert(item@ == TimedItemView::Event(all_events[j - 1]));
                assert(es.drop_first() =~= all_events.skip(j as int));
                assert(views(items@) =~= views(before).push(item@));
                let rest = merged(os, all_events.skip(j as int));
                assert(views(before) + (seq![item@] + rest) =~= views(items@) + rest);
            }
        }
    }
    proof {
        assert(merged(ops@.skip(i as int), all_events.skip(j as int)) =~= Seq::<
            TimedItemView,
        >::empty());
        assert(views(items@) + Seq::<TimedItemView>::empty() =~= views(items@));
    }
    items
}

impl Reader {
    /// The file header.
    pub fn header(&self) -> (h: &FileHeader)
        ensures
            *h == self@.header,
    {
        &self.header
    }

    /// The schema.
    pub fn schema(&self) -> (s: &Schema)
        ensures
            s@ == self@.schema,
    {
        &self.schema
    }

    /// The description of the design under test.
    pub fn dut_desc(&self) -> (d: &DutDesc)
        ensures
            d@ == self@.dut,
    {
        &self.dut
    }

    /// How the trace was recorded.
    pub fn trace_config(&self) -> (c: &TraceConfig)
        ensures
            *c == self@.config,
    {
        &self.trace_config
    }

    /// Types and places of the fields of each storage.
    pub fn field_offsets(&self) -> (o: &[FieldOffsets])
        ensures
            views(o@) == self@.layouts(),
    {
        proof {
            use_type_invariant(self);
        }
        self.field_offsets.as_slice()
    }

    /// The string table, if there is one.
    pub fn string_table(&self) -> (t: Option<&StringTable>)
        ensures
            match self@.strings {
                Some(s) => t is Some && t->Some_0@ == s,
                None => t is None,
            },
    {
        self.string_table.as_ref()
    }

    /// The segment table.
    pub fn segments(&self) -> (t: &[SegmentIndexEntry])
        ensures
            t@ == self@.table,
    {
        self.segment_table.as_slice()
    }

    /// The bytes of the trace.
    pub fn image(&self) -> (d: &[u8])
        ensures
            d@ == self@.data,
    {
        self.data.as_slice()
    }

    /// Set a pre-computed trace summary (mipmap data).
    pub fn set_trace_summary(&mut self, summary: TraceSummary)
        ensures
            final(self)@ == (ReaderView { summary: Some(summary@), ..old(self)@ }),
    {
        proof {
            use_type_invariant(&*self);
        }
        self.trace_summary = Some(summary);
    }

    /// Get the trace summary, if one has been computed/loaded.
    pub fn trace_summary(&self) -> (s: Option<&TraceSummary>)
        ensures
            match self@.summary {
                Some(v) => s is Some && s->Some_0@ == v,
                None => s is None,
            },
    {
        self.trace_summary.as_ref()
    }

    /// Another name of `set_trace_summary`.
    pub fn set_counter_summary(&mut self, summary: TraceSummary)
        ensures
            final(self)@ == (ReaderView { summary: Some(summary@), ..old(self)@ }),
    {
        self.set_trace_summary(summary);
    }

    /// Another name of `trace_summary`.
    pub fn counter_summary(&self) -> (s: Option<&TraceSummary>)
        ensures
            match self@.summary {
                Some(v) => s is Some && s->Some_0@ == v,
                None => s is None,
            },
    {
        self.trace_summary()
    }

    /// Look up a DUT property value by key.
    pub fn dut_property(&self, key: &str) -> (r: Option<&str>)
        ensures
            match self@.property(key@) {
                Some(v) => r is Some && r->Some_0@ == v,
                None => r is None,
            },
    {
        let pool = StringPoolReader::new(self.schema.string_pool.as_slice());
        let ghost ps = self.dut.properties@;
        let ghost data = self.schema.string_pool@;
        let mut i: usize = 0;
        assert(ps.skip(0) =~= ps);
        while i < self.dut.properties.len()
            invariant
                i <= ps.len(),
                ps == self.dut.properties@,
                data == self.schema.string_pool@,
                pool@ == data,
                find_property(ps, data, key@) == find_property(ps.skip(i as int), data, key@),
            decreases ps.len() - i,
        {
            let p: DutProperty = self.dut.properties[i];
            assert(ps.skip(i as int).drop_first() =~= ps.skip(i + 1));
            match pool.get(p.key) {
                Some(k) => {
                    if str_eq(k, key) {
                        return pool.get(p.value);
                    }
                },
                None => {},
            }
            i = i + 1;
        }
        None
    }

    /// All DUT properties as (key, value) string pairs.
    pub fn dut_properties(&self) -> (r: Vec<(&str, &str)>)
        ensures
            pair_texts(r@) == self@.properties(),
    {
        let pool = StringPoolReader::new(self.schema.string_pool.as_slice());
        let ghost ps = self.dut.properties@;
        let ghost data = self.schema.string_pool@;
        let mut out: Vec<(&str, &str)> = Vec::new();
        let mut i: usize = 0;
        assert(ps.take(0) =~= Seq::<DutProperty>::empty());
        assert(pair_texts(out@) =~= Seq::<(Seq<char>, Seq<char>)>::empty());
        while i < self.dut.properties.len()
            invariant
                i <= ps.len(),
                ps == self.dut.properties@,
                data == self.schema.string_pool@,
                pool@ == data,
                pair_texts(out@) == named_properties(ps.take(i as int), data),
            decreases ps.len() - i,
        {
            let p: DutProperty = self.dut.properties[i];
            proof {
                assert(ps.take(i + 1).drop_last() =~= ps.take(i as int));
                assert(ps.take(i + 1).last() == p);
            }
            let k = pool.get(p.key);
            let v = pool.get(p.value);
            if let Some(key) = k {
                if let Some(value) = v {
                    let ghost before = out@;
                    out.push((key, value));
                    assert(pair_texts(out@) =~= pair_texts(before).push((key@, value@)));
                }
            }
            i = i + 1;
        }
        assert(ps.take(i as int) =~= ps);
        out
    }

    /// Number of segments in the trace.
    pub fn segment_count(&self) -> (n: usize)
        ensures
            n == self@.table.len(),
    {
        self.segment_table.len()
    }

    /// The states of all storages before anything happened.
    fn initial_storages(&self) -> (st: Vec<StorageState>)
        ensures
            views(st@) == self@.initial(),
            all_wf(views(st@)),
    {
        proof {
            use_type_invariant(self);
        }
        match init_storages(&self.schema.storages) {
            Some((states, _offsets)) => states,
            None => Vec::new(),
        }
    }

    /// Reads the checkpoints at the start of a segment.
    fn read_checkpoints(&self, r: &mut ByteReader<'_>) -> (res: Result<
        Vec<StorageState>,
        TraceError,
    >)
        ensures
            match parse_checkpoints(old(r)@, self@.initial(), self@.initial().len()) {
                Ok((st, k)) => {
                    &&& res is Ok
                    &&& views(res->Ok_0@) == st
                    &&& all_wf(st)
                    &&& st.len() == self@.initial().len()
                    &&& 0 <= k <= old(r)@.len()
                    &&& final(r)@ == suffix(old(r)@, k)
                },
                Err(e) => res == Err::<Vec<StorageState>, TraceError>(e),
            },
    {
        let ghost s = r@;
        let ghost init = self@.initial();
        let mut storages = self.initial_storages();
        let n: usize = storages.len();
        let mut i: usize = 0;
        let ghost mut k: int = 0;
        let ghost mut done: Seq<StorageView> = Seq::empty();
        assert(suffix(s, 0) =~= s);
        while i < n
            invariant
                i <= n,
                n == init.len(),
                s == old(r)@,
                0 <= k <= s.len(),
                r@ == suffix(s, k),
                init == self@.initial(),
                parse_checkpoints(s, init, i as nat) == Ok::<
                    (Seq<StorageView>, int),
                    TraceError,
                >((done, k)),
                done.len() == i,
                storages@.len() == n,
                all_wf(views(storages@)),
                forall|j: int| 0 <= j < i ==> (#[trigger] views(storages@)[j]) == done[j],
                forall|j: int| i <= j < n ==> (#[trigger] views(storages@)[j]) == init[j],
            decreases n - i,
        {
            proof {
                if parse_checkpoints(s, init, (i + 1) as nat) is Err {
                    lemma_parse_checkpoints_err(s, init, (i + 1) as nat, n as nat);
                }
            }
            let block = match CheckpointBlock::read_from(r) {
                Err(e) => return Err(e),
                Ok(b) => b,
            };
            let ghost now = views(storages@);
            proof {
                lemma_suffix_suffix(s, k, 8);
                assert(now[i as int] == init[i as int]);
                assert(now[i as int].wf());
            }
            match storages[i].read_checkpoint(r, block.size) {
                Err(e) => return Err(e),
                Ok(_) => {},
            }
            proof {
                lemma_suffix_suffix(s, k + 8, block.size as int);
                k = k + 8 + block.size;
                done = done.push(storages@[i as int]@);
                let after = views(storages@);
                assert(after =~= now.update(i as int, storages@[i as int]@));
            }
            i = i + 1;
        }
        assert(views(storages@) =~= done);
        Ok(storages)
    }

    /// Reads a delta blob of `size` bytes.
    fn read_blob(&self, r: &mut ByteReader<'_>, size: u32) -> (res: Result<Vec<u8>, TraceError>)
        ensures
            match delta_blob(old(r)@, size, self@.header.flags) {
                Ok(raw) => res is Ok && res->Ok_0@ == raw,
                Err(e) => res == Err::<Vec<u8>, TraceError>(e),
            },
    {
        let b = match r.take(size as usize) {
            Err(e) => return Err(e),
            Ok(b) => b,
        };
        if self.header.flags & F_COMPRESSED != 0 {
            decompress(b)
        } else {
            let mut raw: Vec<u8> = Vec::new();
            crate::types::put_slice(&mut raw, b);
            assert(raw@ =~= b@);
            Ok(raw)
        }
    }

    /// Replays a delta blob from the given states.
    fn replay_blob(
        &self,
        raw: &[u8],
        storages: &mut Vec<StorageState>,
        start: u64,
        target: Option<u64>,
    ) -> (res: Result<(u64, Vec<TimedItem>), TraceError>)
        requires
            all_wf(views(old(storages)@)),
            old(storages)@.len() == self@.initial().len(),
        ensures
            all_wf(views(final(storages)@)),
            match replay(
                raw@,
                self@.header.flags,
                views(old(storages)@),
                self@.layouts(),
                start,
                target,
            ) {
                Ok(x) => {
                    &&& res is Ok
                    &&& res->Ok_0.0 == x.time
                    &&& views(res->Ok_0.1@) == x.items
                    &&& views(final(storages)@) == x.states
                },
                Err(e) => res == Err::<(u64, Vec<TimedItem>), TraceError>(e),
            },
    {
        proof {
            use_type_invariant(self);
            assert(views(self.field_offsets@).len() == self.field_offsets@.len());
        }
        if self.header.flags & F_INTERLEAVED_DELTAS != 0 {
            replay_deltas_v2(raw, storages, self.field_offsets.as_slice(), start, target)
        } else {
            let compact: bool = self.header.flags & F_COMPACT_DELTAS != 0;
            match replay_deltas(
                raw,
                storages,
                self.field_offsets.as_slice(),
                start,
                target,
                compact,
            ) {
                Err(e) => Err(e),
                Ok((time, events, ops)) => Ok((time, merge_items(ops, events))),
            }
        }
    }

    /// Replays the segment at `offset` from its checkpoint.
    fn replay_at(&self, offset: u64, target: Option<u64>) -> (res: Result<
        (u64, Vec<StorageState>, Vec<TimedItem>),
        TraceError,
    >)
        ensures
            match self@.replay_segment(offset, target) {
                Ok(x) => {
                    &&& res is Ok
                    &&& res->Ok_0.0 == x.time
                    &&& views(res->Ok_0.1@) == x.states
                    &&& views(res->Ok_0.2@) == x.items
                    &&& all_wf(x.states)
                },
                Err(e) => res == Err::<(u64, Vec<StorageState>, Vec<TimedItem>), TraceError>(e),
            },
    {
        let mut r = ByteReader::at(self.data.as_slice(), offset);
        let h = match SegmentHeader::read_from(&mut r) {
            Err(e) => return Err(e),
            Ok(h) => h,
        };
        let mut storages = match self.read_checkpoints(&mut r) {
            Err(e) => return Err(e),
            Ok(s) => s,
        };
        let raw = match self.read_blob(&mut r, h.deltas_compressed_size) {
            Err(e) => return Err(e),
            Ok(b) => b,
        };
        match self.replay_blob(raw.as_slice(), &mut storages, h.time_start_ps, target) {
            Err(e) => Err(e),
            Ok((time, items)) => Ok((time, storages, items)),
        }
    }

    /// Reconstruct state at a given time.
    pub fn state_at(&self, time_ps: u64) -> (res: Result<TraceState, TraceError>)
        ensures
            match self@.state_at(time_ps) {
                Ok((t, st)) => {
                    &&& res is Ok
                    &&& res->Ok_0.time_ps == t
                    &&& views(res->Ok_0.storages@) == st
                    &&& all_wf(st)
                },
                Err(e) => res == Err::<TraceState, TraceError>(e),
            },
    {
        match find_segment_for_time(self.segment_table.as_slice(), time_ps) {
            None => Err(TraceError::NoSegmentForTime),
            Some(i) => match self.replay_at(self.segment_table[i].offset, Some(time_ps)) {
                Err(e) => Err(e),
                Ok((t, storages, _items)) => Ok(TraceState { time_ps: t, storages }),
            },
        }
    }

    /// Adds the events of a segment in a time range.
    fn add_events(&self, offset: u64, t0: u64, t1: u64, out: &mut Vec<TimedEvent>) -> (res: Result<
        (),
        TraceError,
    >)
        ensures
            match self@.segment_events(offset, t0, t1) {
                Ok(more) => res is Ok && views(final(out)@) == views(old(out)@) + more,
                Err(e) => res == Err::<(), TraceError>(e),
            },
    {
        let mut r = ByteReader::at(self.data.as_slice(), offset);
        let h = match SegmentHeader::read_from(&mut r) {
            Err(e) => return Err(e),
            Ok(h) => h,
        };
        match r.take(h.checkpoint_size as usize) {
            Err(e) => return Err(e),
            Ok(_) => {},
        }
        let raw = match self.read_blob(&mut r, h.deltas_compressed_size) {
            Err(e) => return Err(e),
            Ok(b) => b,
        };
        let mut storages = self.initial_storages();
        let (_time, mut items) = match self.replay_blob(
            raw.as_slice(),
            &mut storages,
            h.time_start_ps,
            Some(t1),
        ) {
            Err(e) => return Err(e),
            Ok(p) => p,
        };
        let ghost all = views(items@);
        let ghost start = views(out@);
        let n: usize = items.len();
        let mut i: usize = 0;
        assert(all.take(0) =~= Seq::<TimedItemView>::empty());
        assert(views(out@) =~= start + events_within(events_of(all.take(0)), t0, t1));
        while i < n
            invariant
                i <= n,
                n == all.len(),
                items@.len() == n,
                forall|k: int| i <= k < n ==> (#[trigger] items@[k])@ == all[k],
                views(out@) == start + events_within(events_of(all.take(i as int)), t0, t1),
            decreases n - i,
        {
            proof {
                assert(all.take(i + 1).drop_last() =~= all.take(i as int));
                assert(all.take(i + 1).last() == all[i as int]);
            }
            let mut item = TimedItem::Op(
                TimedOp {
                    time_ps: 0,
                    storage_id: 0,
                    slot: 0,
                    action: 0,
                    field_index: 0,
                    value: 0,
                },
            );
            assert(items@[i as int]@ == all[i as int]);
            std::mem::swap(&mut item, &mut items[i]);
            match item {
                TimedItem::Event(ev) => {
                    proof {
                        let es = events_of(all.take(i as int));
                        assert(events_of(all.take(i + 1)) =~= es.push(ev@));
                        assert(es.push(ev@).drop_last() =~= es);
                    }
                    if t0 <= ev.time_ps && ev.time_ps <= t1 {
                        let ghost before = out@;
                        out.push(ev);
                        proof {
                            assert(views(out@) =~= views(before).push(ev@));
                            assert(views(out@) =~= start + events_within(
                                events_of(all.take(i + 1)),
                                t0,
                                t1,
                            ));
                        }
                    }
                },
                TimedItem::Op(_) => {},
            }
            i = i + 1;
        }
        assert(all.take(n as int) =~= all);
        Ok(())
    }

    /// Get all events in a time range.
    pub fn events_in_range(&self, t0: u64, t1: u64) -> (res: Result<Vec<TimedEvent>, TraceError>)
        ensures
            match self@.events_in_range(t0, t1) {
                Ok(es) => res is Ok && views(res->Ok_0@) == es,
                Err(e) => res == Err::<Vec<TimedEvent>, TraceError>(e),
            },
    {
        let mut all: Vec<TimedEvent> = Vec::new();
        assert(views(all@) =~= Seq::<TimedEventView>::empty());
        let from = find_segment_for_time(self.segment_table.as_slice(), t0);
        let to = find_segment_for_time(self.segment_table.as_slice(), t1);
        let found: usize = match from {
            None => 0,
            Some(i) => i,
        };
        let last: usize = match to {
            None => {
                if from.is_none() {
                    return Ok(all);
                }
                found
            },
            Some(i) => i,
        };
        let ghost table = self@.table;
        let mut first: usize = found;
        while first > 0 && self.segment_table[first - 1].time_end_ps >= t0
            invariant
                first <= found < table.len(),
                table == self.segment_table@,
                first_reaching(table, found as int, t0) == first_reaching(table, first as int, t0),
            decreases first,
        {
            first = first - 1;
        }
        assert(first_reaching(table, first as int, t0) == first);
        let count: usize = self.segment_table.len();
        let mut idx: usize = first;
        while idx <= last
            invariant
                first <= found < table.len(),
                table == self@.table,
                table == self.segment_table@,
                last < table.len(),
                count == table.len(),
                idx <= last + 1 || idx == first,
                first <= idx,
                self@.events_between(first as int, idx as int, t0, t1) == Ok::<
                    Seq<TimedEventView>,
                    TraceError,
                >(views(all@)),
                self@.events_in_range(t0, t1) == self@.events_between(
                    first as int,
                    last + 1,
                    t0,
                    t1,
                ),
            decreases last + 1 - idx,
        {
            let ghost before = views(all@);
            proof {
                if self@.events_between(first as int, idx + 1, t0, t1) is Err {
                    self@.lemma_events_err(first as int, idx + 1, last + 1, t0, t1);
                }
            }
            match self.add_events(self.segment_table[idx].offset, t0, t1, &mut all) {
                Err(e) => return Err(e),
                Ok(_) => {},
            }
            idx = idx + 1;
        }
        proof {
            if idx > last + 1 {
                assert(self@.events_between(first as int, last + 1, t0, t1) == Ok::<
                    Seq<TimedEventView>,
                    TraceError,
                >(Seq::empty()));
                assert(self@.events_between(first as int, idx as int, t0, t1) == Ok::<
                    Seq<TimedEventView>,
                    TraceError,
                >(Seq::empty()));
            }
        }
        Ok(all)
    }

    /// Replay a single segment, returning storage states and ordered items.
    pub fn segment_replay(&self, seg_idx: usize) -> (res: Result<
        (Vec<StorageState>, Vec<TimedItem>),
        TraceError,
    >)
        ensures
            if seg_idx >= self@.table.len() {
                res == Err::<(Vec<StorageState>, Vec<TimedItem>), TraceError>(
                    TraceError::SegmentOutOfRange,
                )
            } else {
                match self@.replay_segment(self@.table[seg_idx as int].offset, None) {
                    Ok(x) => {
                        &&& res is Ok
                        &&& views(res->Ok_0.0@) == x.states
                        &&& views(res->Ok_0.1@) == x.items
                    },
                    Err(e) => res == Err::<(Vec<StorageState>, Vec<TimedItem>), TraceError>(e),
                }
            },
    {
        if seg_idx >= self.segment_table.len() {
            return Err(TraceError::SegmentOutOfRange);
        }
        match self.replay_at(self.segment_table[seg_idx].offset, None) {
            Err(e) => Err(e),
            Ok((_time, storages, items)) => Ok((storages, items)),
        }
    }

    /// Check for new segments (live tailing): `data` is the trace as it is
    /// now. Returns whether there are any. Where it fails, nothing changes.
    pub fn poll_new_segments(&mut self, data: Vec<u8>) -> (res: Result<bool, TraceError>)
        ensures
            match old(self)@.polled(data@) {
                Ok((v, b)) => res == Ok::<bool, TraceError>(b) && final(self)@ == v,
                Err(e) => res == Err::<bool, TraceError>(e) && final(self)@ == old(self)@,
            },
    {
        proof {
            use_type_invariant(&*self);
        }
        let mut r = ByteReader::new(data.as_slice());
        let header = match FileHeader::read_from(&mut r) {
            Err(e) => return Err(e),
            Ok(h) => h,
        };
        let old_tail: u64 = self.header.tail_offset;
        if header.tail_offset != old_tail && header.tail_offset != 0 {
            let found = match walk_until(data.as_slice(), header.tail_offset, old_tail) {
                Err(e) => return Err(e),
                Ok(c) => c,
            };
            let mut more = index_chain(&found);
            let mut table = copy_vec(&self.segment_table);
            table.append(&mut more);
            self.segment_table = table;
            self.header = header;
            self.data = data;
            return Ok(true);
        }
        self.header = header;
        self.data = data;
        Ok(false)
    }
}

impl ReaderView {
    /// The reader after it looked at the trace as it is now, and whether
    /// there are new segments.
    pub open spec fn polled(self, data: Seq<u8>) -> Result<(ReaderView, bool), TraceError> {
        match FileHeader::decode(data) {
            Err(e) => Err(e),
            Ok((header, _)) => if header.tail_offset != self.header.tail_offset
                && header.tail_offset != 0 {
                match chain_until(
                    data,
                    header.tail_offset,
                    self.header.tail_offset,
                    data.len(),
                ) {
                    Err(e) => Err(e),
                    Ok(c) => Ok(
                        (
                            ReaderView {
                                data,
                                header,
                                table: self.table + chain_entries(c),
                                ..self
                            },
                            true,
                        ),
                    ),
                }
            } else {
                Ok((ReaderView { data, header, ..self }, false))
            },
        }
    }

    proof fn lemma_events_err(self, i: int, j: int, k: int, t0: u64, t1: u64)
        requires
            i <= j <= k,
            self.events_between(i, j, t0, t1) is Err,
        ensures
            self.events_between(i, k, t0, t1) == self.events_between(i, j, t0, t1),
        decreases k - j,
    {
        if j < k {
            self.lemma_events_err(i, j, k - 1, t0, t1);
        }
    }
}

} // verus!
