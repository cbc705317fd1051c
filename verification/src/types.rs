//! The records of a trace file. All multi-byte integers are little-endian.

use vstd::prelude::*;
use crate::bytes::{
    get_u16, get_u32, get_u64, lemma_u16_at, lemma_u32_at, lemma_u64_at, put_u16, put_u32, put_u64,
    suffix, u16_at, u16_bytes, u32_at, u32_bytes, u64_at, u64_bytes, ByteReader,
};
use crate::error::TraceError;
pub use crate::wire::Wire;
use crate::wire::{
    decode_n, encode_all, law_all_roundtrip, lemma_decode_n_bounds, lemma_suffix_suffix, read_n,
    views, write_all,
};

verus! {

broadcast use crate::bytes::group_le_len;

/// "uSCP".
pub const MAGIC: [u8; 4] = [0x75, 0x53, 0x43, 0x50];

/// "uSEG".
pub const SEG_MAGIC: [u8; 4] = [0x75, 0x53, 0x45, 0x47];

pub const VERSION_MAJOR: u16 = 0;

pub const VERSION_MINOR: u16 = 1;

// File header flags.

/// The trace was closed properly.
pub const F_COMPLETE: u64 = 0x01;

/// Delta blobs are compressed.
pub const F_COMPRESSED: u64 = 0x02;

/// There is a string table.
pub const F_HAS_STRINGS: u64 = 0x04;

/// Bits 3 to 5 hold the compression method.
pub const F_COMP_METHOD_SHIFT: u32 = 3;

pub const F_COMP_METHOD_MASK: u64 = 0x38;

pub const COMP_LZ4: u64 = 0;

pub const COMP_ZSTD: u64 = 1;

/// Frames may hold compact operations.
pub const F_COMPACT_DELTAS: u64 = 0x40;

/// Frames hold operations and events in one list, in the order of insertion.
pub const F_INTERLEAVED_DELTAS: u64 = 0x80;

// Storage flags.

/// Only valid slots are stored in a checkpoint.
pub const SF_SPARSE: u16 = 0x01;

/// The storage is a hardware buffer.
pub const SF_BUFFER: u16 = 0x02;

// Roles of a storage property.

pub const PROP_ROLE_PLAIN: u8 = 0;

pub const PROP_ROLE_HEAD_PTR: u8 = 1;

pub const PROP_ROLE_TAIL_PTR: u8 = 2;

// Preamble chunk types.

pub const CHUNK_END: u16 = 0x0000;

pub const CHUNK_DUT_DESC: u16 = 0x0001;

pub const CHUNK_SCHEMA: u16 = 0x0002;

pub const CHUNK_TRACE_CONFIG: u16 = 0x0003;

// Section types.

pub const SECTION_END: u16 = 0x0000;

pub const SECTION_SUMMARY: u16 = 0x0001;

pub const SECTION_STRINGS: u16 = 0x0002;

pub const SECTION_SEGMENTS: u16 = 0x0003;

pub const SECTION_COUNTER_SUMMARY: u16 = 0x0004;

// Delta actions.

pub const DA_SLOT_SET: u8 = 0x01;

pub const DA_SLOT_CLEAR: u8 = 0x02;

pub const DA_SLOT_ADD: u8 = 0x03;

pub const DA_PROP_SET: u8 = 0x04;

// Tags of the items of an interleaved frame.

pub const TAG_WIDE_OP: u8 = 0x01;

pub const TAG_COMPACT_OP: u8 = 0x02;

pub const TAG_EVENT: u8 = 0x03;

/// The type of a field or a property.
#[derive(Debug, Clone, Copy, PartialEq, Eq, Structural)]
pub enum FieldType {
    U8,
    U16,
    U32,
    U64,
    I8,
    I16,
    I32,
    I64,
    Bool,
    StringRef,
    Enum,
}

impl FieldType {
    /// The number that stands for the type in a trace.
    pub open spec fn spec_code(self) -> u8 {
        match self {
            FieldType::U8 => 0x01,
            FieldType::U16 => 0x02,
            FieldType::U32 => 0x03,
            FieldType::U64 => 0x04,
            FieldType::I8 => 0x05,
            FieldType::I16 => 0x06,
            FieldType::I32 => 0x07,
            FieldType::I64 => 0x08,
            FieldType::Bool => 0x09,
            FieldType::StringRef => 0x0A,
            FieldType::Enum => 0x0B,
        }
    }

    /// The size in bytes of a value of the type.
    pub open spec fn spec_size(self) -> nat {
        match self {
            FieldType::U8 | FieldType::I8 | FieldType::Bool | FieldType::Enum => 1,
            FieldType::U16 | FieldType::I16 => 2,
            FieldType::U32 | FieldType::I32 | FieldType::StringRef => 4,
            FieldType::U64 | FieldType::I64 => 8,
        }
    }

    /// The number that stands for the type in a trace.
    pub fn code(self) -> (c: u8)
        ensures
            c == self.spec_code(),
    {
        match self {
            FieldType::U8 => 0x01,
            FieldType::U16 => 0x02,
            FieldType::U32 => 0x03,
            FieldType::U64 => 0x04,
            FieldType::I8 => 0x05,
            FieldType::I16 => 0x06,
            FieldType::I32 => 0x07,
            FieldType::I64 => 0x08,
            FieldType::Bool => 0x09,
            FieldType::StringRef => 0x0A,
            FieldType::Enum => 0x0B,
        }
    }

    /// The type that `v` stands for.
    pub fn from_u8(v: u8) -> (r: Option<FieldType>)
        ensures
            r == field_type_of(v),
    {
        match v {
            0x01 => Some(FieldType::U8),
            0x02 => Some(FieldType::U16),
            0x03 => Some(FieldType::U32),
            0x04 => Some(FieldType::U64),
            0x05 => Some(FieldType::I8),
            0x06 => Some(FieldType::I16),
            0x07 => Some(FieldType::I32),
            0x08 => Some(FieldType::I64),
            0x09 => Some(FieldType::Bool),
            0x0A => Some(FieldType::StringRef),
            0x0B => Some(FieldType::Enum),
            _ => None,
        }
    }

    /// Size in bytes of a value of this field type.
    pub fn size(self) -> (n: usize)
        ensures
            n == self.spec_size(),
    {
        match self {
            FieldType::U8 | FieldType::I8 | FieldType::Bool | FieldType::Enum => 1,
            FieldType::U16 | FieldType::I16 => 2,
            FieldType::U32 | FieldType::I32 | FieldType::StringRef => 4,
            FieldType::U64 | FieldType::I64 => 8,
        }
    }
}

/// The type whose number is `v`, if there is one.
pub open spec fn field_type_of(v: u8) -> Option<FieldType> {
    if v == 0x01 {
        Some(FieldType::U8)
    } else if v == 0x02 {
        Some(FieldType::U16)
    } else if v == 0x03 {
        Some(FieldType::U32)
    } else if v == 0x04 {
        Some(FieldType::U64)
    } else if v == 0x05 {
        Some(FieldType::I8)
    } else if v == 0x06 {
        Some(FieldType::I16)
    } else if v == 0x07 {
        Some(FieldType::I32)
    } else if v == 0x08 {
        Some(FieldType::I64)
    } else if v == 0x09 {
        Some(FieldType::Bool)
    } else if v == 0x0A {
        Some(FieldType::StringRef)
    } else if v == 0x0B {
        Some(FieldType::Enum)
    } else {
        None
    }
}

/// `from_u8` undoes `code`, and knows no other number.
pub proof fn law_field_type_code(t: FieldType, v: u8)
    ensures
        field_type_of(t.spec_code()) == Some(t),
        field_type_of(v) is Some ==> field_type_of(v)->Some_0.spec_code() == v,
        field_type_of(v) is None <==> v == 0 || v > 0x0B,
{
}

/// The header at the start of a trace file.
#[derive(Debug, Clone, Copy)]
pub struct FileHeader {
    pub magic: [u8; 4],
    pub version_major: u16,
    pub version_minor: u16,
    pub flags: u64,
    pub total_time_ps: u64,
    pub num_segments: u32,
    /// Where the preamble ends and the first segment starts.
    pub preamble_end: u32,
    /// Where the section table starts; 0 while the trace is being written.
    pub section_table_offset: u64,
    /// Where the last segment starts; 0 while there is none.
    pub tail_offset: u64,
}

impl FileHeader {
    /// Size in bytes.
    pub const SIZE: usize = 48;

    /// The header of a trace that is being written: nothing in it yet, with
    /// compressed, compact, interleaved frames.
    pub fn new() -> (h: FileHeader)
        ensures
            h == spec_new_header(),
    {
        FileHeader {
            magic: MAGIC,
            version_major: VERSION_MAJOR,
            version_minor: VERSION_MINOR,
            flags: F_COMPRESSED | F_COMPACT_DELTAS | F_INTERLEAVED_DELTAS,
            total_time_ps: 0,
            num_segments: 0,
            preamble_end: 0,
            section_table_offset: 0,
            tail_offset: 0,
        }
    }
}

impl View for FileHeader {
    type V = FileHeader;

    open spec fn view(&self) -> FileHeader {
        *self
    }
}

impl Wire for FileHeader {
    open spec fn encode(v: FileHeader) -> Seq<u8> {
        v.magic@
            + u16_bytes(v.version_major)
            + u16_bytes(v.version_minor)
            + u64_bytes(v.flags)
            + u64_bytes(v.total_time_ps)
            + u32_bytes(v.num_segments)
            + u32_bytes(v.preamble_end)
            + u64_bytes(v.section_table_offset)
            + u64_bytes(v.tail_offset)
    }

    open spec fn decode(s: Seq<u8>) -> Result<(FileHeader, int), TraceError> {
        if s.len() < 4 {
            Err(TraceError::UnexpectedEof)
        } else if s.subrange(0, 4) != MAGIC@ {
            Err(TraceError::InvalidMagic)
        } else if s.len() < 48 {
            Err(TraceError::UnexpectedEof)
        } else {
            Ok(
                (
                    FileHeader {
                        magic: MAGIC,
                        version_major: u16_at(s, 4),
                        version_minor: u16_at(s, 6),
                        flags: u64_at(s, 8),
                        total_time_ps: u64_at(s, 16),
                        num_segments: u32_at(s, 24),
                        preamble_end: u32_at(s, 28),
                        section_table_offset: u64_at(s, 32),
                        tail_offset: u64_at(s, 40),
                    },
                    48,
                ),
            )
        }
    }

    open spec fn encodable(v: FileHeader) -> bool {
        v.magic@ == MAGIC@
    }

    fn write_to(&self, w: &mut Vec<u8>) {
        w.push(self.magic[0]);
        w.push(self.magic[1]);
        w.push(self.magic[2]);
        w.push(self.magic[3]);
        put_u16(w, self.version_major);
        put_u16(w, self.version_minor);
        put_u64(w, self.flags);
        put_u64(w, self.total_time_ps);
        put_u32(w, self.num_segments);
        put_u32(w, self.preamble_end);
        put_u64(w, self.section_table_offset);
        put_u64(w, self.tail_offset);
        assert(w@ =~= old(w)@ + Self::encode(*self));
    }

    fn read_from(r: &mut ByteReader<'_>) -> (res: Result<FileHeader, TraceError>) {
        proof {
            reveal(u16_at);
            reveal(u32_at);
            reveal(u64_at);
        }
        let ghost s = r@;
        let m = match r.take(4) {
            Err(e) => return Err(e),
            Ok(m) => m,
        };
        if m[0] != MAGIC[0] || m[1] != MAGIC[1] || m[2] != MAGIC[2] || m[3] != MAGIC[3] {
            return Err(TraceError::InvalidMagic);
        }
        assert(s.subrange(0, 4) =~= MAGIC@);
        let b = match r.take(44) {
            Err(e) => return Err(e),
            Ok(b) => b,
        };
        assert(forall|i: int| 0 <= i < 44 ==> b@[i] == s[i + 4]);
        assert(r@ =~= suffix(s, 48));
        Ok(
            FileHeader {
                magic: MAGIC,
                version_major: get_u16(b, 0),
                version_minor: get_u16(b, 2),
                flags: get_u64(b, 4),
                total_time_ps: get_u64(b, 12),
                num_segments: get_u32(b, 20),
                preamble_end: get_u32(b, 24),
                section_table_offset: get_u64(b, 28),
                tail_offset: get_u64(b, 36),
            },
        )
    }

    proof fn law_decode_bounds(s: Seq<u8>) {
    }

    proof fn law_roundtrip(v: FileHeader, rest: Seq<u8>) {
        let s = Self::encode(v) + rest;
        assert(s.subrange(0, 4) =~= MAGIC@);
        assert(MAGIC =~= v.magic);
        assert(s.subrange(4, 6) =~= u16_bytes(v.version_major));
        lemma_u16_at(s, 4, v.version_major);
        assert(s.subrange(6, 8) =~= u16_bytes(v.version_minor));
        lemma_u16_at(s, 6, v.version_minor);
        assert(s.subrange(8, 16) =~= u64_bytes(v.flags));
        lemma_u64_at(s, 8, v.flags);
        assert(s.subrange(16, 24) =~= u64_bytes(v.total_time_ps));
        lemma_u64_at(s, 16, v.total_time_ps);
        assert(s.subrange(24, 28) =~= u32_bytes(v.num_segments));
        lemma_u32_at(s, 24, v.num_segments);
        assert(s.subrange(28, 32) =~= u32_bytes(v.preamble_end));
        lemma_u32_at(s, 28, v.preamble_end);
        assert(s.subrange(32, 40) =~= u64_bytes(v.section_table_offset));
        lemma_u64_at(s, 32, v.section_table_offset);
        assert(s.subrange(40, 48) =~= u64_bytes(v.tail_offset));
        lemma_u64_at(s, 40, v.tail_offset);
    }
}

/// The header of a trace that is being written.
pub open spec fn spec_new_header() -> FileHeader {
    FileHeader {
        magic: MAGIC,
        version_major: VERSION_MAJOR,
        version_minor: VERSION_MINOR,
        flags: F_COMPRESSED | F_COMPACT_DELTAS | F_INTERLEAVED_DELTAS,
        total_time_ps: 0,
        num_segments: 0,
        preamble_end: 0,
        section_table_offset: 0,
        tail_offset: 0,
    }
}

impl Default for FileHeader {
    fn default() -> (h: FileHeader)
        ensures
            h == spec_new_header(),
    {
        FileHeader::new()
    }
}

/// How the trace was recorded.
#[derive(Debug, Clone, Copy)]
pub struct TraceConfig {
    pub checkpoint_interval_ps: u64,
}

impl TraceConfig {
    /// Size in bytes.
    pub const SIZE: usize = 8;
}

impl View for TraceConfig {
    type V = TraceConfig;

    open spec fn view(&self) -> TraceConfig {
        *self
    }
}

impl Wire for TraceConfig {
    open spec fn encode(v: TraceConfig) -> Seq<u8> {
        u64_bytes(v.checkpoint_interval_ps)
    }

    open spec fn decode(s: Seq<u8>) -> Result<(TraceConfig, int), TraceError> {
        if s.len() < 8 {
            Err(TraceError::UnexpectedEof)
        } else {
            Ok(
                (
                    TraceConfig {
                        checkpoint_interval_ps: u64_at(s, 0),
                    },
                    8,
                ),
            )
        }
    }

    open spec fn encodable(v: TraceConfig) -> bool {
        true
    }

    fn write_to(&self, w: &mut Vec<u8>) {
        put_u64(w, self.checkpoint_interval_ps);
        assert(w@ =~= old(w)@ + Self::encode(*self));
    }

    fn read_from(r: &mut ByteReader<'_>) -> (res: Result<TraceConfig, TraceError>) {
        proof {
            reveal(u16_at);
            reveal(u32_at);
            reveal(u64_at);
        }
        let b = match r.take(8) {
            Err(e) => return Err(e),
            Ok(b) => b,
        };
        Ok(
            TraceConfig {
                checkpoint_interval_ps: get_u64(b, 0),
            },
        )
    }

    proof fn law_decode_bounds(s: Seq<u8>) {
    }

    proof fn law_roundtrip(v: TraceConfig, rest: Seq<u8>) {
        let s = Self::encode(v) + rest;
        assert(s.subrange(0, 8) =~= u64_bytes(v.checkpoint_interval_ps));
        lemma_u64_at(s, 0, v.checkpoint_interval_ps);
    }
}

/// A property of the design under test, as two string pool offsets.
#[derive(Debug, Clone, Copy)]
pub struct DutProperty {
    pub key: u16,
    pub value: u16,
}

impl DutProperty {
    /// Size in bytes.
    pub const SIZE: usize = 4;
}

impl View for DutProperty {
    type V = DutProperty;

    open spec fn view(&self) -> DutProperty {
        *self
    }
}

impl Wire for DutProperty {
    open spec fn encode(v: DutProperty) -> Seq<u8> {
        u16_bytes(v.key)
            + u16_bytes(v.value)
    }

    open spec fn decode(s: Seq<u8>) -> Result<(DutProperty, int), TraceError> {
        if s.len() < 4 {
            Err(TraceError::UnexpectedEof)
        } else {
            Ok(
                (
                    DutProperty {
                        key: u16_at(s, 0),
                        value: u16_at(s, 2),
                    },
                    4,
                ),
            )
        }
    }

    open spec fn encodable(v: DutProperty) -> bool {
        true
    }

    fn write_to(&self, w: &mut Vec<u8>) {
        put_u16(w, self.key);
        put_u16(w, self.value);
        assert(w@ =~= old(w)@ + Self::encode(*self));
    }

    fn read_from(r: &mut ByteReader<'_>) -> (res: Result<DutProperty, TraceError>) {
        proof {
            reveal(u16_at);
        }
        let b = match r.take(4) {
            Err(e) => return Err(e),
            Ok(b) => b,
        };
        Ok(
            DutProperty {
                key: get_u16(b, 0),
                value: get_u16(b, 2),
            },
        )
    }

    proof fn law_decode_bounds(s: Seq<u8>) {
    }

    proof fn law_roundtrip(v: DutProperty, rest: Seq<u8>) {
        let s = Self::encode(v) + rest;
        assert(s.subrange(0, 2) =~= u16_bytes(v.key));
        lemma_u16_at(s, 0, v.key);
        assert(s.subrange(2, 4) =~= u16_bytes(v.value));
        lemma_u16_at(s, 2, v.value);
    }
}

/// The counts at the start of a schema.
#[derive(Debug, Clone, Copy)]
pub struct SchemaHeader {
    pub num_enums: u8,
    pub num_clock_domains: u8,
    pub num_scopes: u16,
    pub num_storages: u16,
    pub num_event_types: u16,
    pub num_summary_fields: u16,
    pub string_pool_offset: u16,
}

impl SchemaHeader {
    /// Size in bytes.
    pub const SIZE: usize = 12;
}

impl View for SchemaHeader {
    type V = SchemaHeader;

    open spec fn view(&self) -> SchemaHeader {
        *self
    }
}

impl Wire for SchemaHeader {
    open spec fn encode(v: SchemaHeader) -> Seq<u8> {
        seq![v.num_enums]
            + seq![v.num_clock_domains]
            + u16_bytes(v.num_scopes)
            + u16_bytes(v.num_storages)
            + u16_bytes(v.num_event_types)
            + u16_bytes(v.num_summary_fields)
            + u16_bytes(v.string_pool_offset)
    }

    open spec fn decode(s: Seq<u8>) -> Result<(SchemaHeader, int), TraceError> {
        if s.len() < 12 {
            Err(TraceError::UnexpectedEof)
        } else {
            Ok(
                (
                    SchemaHeader {
                        num_enums: s[0],
                        num_clock_domains: s[1],
                        num_scopes: u16_at(s, 2),
                        num_storages: u16_at(s, 4),
                        num_event_types: u16_at(s, 6),
                        num_summary_fields: u16_at(s, 8),
                        string_pool_offset: u16_at(s, 10),
                    },
                    12,
                ),
            )
        }
    }

    open spec fn encodable(v: SchemaHeader) -> bool {
        true
    }

    fn write_to(&self, w: &mut Vec<u8>) {
        w.push(self.num_enums);
        w.push(self.num_clock_domains);
        put_u16(w, self.num_scopes);
        put_u16(w, self.num_storages);
        put_u16(w, self.num_event_types);
        put_u16(w, self.num_summary_fields);
        put_u16(w, self.string_pool_offset);
        assert(w@ =~= old(w)@ + Self::encode(*self));
    }

    fn read_from(r: &mut ByteReader<'_>) -> (res: Result<SchemaHeader, TraceError>) {
        proof {
            reveal(u16_at);
        }
        let b = match r.take(12) {
            Err(e) => return Err(e),
            Ok(b) => b,
        };
        Ok(
            SchemaHeader {
                num_enums: b[0],
                num_clock_domains: b[1],
                num_scopes: get_u16(b, 2),
                num_storages: get_u16(b, 4),
                num_event_types: get_u16(b, 6),
                num_summary_fields: get_u16(b, 8),
                string_pool_offset: get_u16(b, 10),
            },
        )
    }

    proof fn law_decode_bounds(s: Seq<u8>) {
    }

    proof fn law_roundtrip(v: SchemaHeader, rest: Seq<u8>) {
        let s = Self::encode(v) + rest;
        assert(s[0] == v.num_enums);
        assert(s[1] == v.num_clock_domains);
        assert(s.subrange(2, 4) =~= u16_bytes(v.num_scopes));
        lemma_u16_at(s, 2, v.num_scopes);
        assert(s.subrange(4, 6) =~= u16_bytes(v.num_storages));
        lemma_u16_at(s, 4, v.num_storages);
        assert(s.subrange(6, 8) =~= u16_bytes(v.num_event_types));
        lemma_u16_at(s, 6, v.num_event_types);
        assert(s.subrange(8, 10) =~= u16_bytes(v.num_summary_fields));
        lemma_u16_at(s, 8, v.num_summary_fields);
        assert(s.subrange(10, 12) =~= u16_bytes(v.string_pool_offset));
        lemma_u16_at(s, 10, v.string_pool_offset);
    }
}

/// A clock domain.
#[derive(Debug, Clone, Copy)]
pub struct ClockDomainDef {
    /// String pool offset.
    pub name: u16,
    /// 0-based.
    pub clock_id: u16,
    pub period_ps: u32,
}

impl ClockDomainDef {
    /// Size in bytes.
    pub const SIZE: usize = 8;
}

impl View for ClockDomainDef {
    type V = ClockDomainDef;

    open spec fn view(&self) -> ClockDomainDef {
        *self
    }
}

impl Wire for ClockDomainDef {
    open spec fn encode(v: ClockDomainDef) -> Seq<u8> {
        u16_bytes(v.name)
            + u16_bytes(v.clock_id)
            + u32_bytes(v.period_ps)
    }

    open spec fn decode(s: Seq<u8>) -> Result<(ClockDomainDef, int), TraceError> {
        if s.len() < 8 {
            Err(TraceError::UnexpectedEof)
        } else {
            Ok(
                (
                    ClockDomainDef {
                        name: u16_at(s, 0),
                        clock_id: u16_at(s, 2),
                        period_ps: u32_at(s, 4),
                    },
                    8,
                ),
            )
        }
    }

    open spec fn encodable(v: ClockDomainDef) -> bool {
        true
    }

    fn write_to(&self, w: &mut Vec<u8>) {
        put_u16(w, self.name);
        put_u16(w, self.clock_id);
        put_u32(w, self.period_ps);
        assert(w@ =~= old(w)@ + Self::encode(*self));
    }

    fn read_from(r: &mut ByteReader<'_>) -> (res: Result<ClockDomainDef, TraceError>) {
        proof {
            reveal(u16_at);
            reveal(u32_at);
        }
        let b = match r.take(8) {
            Err(e) => return Err(e),
            Ok(b) => b,
        };
        Ok(
            ClockDomainDef {
                name: get_u16(b, 0),
                clock_id: get_u16(b, 2),
                period_ps: get_u32(b, 4),
            },
        )
    }

    proof fn law_decode_bounds(s: Seq<u8>) {
    }

    proof fn law_roundtrip(v: ClockDomainDef, rest: Seq<u8>) {
        let s = Self::encode(v) + rest;
        assert(s.subrange(0, 2) =~= u16_bytes(v.name));
        lemma_u16_at(s, 0, v.name);
        assert(s.subrange(2, 4) =~= u16_bytes(v.clock_id));
        lemma_u16_at(s, 2, v.clock_id);
        assert(s.subrange(4, 8) =~= u32_bytes(v.period_ps));
        lemma_u32_at(s, 4, v.period_ps);
    }
}

/// A node of the design hierarchy.
#[derive(Debug, Clone, Copy)]
pub struct ScopeDef {
    pub name: u16,
    pub scope_id: u16,
    /// `NO_PARENT` for the root.
    pub parent_id: u16,
    /// String pool offset, or `NO_PROTOCOL`.
    pub protocol: u16,
    /// `INHERIT_CLOCK` to take the clock of the parent.
    pub clock_id: u8,
    pub reserved: [u8; 3],
}

impl ScopeDef {
    /// Size in bytes.
    pub const SIZE: usize = 12;

    pub const NO_PARENT: u16 = 0xFFFF;

    pub const NO_PROTOCOL: u16 = 0xFFFF;

    pub const INHERIT_CLOCK: u8 = 0xFF;
}

impl View for ScopeDef {
    type V = ScopeDef;

    open spec fn view(&self) -> ScopeDef {
        *self
    }
}

impl Wire for ScopeDef {
    open spec fn encode(v: ScopeDef) -> Seq<u8> {
        u16_bytes(v.name)
            + u16_bytes(v.scope_id)
            + u16_bytes(v.parent_id)
            + u16_bytes(v.protocol)
            + seq![v.clock_id]
            + v.reserved@
    }

    open spec fn decode(s: Seq<u8>) -> Result<(ScopeDef, int), TraceError> {
        if s.len() < 12 {
            Err(TraceError::UnexpectedEof)
        } else {
            Ok(
                (
                    ScopeDef {
                        name: u16_at(s, 0),
                        scope_id: u16_at(s, 2),
                        parent_id: u16_at(s, 4),
                        protocol: u16_at(s, 6),
                        clock_id: s[8],
                        reserved: [s[9], s[10], s[11]],
                    },
                    12,
                ),
            )
        }
    }

    open spec fn encodable(v: ScopeDef) -> bool {
        true
    }

    fn write_to(&self, w: &mut Vec<u8>) {
        put_u16(w, self.name);
        put_u16(w, self.scope_id);
        put_u16(w, self.parent_id);
        put_u16(w, self.protocol);
        w.push(self.clock_id);
        w.push(self.reserved[0]);
        w.push(self.reserved[1]);
        w.push(self.reserved[2]);
        assert(w@ =~= old(w)@ + Self::encode(*self));
    }

    fn read_from(r: &mut ByteReader<'_>) -> (res: Result<ScopeDef, TraceError>) {
        proof {
            reveal(u16_at);
        }
        let b = match r.take(12) {
            Err(e) => return Err(e),
            Ok(b) => b,
        };
        Ok(
            ScopeDef {
                name: get_u16(b, 0),
                scope_id: get_u16(b, 2),
                parent_id: get_u16(b, 4),
                protocol: get_u16(b, 6),
                clock_id: b[8],
                reserved: [b[9], b[10], b[11]],
            },
        )
    }

    proof fn law_decode_bounds(s: Seq<u8>) {
    }

    proof fn law_roundtrip(v: ScopeDef, rest: Seq<u8>) {
        let s = Self::encode(v) + rest;
        assert(s.subrange(0, 2) =~= u16_bytes(v.name));
        lemma_u16_at(s, 0, v.name);
        assert(s.subrange(2, 4) =~= u16_bytes(v.scope_id));
        lemma_u16_at(s, 2, v.scope_id);
        assert(s.subrange(4, 6) =~= u16_bytes(v.parent_id));
        lemma_u16_at(s, 4, v.parent_id);
        assert(s.subrange(6, 8) =~= u16_bytes(v.protocol));
        lemma_u16_at(s, 6, v.protocol);
        assert(s[8] == v.clock_id);
        assert([s[9], s[10], s[11]] =~= v.reserved);
    }
}

/// One value of an enumeration.
#[derive(Debug, Clone, Copy)]
pub struct EnumValue {
    pub value: u8,
    pub reserved: u8,
    /// String pool offset.
    pub name: u16,
}

impl EnumValue {
    /// Size in bytes.
    pub const SIZE: usize = 4;
}

impl View for EnumValue {
    type V = EnumValue;

    open spec fn view(&self) -> EnumValue {
        *self
    }
}

impl Wire for EnumValue {
    open spec fn encode(v: EnumValue) -> Seq<u8> {
        seq![v.value]
            + seq![v.reserved]
            + u16_bytes(v.name)
    }

    open spec fn decode(s: Seq<u8>) -> Result<(EnumValue, int), TraceError> {
        if s.len() < 4 {
            Err(TraceError::UnexpectedEof)
        } else {
            Ok(
                (
                    EnumValue {
                        value: s[0],
                        reserved: s[1],
                        name: u16_at(s, 2),
                    },
                    4,
                ),
            )
        }
    }

    open spec fn encodable(v: EnumValue) -> bool {
        true
    }

    fn write_to(&self, w: &mut Vec<u8>) {
        w.push(self.value);
        w.push(self.reserved);
        put_u16(w, self.name);
        assert(w@ =~= old(w)@ + Self::encode(*self));
    }

    fn read_from(r: &mut ByteReader<'_>) -> (res: Result<EnumValue, TraceError>) {
        proof {
            reveal(u16_at);
        }
        let b = match r.take(4) {
            Err(e) => return Err(e),
            Ok(b) => b,
        };
        Ok(
            EnumValue {
                value: b[0],
                reserved: b[1],
                name: get_u16(b, 2),
            },
        )
    }

    proof fn law_decode_bounds(s: Seq<u8>) {
    }

    proof fn law_roundtrip(v: EnumValue, rest: Seq<u8>) {
        let s = Self::encode(v) + rest;
        assert(s[0] == v.value);
        assert(s[1] == v.reserved);
        assert(s.subrange(2, 4) =~= u16_bytes(v.name));
        lemma_u16_at(s, 2, v.name);
    }
}

/// A field of a slot or an event, or a property of a storage.
#[derive(Debug, Clone, Copy)]
pub struct FieldDef {
    /// String pool offset.
    pub name: u16,
    pub field_type: u8,
    /// The enumeration of an `Enum` field, else 0.
    pub enum_id: u8,
    /// `PROP_ROLE_PLAIN`, `PROP_ROLE_HEAD_PTR` or `PROP_ROLE_TAIL_PTR`.
    pub role: u8,
    /// A head and a tail pointer with the same number form a pair.
    pub pair_id: u8,
    pub reserved: [u8; 2],
}

impl FieldDef {
    /// Size in bytes.
    pub const SIZE: usize = 8;
}

impl View for FieldDef {
    type V = FieldDef;

    open spec fn view(&self) -> FieldDef {
        *self
    }
}

impl Wire for FieldDef {
    open spec fn encode(v: FieldDef) -> Seq<u8> {
        u16_bytes(v.name)
            + seq![v.field_type]
            + seq![v.enum_id]
            + seq![v.role]
            + seq![v.pair_id]
            + v.reserved@
    }

    open spec fn decode(s: Seq<u8>) -> Result<(FieldDef, int), TraceError> {
        if s.len() < 8 {
            Err(TraceError::UnexpectedEof)
        } else {
            Ok(
                (
                    FieldDef {
                        name: u16_at(s, 0),
                        field_type: s[2],
                        enum_id: s[3],
                        role: s[4],
                        pair_id: s[5],
                        reserved: [s[6], s[7]],
                    },
                    8,
                ),
            )
        }
    }

    open spec fn encodable(v: FieldDef) -> bool {
        true
    }

    fn write_to(&self, w: &mut Vec<u8>) {
        put_u16(w, self.name);
        w.push(self.field_type);
        w.push(self.enum_id);
        w.push(self.role);
        w.push(self.pair_id);
        w.push(self.reserved[0]);
        w.push(self.reserved[1]);
        assert(w@ =~= old(w)@ + Self::encode(*self));
    }

    fn read_from(r: &mut ByteReader<'_>) -> (res: Result<FieldDef, TraceError>) {
        proof {
            reveal(u16_at);
        }
        let b = match r.take(8) {
            Err(e) => return Err(e),
            Ok(b) => b,
        };
        Ok(
            FieldDef {
                name: get_u16(b, 0),
                field_type: b[2],
                enum_id: b[3],
                role: b[4],
                pair_id: b[5],
                reserved: [b[6], b[7]],
            },
        )
    }

    proof fn law_decode_bounds(s: Seq<u8>) {
    }

    proof fn law_roundtrip(v: FieldDef, rest: Seq<u8>) {
        let s = Self::encode(v) + rest;
        assert(s.subrange(0, 2) =~= u16_bytes(v.name));
        lemma_u16_at(s, 0, v.name);
        assert(s[2] == v.field_type);
        assert(s[3] == v.enum_id);
        assert(s[4] == v.role);
        assert(s[5] == v.pair_id);
        assert([s[6], s[7]] =~= v.reserved);
    }
}

/// A field of the summary.
#[derive(Debug, Clone, Copy)]
pub struct SummaryFieldDef {
    pub name: u16,
    pub field_type: u8,
    pub reserved: u8,
    pub scope_id: u16,
    pub reserved2: u16,
}

impl SummaryFieldDef {
    /// Size in bytes.
    pub const SIZE: usize = 8;
}

impl View for SummaryFieldDef {
    type V = SummaryFieldDef;

    open spec fn view(&self) -> SummaryFieldDef {
        *self
    }
}

impl Wire for SummaryFieldDef {
    open spec fn encode(v: SummaryFieldDef) -> Seq<u8> {
        u16_bytes(v.name)
            + seq![v.field_type]
            + seq![v.reserved]
            + u16_bytes(v.scope_id)
            + u16_bytes(v.reserved2)
    }

    open spec fn decode(s: Seq<u8>) -> Result<(SummaryFieldDef, int), TraceError> {
        if s.len() < 8 {
            Err(TraceError::UnexpectedEof)
        } else {
            Ok(
                (
                    SummaryFieldDef {
                        name: u16_at(s, 0),
                        field_type: s[2],
                        reserved: s[3],
                        scope_id: u16_at(s, 4),
                        reserved2: u16_at(s, 6),
                    },
                    8,
                ),
            )
        }
    }

    open spec fn encodable(v: SummaryFieldDef) -> bool {
        true
    }

    fn write_to(&self, w: &mut Vec<u8>) {
        put_u16(w, self.name);
        w.push(self.field_type);
        w.push(self.reserved);
        put_u16(w, self.scope_id);
        put_u16(w, self.reserved2);
        assert(w@ =~= old(w)@ + Self::encode(*self));
    }

    fn read_from(r: &mut ByteReader<'_>) -> (res: Result<SummaryFieldDef, TraceError>) {
        proof {
            reveal(u16_at);
        }
        let b = match r.take(8) {
            Err(e) => return Err(e),
            Ok(b) => b,
        };
        Ok(
            SummaryFieldDef {
                name: get_u16(b, 0),
                field_type: b[2],
                reserved: b[3],
                scope_id: get_u16(b, 4),
                reserved2: get_u16(b, 6),
            },
        )
    }

    proof fn law_decode_bounds(s: Seq<u8>) {
    }

    proof fn law_roundtrip(v: SummaryFieldDef, rest: Seq<u8>) {
        let s = Self::encode(v) + rest;
        assert(s.subrange(0, 2) =~= u16_bytes(v.name));
        lemma_u16_at(s, 0, v.name);
        assert(s[2] == v.field_type);
        assert(s[3] == v.reserved);
        assert(s.subrange(4, 6) =~= u16_bytes(v.scope_id));
        lemma_u16_at(s, 4, v.scope_id);
        assert(s.subrange(6, 8) =~= u16_bytes(v.reserved2));
        lemma_u16_at(s, 6, v.reserved2);
    }
}

/// The header of a segment.
#[derive(Debug, Clone, Copy)]
pub struct SegmentHeader {
    pub segment_magic: [u8; 4],
    pub flags: u32,
    pub time_start_ps: u64,
    pub time_end_ps: u64,
    /// Where the segment before starts; 0 for the first.
    pub prev_segment_offset: u64,
    pub checkpoint_size: u32,
    pub deltas_compressed_size: u32,
    pub deltas_raw_size: u32,
    pub num_frames: u32,
    pub num_frames_active: u32,
    pub reserved: u32,
}

impl SegmentHeader {
    /// Size in bytes.
    pub const SIZE: usize = 56;
}

impl View for SegmentHeader {
    type V = SegmentHeader;

    open spec fn view(&self) -> SegmentHeader {
        *self
    }
}

impl Wire for SegmentHeader {
    open spec fn encode(v: SegmentHeader) -> Seq<u8> {
        v.segment_magic@
            + u32_bytes(v.flags)
            + u64_bytes(v.time_start_ps)
            + u64_bytes(v.time_end_ps)
            + u64_bytes(v.prev_segment_offset)
            + u32_bytes(v.checkpoint_size)
            + u32_bytes(v.deltas_compressed_size)
            + u32_bytes(v.deltas_raw_size)
            + u32_bytes(v.num_frames)
            + u32_bytes(v.num_frames_active)
            + u32_bytes(v.reserved)
    }

    open spec fn decode(s: Seq<u8>) -> Result<(SegmentHeader, int), TraceError> {
        if s.len() < 4 {
            Err(TraceError::UnexpectedEof)
        } else if s.subrange(0, 4) != SEG_MAGIC@ {
            Err(TraceError::InvalidSegmentMagic)
        } else if s.len() < 56 {
            Err(TraceError::UnexpectedEof)
        } else {
            Ok(
                (
                    SegmentHeader {
                        segment_magic: SEG_MAGIC,
                        flags: u32_at(s, 4),
                        time_start_ps: u64_at(s, 8),
                        time_end_ps: u64_at(s, 16),
                        prev_segment_offset: u64_at(s, 24),
                        checkpoint_size: u32_at(s, 32),
                        deltas_compressed_size: u32_at(s, 36),
                        deltas_raw_size: u32_at(s, 40),
                        num_frames: u32_at(s, 44),
                        num_frames_active: u32_at(s, 48),
                        reserved: u32_at(s, 52),
                    },
                    56,
                ),
            )
        }
    }

    open spec fn encodable(v: SegmentHeader) -> bool {
        v.segment_magic@ == SEG_MAGIC@
    }

    fn write_to(&self, w: &mut Vec<u8>) {
        w.push(self.segment_magic[0]);
        w.push(self.segment_magic[1]);
        w.push(self.segment_magic[2]);
        w.push(self.segment_magic[3]);
        put_u32(w, self.flags);
        put_u64(w, self.time_start_ps);
        put_u64(w, self.time_end_ps);
        put_u64(w, self.prev_segment_offset);
        put_u32(w, self.checkpoint_size);
        put_u32(w, self.deltas_compressed_size);
        put_u32(w, self.deltas_raw_size);
        put_u32(w, self.num_frames);
        put_u32(w, self.num_frames_active);
        put_u32(w, self.reserved);
        assert(w@ =~= old(w)@ + Self::encode(*self));
    }

    fn read_from(r: &mut ByteReader<'_>) -> (res: Result<SegmentHeader, TraceError>) {
        proof {
            reveal(u16_at);
            reveal(u32_at);
            reveal(u64_at);
        }
        let ghost s = r@;
        let m = match r.take(4) {
            Err(e) => return Err(e),
            Ok(m) => m,
        };
        if m[0] != SEG_MAGIC[0] || m[1] != SEG_MAGIC[1] || m[2] != SEG_MAGIC[2] || m[3] != SEG_MAGIC[3] {
            return Err(TraceError::InvalidSegmentMagic);
        }
        assert(s.subrange(0, 4) =~= SEG_MAGIC@);
        let b = match r.take(52) {
            Err(e) => return Err(e),
            Ok(b) => b,
        };
        assert(forall|i: int| 0 <= i < 52 ==> b@[i] == s[i + 4]);
        assert(r@ =~= suffix(s, 56));
        Ok(
            SegmentHeader {
                segment_magic: SEG_MAGIC,
                flags: get_u32(b, 0),
                time_start_ps: get_u64(b, 4),
                time_end_ps: get_u64(b, 12),
                prev_segment_offset: get_u64(b, 20),
                checkpoint_size: get_u32(b, 28),
                deltas_compressed_size: get_u32(b, 32),
                deltas_raw_size: get_u32(b, 36),
                num_frames: get_u32(b, 40),
                num_frames_active: get_u32(b, 44),
                reserved: get_u32(b, 48),
            },
        )
    }

    proof fn law_decode_bounds(s: Seq<u8>) {
    }

    proof fn law_roundtrip(v: SegmentHeader, rest: Seq<u8>) {
        let s = Self::encode(v) + rest;
        assert(s.subrange(0, 4) =~= SEG_MAGIC@);
        assert(SEG_MAGIC =~= v.segment_magic);
        assert(s.subrange(4, 8) =~= u32_bytes(v.flags));
        lemma_u32_at(s, 4, v.flags);
        assert(s.subrange(8, 16) =~= u64_bytes(v.time_start_ps));
        lemma_u64_at(s, 8, v.time_start_ps);
        assert(s.subrange(16, 24) =~= u64_bytes(v.time_end_ps));
        lemma_u64_at(s, 16, v.time_end_ps);
        assert(s.subrange(24, 32) =~= u64_bytes(v.prev_segment_offset));
        lemma_u64_at(s, 24, v.prev_segment_offset);
        assert(s.subrange(32, 36) =~= u32_bytes(v.checkpoint_size));
        lemma_u32_at(s, 32, v.checkpoint_size);
        assert(s.subrange(36, 40) =~= u32_bytes(v.deltas_compressed_size));
        lemma_u32_at(s, 36, v.deltas_compressed_size);
        assert(s.subrange(40, 44) =~= u32_bytes(v.deltas_raw_size));
        lemma_u32_at(s, 40, v.deltas_raw_size);
        assert(s.subrange(44, 48) =~= u32_bytes(v.num_frames));
        lemma_u32_at(s, 44, v.num_frames);
        assert(s.subrange(48, 52) =~= u32_bytes(v.num_frames_active));
        lemma_u32_at(s, 48, v.num_frames_active);
        assert(s.subrange(52, 56) =~= u32_bytes(v.reserved));
        lemma_u32_at(s, 52, v.reserved);
    }
}

/// The header of the checkpoint of one storage.
#[derive(Debug, Clone, Copy)]
pub struct CheckpointBlock {
    pub storage_id: u16,
    pub reserved: u16,
    pub size: u32,
}

impl CheckpointBlock {
    /// Size in bytes.
    pub const HEADER_SIZE: usize = 8;
}

impl View for CheckpointBlock {
    type V = CheckpointBlock;

    open spec fn view(&self) -> CheckpointBlock {
        *self
    }
}

impl Wire for CheckpointBlock {
    open spec fn encode(v: CheckpointBlock) -> Seq<u8> {
        u16_bytes(v.storage_id)
            + u16_bytes(v.reserved)
            + u32_bytes(v.size)
    }

    open spec fn decode(s: Seq<u8>) -> Result<(CheckpointBlock, int), TraceError> {
        if s.len() < 8 {
            Err(TraceError::UnexpectedEof)
        } else {
            Ok(
                (
                    CheckpointBlock {
                        storage_id: u16_at(s, 0),
                        reserved: u16_at(s, 2),
                        size: u32_at(s, 4),
                    },
                    8,
                ),
            )
        }
    }

    open spec fn encodable(v: CheckpointBlock) -> bool {
        true
    }

    fn write_to(&self, w: &mut Vec<u8>) {
        put_u16(w, self.storage_id);
        put_u16(w, self.reserved);
        put_u32(w, self.size);
        assert(w@ =~= old(w)@ + Self::encode(*self));
    }

    fn read_from(r: &mut ByteReader<'_>) -> (res: Result<CheckpointBlock, TraceError>) {
        proof {
            reveal(u16_at);
            reveal(u32_at);
        }
        let b = match r.take(8) {
            Err(e) => return Err(e),
            Ok(b) => b,
        };
        Ok(
            CheckpointBlock {
                storage_id: get_u16(b, 0),
                reserved: get_u16(b, 2),
                size: get_u32(b, 4),
            },
        )
    }

    proof fn law_decode_bounds(s: Seq<u8>) {
    }

    proof fn law_roundtrip(v: CheckpointBlock, rest: Seq<u8>) {
        let s = Self::encode(v) + rest;
        assert(s.subrange(0, 2) =~= u16_bytes(v.storage_id));
        lemma_u16_at(s, 0, v.storage_id);
        assert(s.subrange(2, 4) =~= u16_bytes(v.reserved));
        lemma_u16_at(s, 2, v.reserved);
        assert(s.subrange(4, 8) =~= u32_bytes(v.size));
        lemma_u32_at(s, 4, v.size);
    }
}

/// An operation on a storage.
#[derive(Debug, Clone, Copy)]
pub struct DeltaOp {
    pub action: u8,
    pub reserved: u8,
    pub storage_id: u16,
    pub slot_index: u16,
    pub field_index: u16,
    pub value: u64,
}

impl DeltaOp {
    /// Size in bytes.
    pub const SIZE: usize = 16;

    /// The short form of the operation, where it has one: the storage number
    /// fits in 8 bits and the value in 16.
    pub open spec fn spec_to_compact(self) -> Option<DeltaOpCompact> {
        if self.storage_id > 255 || self.value > 65535 {
            None
        } else {
            Some(
                DeltaOpCompact {
                    action: self.action,
                    storage_id_lo: self.storage_id as u8,
                    slot_index: self.slot_index,
                    field_index: self.field_index,
                    value16: self.value as u16,
                },
            )
        }
    }

    /// Try to represent this op as a compact delta op.
    /// Returns None if storage_id > 255 or value > 65535.
    pub fn to_compact(&self) -> (r: Option<DeltaOpCompact>)
        ensures
            r == self.spec_to_compact(),
    {
        if self.storage_id > 255 || self.value > 65535 {
            return None;
        }
        Some(
            DeltaOpCompact {
                action: self.action,
                storage_id_lo: self.storage_id as u8,
                slot_index: self.slot_index,
                field_index: self.field_index,
                value16: self.value as u16,
            },
        )
    }
}

impl View for DeltaOp {
    type V = DeltaOp;

    open spec fn view(&self) -> DeltaOp {
        *self
    }
}

impl Wire for DeltaOp {
    open spec fn encode(v: DeltaOp) -> Seq<u8> {
        seq![v.action]
            + seq![v.reserved]
            + u16_bytes(v.storage_id)
            + u16_bytes(v.slot_index)
            + u16_bytes(v.field_index)
            + u64_bytes(v.value)
    }

    open spec fn decode(s: Seq<u8>) -> Result<(DeltaOp, int), TraceError> {
        if s.len() < 16 {
            Err(TraceError::UnexpectedEof)
        } else {
            Ok(
                (
                    DeltaOp {
                        action: s[0],
                        reserved: s[1],
                        storage_id: u16_at(s, 2),
                        slot_index: u16_at(s, 4),
                        field_index: u16_at(s, 6),
                        value: u64_at(s, 8),
                    },
                    16,
                ),
            )
        }
    }

    open spec fn encodable(v: DeltaOp) -> bool {
        true
    }

    fn write_to(&self, w: &mut Vec<u8>) {
        w.push(self.action);
        w.push(self.reserved);
        put_u16(w, self.storage_id);
        put_u16(w, self.slot_index);
        put_u16(w, self.field_index);
        put_u64(w, self.value);
        assert(w@ =~= old(w)@ + Self::encode(*self));
    }

    fn read_from(r: &mut ByteReader<'_>) -> (res: Result<DeltaOp, TraceError>) {
        proof {
            reveal(u16_at);
            reveal(u32_at);
            reveal(u64_at);
        }
        let b = match r.take(16) {
            Err(e) => return Err(e),
            Ok(b) => b,
        };
        Ok(
            DeltaOp {
                action: b[0],
                reserved: b[1],
                storage_id: get_u16(b, 2),
                slot_index: get_u16(b, 4),
                field_index: get_u16(b, 6),
                value: get_u64(b, 8),
            },
        )
    }

    proof fn law_decode_bounds(s: Seq<u8>) {
    }

    proof fn law_roundtrip(v: DeltaOp, rest: Seq<u8>) {
        let s = Self::encode(v) + rest;
        assert(s[0] == v.action);
        assert(s[1] == v.reserved);
        assert(s.subrange(2, 4) =~= u16_bytes(v.storage_id));
        lemma_u16_at(s, 2, v.storage_id);
        assert(s.subrange(4, 6) =~= u16_bytes(v.slot_index));
        lemma_u16_at(s, 4, v.slot_index);
        assert(s.subrange(6, 8) =~= u16_bytes(v.field_index));
        lemma_u16_at(s, 6, v.field_index);
        assert(s.subrange(8, 16) =~= u64_bytes(v.value));
        lemma_u64_at(s, 8, v.value);
    }
}

/// The short form of an operation on a storage.
#[derive(Debug, Clone, Copy)]
pub struct DeltaOpCompact {
    pub action: u8,
    pub storage_id_lo: u8,
    pub slot_index: u16,
    pub field_index: u16,
    pub value16: u16,
}

impl DeltaOpCompact {
    /// Size in bytes.
    pub const SIZE: usize = 8;

    /// The long form of the operation.
    pub open spec fn spec_to_wide(self) -> DeltaOp {
        DeltaOp {
            action: self.action,
            reserved: 0,
            storage_id: self.storage_id_lo as u16,
            slot_index: self.slot_index,
            field_index: self.field_index,
            value: self.value16 as u64,
        }
    }

    /// The long form of the operation.
    pub fn to_wide(&self) -> (op: DeltaOp)
        ensures
            op == self.spec_to_wide(),
    {
        DeltaOp {
            action: self.action,
            reserved: 0,
            storage_id: self.storage_id_lo as u16,
            slot_index: self.slot_index,
            field_index: self.field_index,
            value: self.value16 as u64,
        }
    }
}

impl View for DeltaOpCompact {
    type V = DeltaOpCompact;

    open spec fn view(&self) -> DeltaOpCompact {
        *self
    }
}

impl Wire for DeltaOpCompact {
    open spec fn encode(v: DeltaOpCompact) -> Seq<u8> {
        seq![v.action]
            + seq![v.storage_id_lo]
            + u16_bytes(v.slot_index)
            + u16_bytes(v.field_index)
            + u16_bytes(v.value16)
    }

    open spec fn decode(s: Seq<u8>) -> Result<(DeltaOpCompact, int), TraceError> {
        if s.len() < 8 {
            Err(TraceError::UnexpectedEof)
        } else {
            Ok(
                (
                    DeltaOpCompact {
                        action: s[0],
                        storage_id_lo: s[1],
                        slot_index: u16_at(s, 2),
                        field_index: u16_at(s, 4),
                        value16: u16_at(s, 6),
                    },
                    8,
                ),
            )
        }
    }

    open spec fn encodable(v: DeltaOpCompact) -> bool {
        true
    }

    fn write_to(&self, w: &mut Vec<u8>) {
        w.push(self.action);
        w.push(self.storage_id_lo);
        put_u16(w, self.slot_index);
        put_u16(w, self.field_index);
        put_u16(w, self.value16);
        assert(w@ =~= old(w)@ + Self::encode(*self));
    }

    fn read_from(r: &mut ByteReader<'_>) -> (res: Result<DeltaOpCompact, TraceError>) {
        proof {
            reveal(u16_at);
        }
        let b = match r.take(8) {
            Err(e) => return Err(e),
            Ok(b) => b,
        };
        Ok(
            DeltaOpCompact {
                action: b[0],
                storage_id_lo: b[1],
                slot_index: get_u16(b, 2),
                field_index: get_u16(b, 4),
                value16: get_u16(b, 6),
            },
        )
    }

    proof fn law_decode_bounds(s: Seq<u8>) {
    }

    proof fn law_roundtrip(v: DeltaOpCompact, rest: Seq<u8>) {
        let s = Self::encode(v) + rest;
        assert(s[0] == v.action);
        assert(s[1] == v.storage_id_lo);
        assert(s.subrange(2, 4) =~= u16_bytes(v.slot_index));
        lemma_u16_at(s, 2, v.slot_index);
        assert(s.subrange(4, 6) =~= u16_bytes(v.field_index));
        lemma_u16_at(s, 4, v.field_index);
        assert(s.subrange(6, 8) =~= u16_bytes(v.value16));
        lemma_u16_at(s, 6, v.value16);
    }
}

/// Going to the short form and back changes nothing but the reserved byte.
pub proof fn law_compact_wide(op: DeltaOp)
    requires
        op.spec_to_compact() is Some,
    ensures
        op.spec_to_compact()->Some_0.spec_to_wide() == (DeltaOp { reserved: 0, ..op }),
{
}

/// Every short form has a long form that goes back to it.
pub proof fn law_wide_compact(c: DeltaOpCompact)
    ensures
        c.spec_to_wide().spec_to_compact() == Some(c),
{
}

/// An entry of the section table.
#[derive(Debug, Clone, Copy)]
pub struct SectionEntry {
    pub section_type: u16,
    pub flags: u16,
    pub reserved: u32,
    pub offset: u64,
    pub size: u64,
}

impl SectionEntry {
    /// Size in bytes.
    pub const SIZE: usize = 24;
}

impl View for SectionEntry {
    type V = SectionEntry;

    open spec fn view(&self) -> SectionEntry {
        *self
    }
}

impl Wire for SectionEntry {
    open spec fn encode(v: SectionEntry) -> Seq<u8> {
        u16_bytes(v.section_type)
            + u16_bytes(v.flags)
            + u32_bytes(v.reserved)
            + u64_bytes(v.offset)
            + u64_bytes(v.size)
    }

    open spec fn decode(s: Seq<u8>) -> Result<(SectionEntry, int), TraceError> {
        if s.len() < 24 {
            Err(TraceError::UnexpectedEof)
        } else {
            Ok(
                (
                    SectionEntry {
                        section_type: u16_at(s, 0),
                        flags: u16_at(s, 2),
                        reserved: u32_at(s, 4),
                        offset: u64_at(s, 8),
                        size: u64_at(s, 16),
                    },
                    24,
                ),
            )
        }
    }

    open spec fn encodable(v: SectionEntry) -> bool {
        true
    }

    fn write_to(&self, w: &mut Vec<u8>) {
        put_u16(w, self.section_type);
        put_u16(w, self.flags);
        put_u32(w, self.reserved);
        put_u64(w, self.offset);
        put_u64(w, self.size);
        assert(w@ =~= old(w)@ + Self::encode(*self));
    }

    fn read_from(r: &mut ByteReader<'_>) -> (res: Result<SectionEntry, TraceError>) {
        proof {
            reveal(u16_at);
            reveal(u32_at);
            reveal(u64_at);
        }
        let b = match r.take(24) {
            Err(e) => return Err(e),
            Ok(b) => b,
        };
        Ok(
            SectionEntry {
                section_type: get_u16(b, 0),
                flags: get_u16(b, 2),
                reserved: get_u32(b, 4),
                offset: get_u64(b, 8),
                size: get_u64(b, 16),
            },
        )
    }

    proof fn law_decode_bounds(s: Seq<u8>) {
    }

    proof fn law_roundtrip(v: SectionEntry, rest: Seq<u8>) {
        let s = Self::encode(v) + rest;
        assert(s.subrange(0, 2) =~= u16_bytes(v.section_type));
        lemma_u16_at(s, 0, v.section_type);
        assert(s.subrange(2, 4) =~= u16_bytes(v.flags));
        lemma_u16_at(s, 2, v.flags);
        assert(s.subrange(4, 8) =~= u32_bytes(v.reserved));
        lemma_u32_at(s, 4, v.reserved);
        assert(s.subrange(8, 16) =~= u64_bytes(v.offset));
        lemma_u64_at(s, 8, v.offset);
        assert(s.subrange(16, 24) =~= u64_bytes(v.size));
        lemma_u64_at(s, 16, v.size);
    }
}

/// An entry of the segment table.
#[derive(Debug, Clone, Copy)]
pub struct SegmentIndexEntry {
    pub offset: u64,
    pub time_start_ps: u64,
    pub time_end_ps: u64,
}

impl SegmentIndexEntry {
    /// Size in bytes.
    pub const SIZE: usize = 24;
}

impl View for SegmentIndexEntry {
    type V = SegmentIndexEntry;

    open spec fn view(&self) -> SegmentIndexEntry {
        *self
    }
}

impl Wire for SegmentIndexEntry {
    open spec fn encode(v: SegmentIndexEntry) -> Seq<u8> {
        u64_bytes(v.offset)
            + u64_bytes(v.time_start_ps)
            + u64_bytes(v.time_end_ps)
    }

    open spec fn decode(s: Seq<u8>) -> Result<(SegmentIndexEntry, int), TraceError> {
        if s.len() < 24 {
            Err(TraceError::UnexpectedEof)
        } else {
            Ok(
                (
                    SegmentIndexEntry {
                        offset: u64_at(s, 0),
                        time_start_ps: u64_at(s, 8),
                        time_end_ps: u64_at(s, 16),
                    },
                    24,
                ),
            )
        }
    }

    open spec fn encodable(v: SegmentIndexEntry) -> bool {
        true
    }

    fn write_to(&self, w: &mut Vec<u8>) {
        put_u64(w, self.offset);
        put_u64(w, self.time_start_ps);
        put_u64(w, self.time_end_ps);
        assert(w@ =~= old(w)@ + Self::encode(*self));
    }

    fn read_from(r: &mut ByteReader<'_>) -> (res: Result<SegmentIndexEntry, TraceError>) {
        proof {
            reveal(u16_at);
            reveal(u32_at);
            reveal(u64_at);
        }
        let b = match r.take(24) {
            Err(e) => return Err(e),
            Ok(b) => b,
        };
        Ok(
            SegmentIndexEntry {
                offset: get_u64(b, 0),
                time_start_ps: get_u64(b, 8),
                time_end_ps: get_u64(b, 16),
            },
        )
    }

    proof fn law_decode_bounds(s: Seq<u8>) {
    }

    proof fn law_roundtrip(v: SegmentIndexEntry, rest: Seq<u8>) {
        let s = Self::encode(v) + rest;
        assert(s.subrange(0, 8) =~= u64_bytes(v.offset));
        lemma_u64_at(s, 0, v.offset);
        assert(s.subrange(8, 16) =~= u64_bytes(v.time_start_ps));
        lemma_u64_at(s, 8, v.time_start_ps);
        assert(s.subrange(16, 24) =~= u64_bytes(v.time_end_ps));
        lemma_u64_at(s, 16, v.time_end_ps);
    }
}

/// The header of the string table.
#[derive(Debug, Clone, Copy)]
pub struct StringTableHeader {
    pub num_entries: u32,
    pub reserved: u32,
}

impl StringTableHeader {
    /// Size in bytes.
    pub const SIZE: usize = 8;
}

impl View for StringTableHeader {
    type V = StringTableHeader;

    open spec fn view(&self) -> StringTableHeader {
        *self
    }
}

impl Wire for StringTableHeader {
    open spec fn encode(v: StringTableHeader) -> Seq<u8> {
        u32_bytes(v.num_entries)
            + u32_bytes(v.reserved)
    }

    open spec fn decode(s: Seq<u8>) -> Result<(StringTableHeader, int), TraceError> {
        if s.len() < 8 {
            Err(TraceError::UnexpectedEof)
        } else {
            Ok(
                (
                    StringTableHeader {
                        num_entries: u32_at(s, 0),
                        reserved: u32_at(s, 4),
                    },
                    8,
                ),
            )
        }
    }

    open spec fn encodable(v: StringTableHeader) -> bool {
        true
    }

    fn write_to(&self, w: &mut Vec<u8>) {
        put_u32(w, self.num_entries);
        put_u32(w, self.reserved);
        assert(w@ =~= old(w)@ + Self::encode(*self));
    }

    fn read_from(r: &mut ByteReader<'_>) -> (res: Result<StringTableHeader, TraceError>) {
        proof {
            reveal(u16_at);
            reveal(u32_at);
        }
        let b = match r.take(8) {
            Err(e) => return Err(e),
            Ok(b) => b,
        };
        Ok(
            StringTableHeader {
                num_entries: get_u32(b, 0),
                reserved: get_u32(b, 4),
            },
        )
    }

    proof fn law_decode_bounds(s: Seq<u8>) {
    }

    proof fn law_roundtrip(v: StringTableHeader, rest: Seq<u8>) {
        let s = Self::encode(v) + rest;
        assert(s.subrange(0, 4) =~= u32_bytes(v.num_entries));
        lemma_u32_at(s, 0, v.num_entries);
        assert(s.subrange(4, 8) =~= u32_bytes(v.reserved));
        lemma_u32_at(s, 4, v.reserved);
    }
}

/// Where a string lies in the data of the string table.
#[derive(Debug, Clone, Copy)]
pub struct StringIndex {
    pub offset: u32,
    pub length: u32,
}

impl StringIndex {
    /// Size in bytes.
    pub const SIZE: usize = 8;
}

impl View for StringIndex {
    type V = StringIndex;

    open spec fn view(&self) -> StringIndex {
        *self
    }
}

impl Wire for StringIndex {
    open spec fn encode(v: StringIndex) -> Seq<u8> {
        u32_bytes(v.offset)
            + u32_bytes(v.length)
    }

    open spec fn decode(s: Seq<u8>) -> Result<(StringIndex, int), TraceError> {
        if s.len() < 8 {
            Err(TraceError::UnexpectedEof)
        } else {
            Ok(
                (
                    StringIndex {
                        offset: u32_at(s, 0),
                        length: u32_at(s, 4),
                    },
                    8,
                ),
            )
        }
    }

    open spec fn encodable(v: StringIndex) -> bool {
        true
    }

    fn write_to(&self, w: &mut Vec<u8>) {
        put_u32(w, self.offset);
        put_u32(w, self.length);
        assert(w@ =~= old(w)@ + Self::encode(*self));
    }

    fn read_from(r: &mut ByteReader<'_>) -> (res: Result<StringIndex, TraceError>) {
        proof {
            reveal(u16_at);
            reveal(u32_at);
        }
        let b = match r.take(8) {
            Err(e) => return Err(e),
            Ok(b) => b,
        };
        Ok(
            StringIndex {
                offset: get_u32(b, 0),
                length: get_u32(b, 4),
            },
        )
    }

    proof fn law_decode_bounds(s: Seq<u8>) {
    }

    proof fn law_roundtrip(v: StringIndex, rest: Seq<u8>) {
        let s = Self::encode(v) + rest;
        assert(s.subrange(0, 4) =~= u32_bytes(v.offset));
        lemma_u32_at(s, 0, v.offset);
        assert(s.subrange(4, 8) =~= u32_bytes(v.length));
        lemma_u32_at(s, 4, v.length);
    }
}

/// The header of a level-based summary section.
#[derive(Debug, Clone, Copy)]
pub struct SummaryHeader {
    pub num_levels: u32,
    pub fan_out: u32,
    pub entry_size: u32,
    pub reserved: u32,
    pub base_interval_ps: u64,
}

impl SummaryHeader {
    /// Size in bytes.
    pub const SIZE: usize = 24;
}

impl View for SummaryHeader {
    type V = SummaryHeader;

    open spec fn view(&self) -> SummaryHeader {
        *self
    }
}

impl Wire for SummaryHeader {
    open spec fn encode(v: SummaryHeader) -> Seq<u8> {
        u32_bytes(v.num_levels)
            + u32_bytes(v.fan_out)
            + u32_bytes(v.entry_size)
            + u32_bytes(v.reserved)
            + u64_bytes(v.base_interval_ps)
    }

    open spec fn decode(s: Seq<u8>) -> Result<(SummaryHeader, int), TraceError> {
        if s.len() < 24 {
            Err(TraceError::UnexpectedEof)
        } else {
            Ok(
                (
                    SummaryHeader {
                        num_levels: u32_at(s, 0),
                        fan_out: u32_at(s, 4),
                        entry_size: u32_at(s, 8),
                        reserved: u32_at(s, 12),
                        base_interval_ps: u64_at(s, 16),
                    },
                    24,
                ),
            )
        }
    }

    open spec fn encodable(v: SummaryHeader) -> bool {
        true
    }

    fn write_to(&self, w: &mut Vec<u8>) {
        put_u32(w, self.num_levels);
        put_u32(w, self.fan_out);
        put_u32(w, self.entry_size);
        put_u32(w, self.reserved);
        put_u64(w, self.base_interval_ps);
        assert(w@ =~= old(w)@ + Self::encode(*self));
    }

    fn read_from(r: &mut ByteReader<'_>) -> (res: Result<SummaryHeader, TraceError>) {
        proof {
            reveal(u16_at);
            reveal(u32_at);
            reveal(u64_at);
        }
        let b = match r.take(24) {
            Err(e) => return Err(e),
            Ok(b) => b,
        };
        Ok(
            SummaryHeader {
                num_levels: get_u32(b, 0),
                fan_out: get_u32(b, 4),
                entry_size: get_u32(b, 8),
                reserved: get_u32(b, 12),
                base_interval_ps: get_u64(b, 16),
            },
        )
    }

    proof fn law_decode_bounds(s: Seq<u8>) {
    }

    proof fn law_roundtrip(v: SummaryHeader, rest: Seq<u8>) {
        let s = Self::encode(v) + rest;
        assert(s.subrange(0, 4) =~= u32_bytes(v.num_levels));
        lemma_u32_at(s, 0, v.num_levels);
        assert(s.subrange(4, 8) =~= u32_bytes(v.fan_out));
        lemma_u32_at(s, 4, v.fan_out);
        assert(s.subrange(8, 12) =~= u32_bytes(v.entry_size));
        lemma_u32_at(s, 8, v.entry_size);
        assert(s.subrange(12, 16) =~= u32_bytes(v.reserved));
        lemma_u32_at(s, 12, v.reserved);
        assert(s.subrange(16, 24) =~= u64_bytes(v.base_interval_ps));
        lemma_u64_at(s, 16, v.base_interval_ps);
    }
}

/// A level of a summary section.
#[derive(Debug, Clone, Copy)]
pub struct LevelDesc {
    pub offset: u64,
    pub num_entries: u32,
    pub reserved: u32,
}

impl LevelDesc {
    /// Size in bytes.
    pub const SIZE: usize = 16;
}

impl View for LevelDesc {
    type V = LevelDesc;

    open spec fn view(&self) -> LevelDesc {
        *self
    }
}

impl Wire for LevelDesc {
    open spec fn encode(v: LevelDesc) -> Seq<u8> {
        u64_bytes(v.offset)
            + u32_bytes(v.num_entries)
            + u32_bytes(v.reserved)
    }

    open spec fn decode(s: Seq<u8>) -> Result<(LevelDesc, int), TraceError> {
        if s.len() < 16 {
            Err(TraceError::UnexpectedEof)
        } else {
            Ok(
                (
                    LevelDesc {
                        offset: u64_at(s, 0),
                        num_entries: u32_at(s, 8),
                        reserved: u32_at(s, 12),
                    },
                    16,
                ),
            )
        }
    }

    open spec fn encodable(v: LevelDesc) -> bool {
        true
    }

    fn write_to(&self, w: &mut Vec<u8>) {
        put_u64(w, self.offset);
        put_u32(w, self.num_entries);
        put_u32(w, self.reserved);
        assert(w@ =~= old(w)@ + Self::encode(*self));
    }

    fn read_from(r: &mut ByteReader<'_>) -> (res: Result<LevelDesc, TraceError>) {
        proof {
            reveal(u16_at);
            reveal(u32_at);
            reveal(u64_at);
        }
        let b = match r.take(16) {
            Err(e) => return Err(e),
            Ok(b) => b,
        };
        Ok(
            LevelDesc {
                offset: get_u64(b, 0),
                num_entries: get_u32(b, 8),
                reserved: get_u32(b, 12),
            },
        )
    }

    proof fn law_decode_bounds(s: Seq<u8>) {
    }

    proof fn law_roundtrip(v: LevelDesc, rest: Seq<u8>) {
        let s = Self::encode(v) + rest;
        assert(s.subrange(0, 8) =~= u64_bytes(v.offset));
        lemma_u64_at(s, 0, v.offset);
        assert(s.subrange(8, 12) =~= u32_bytes(v.num_entries));
        lemma_u32_at(s, 8, v.num_entries);
        assert(s.subrange(12, 16) =~= u32_bytes(v.reserved));
        lemma_u32_at(s, 12, v.reserved);
    }
}

/// A view that is the value itself is the same for a whole sequence.
pub proof fn lemma_views_self<T: View<V = T>>(s: Seq<T>)
    requires
        forall|i: int| 0 <= i < s.len() ==> (#[trigger] s[i])@ == s[i],
    ensures
        views(s) == s,
{
    assert(views(s) =~= s);
}

/// A block of the preamble.
#[derive(Debug, Clone)]
pub struct PreambleChunk {
    pub chunk_type: u16,
    pub flags: u16,
    pub payload: Vec<u8>,
}

/// What a `PreambleChunk` holds.
#[verifier::ext_equal]
pub struct PreambleChunkView {
    pub chunk_type: u16,
    pub flags: u16,
    pub payload: Seq<u8>,
}

/// How many bytes bring `n` up to a multiple of 8.
pub open spec fn pad8(n: int) -> int {
    (8 - n % 8) % 8
}

/// `n` zero bytes.
pub open spec fn zeros(n: int) -> Seq<u8> {
    Seq::new(n as nat, |i: int| 0u8)
}

/// Appends `n` zero bytes.
pub fn put_zeros(w: &mut Vec<u8>, n: usize)
    ensures
        final(w)@ == old(w)@ + zeros(n as int),
{
    let mut i: usize = 0;
    assert(w@ =~= old(w)@ + zeros(0));
    while i < n
        invariant
            i <= n,
            w@ == old(w)@ + zeros(i as int),
        decreases n - i,
    {
        w.push(0);
        i = i + 1;
        assert(w@ =~= old(w)@ + zeros(i as int));
    }
}

/// Appends the bytes of `b`.
pub fn put_slice(w: &mut Vec<u8>, b: &[u8])
    ensures
        final(w)@ == old(w)@ + b@,
{
    w.extend_from_slice(b);
    assert(w@ =~= old(w)@ + b@);
}

impl View for PreambleChunk {
    type V = PreambleChunkView;

    open spec fn view(&self) -> PreambleChunkView {
        PreambleChunkView {
            chunk_type: self.chunk_type,
            flags: self.flags,
            payload: self.payload@,
        }
    }
}

impl PreambleChunk {
    /// A chunk without flags.
    pub fn new(chunk_type: u16, payload: Vec<u8>) -> (c: PreambleChunk)
        ensures
            c@ == (PreambleChunkView { chunk_type, flags: 0, payload: payload@ }),
    {
        PreambleChunk { chunk_type, flags: 0, payload }
    }
}

impl Wire for PreambleChunk {
    open spec fn encode(v: PreambleChunkView) -> Seq<u8> {
        u16_bytes(v.chunk_type) + u16_bytes(v.flags) + u32_bytes(v.payload.len() as u32)
            + v.payload + zeros(pad8(v.payload.len() as int))
    }

    open spec fn decode(s: Seq<u8>) -> Result<(PreambleChunkView, int), TraceError> {
        let size = u32_at(s, 4) as int;
        if s.len() < 8 || s.len() < 8 + size + pad8(size) {
            Err(TraceError::UnexpectedEof)
        } else {
            Ok(
                (
                    PreambleChunkView {
                        chunk_type: u16_at(s, 0),
                        flags: u16_at(s, 2),
                        payload: s.subrange(8, 8 + size),
                    },
                    8 + size + pad8(size),
                ),
            )
        }
    }

    open spec fn encodable(v: PreambleChunkView) -> bool {
        v.payload.len() <= u32::MAX
    }

    fn write_to(&self, w: &mut Vec<u8>) {
        put_u16(w, self.chunk_type);
        put_u16(w, self.flags);
        put_u32(w, self.payload.len() as u32);
        put_slice(w, self.payload.as_slice());
        put_zeros(w, (8 - self.payload.len() % 8) % 8);
        assert(w@ =~= old(w)@ + Self::encode(self@));
    }

    fn read_from(r: &mut ByteReader<'_>) -> (res: Result<PreambleChunk, TraceError>) {
        proof {
            reveal(u16_at);
            reveal(u32_at);
        }
        let ghost s = r@;
        let h = match r.take(8) {
            Err(e) => return Err(e),
            Ok(h) => h,
        };
        let size: usize = get_u32(h, 4) as usize;
        assert(size == u32_at(s, 4));
        let body = match r.take(size) {
            Err(e) => return Err(e),
            Ok(b) => b,
        };
        match r.take((8 - size % 8) % 8) {
            Err(e) => return Err(e),
            Ok(_) => {},
        }
        let mut payload: Vec<u8> = Vec::new();
        put_slice(&mut payload, body);
        assert(payload@ =~= s.subrange(8, 8 + size as int));
        assert(r@ =~= suffix(s, 8 + size + pad8(size as int)));
        Ok(PreambleChunk { chunk_type: get_u16(h, 0), flags: get_u16(h, 2), payload })
    }

    proof fn law_decode_bounds(s: Seq<u8>) {
    }

    proof fn law_roundtrip(v: PreambleChunkView, rest: Seq<u8>) {
        let s = Self::encode(v) + rest;
        let n = v.payload.len() as int;
        assert(s.subrange(0, 2) =~= u16_bytes(v.chunk_type));
        lemma_u16_at(s, 0, v.chunk_type);
        assert(s.subrange(2, 4) =~= u16_bytes(v.flags));
        lemma_u16_at(s, 2, v.flags);
        assert(s.subrange(4, 8) =~= u32_bytes(n as u32));
        lemma_u32_at(s, 4, n as u32);
        assert(s.subrange(8, 8 + n) =~= v.payload);
    }
}

/// The properties of the design under test.
#[derive(Debug)]
pub struct DutDesc {
    pub properties: Vec<DutProperty>,
}

/// What a `DutDesc` holds.
#[verifier::ext_equal]
pub struct DutDescView {
    pub properties: Seq<DutProperty>,
}

impl View for DutDesc {
    type V = DutDescView;

    open spec fn view(&self) -> DutDescView {
        DutDescView { properties: self.properties@ }
    }
}

impl Wire for DutDesc {
    open spec fn encode(v: DutDescView) -> Seq<u8> {
        u16_bytes(v.properties.len() as u16) + u16_bytes(0) + encode_all::<DutProperty>(
            v.properties,
        )
    }

    open spec fn decode(s: Seq<u8>) -> Result<(DutDescView, int), TraceError> {
        if s.len() < 4 {
            Err(TraceError::UnexpectedEof)
        } else {
            match decode_n::<DutProperty>(suffix(s, 4), u16_at(s, 0) as nat) {
                Err(e) => Err(e),
                Ok((properties, k)) => Ok((DutDescView { properties }, 4 + k)),
            }
        }
    }

    open spec fn encodable(v: DutDescView) -> bool {
        v.properties.len() <= u16::MAX
    }

    fn write_to(&self, w: &mut Vec<u8>) {
        put_u16(w, #[verifier::truncate] (self.properties.len() as u16));
        put_u16(w, 0);
        write_all::<DutProperty>(&self.properties, w);
        proof {
            lemma_views_self(self.properties@);
        }
        assert(w@ =~= old(w)@ + Self::encode(self@));
    }

    fn read_from(r: &mut ByteReader<'_>) -> (res: Result<DutDesc, TraceError>) {
        proof {
            reveal(u16_at);
        }
        let ghost s = r@;
        let h = match r.take(4) {
            Err(e) => return Err(e),
            Ok(h) => h,
        };
        let properties = match read_n::<DutProperty>(r, get_u16(h, 0) as usize) {
            Err(e) => return Err(e),
            Ok(p) => p,
        };
        proof {
            lemma_views_self(properties@);
            let k = decode_n::<DutProperty>(suffix(s, 4), u16_at(s, 0) as nat)->Ok_0.1;
            lemma_suffix_suffix(s, 4, k);
        }
        Ok(DutDesc { properties })
    }

    proof fn law_decode_bounds(s: Seq<u8>) {
        lemma_decode_n_bounds::<DutProperty>(suffix(s, 4), u16_at(s, 0) as nat);
    }

    proof fn law_roundtrip(v: DutDescView, rest: Seq<u8>) {
        let s = Self::encode(v) + rest;
        assert(s.subrange(0, 2) =~= u16_bytes(v.properties.len() as u16));
        lemma_u16_at(s, 0, v.properties.len() as u16);
        let body = encode_all::<DutProperty>(v.properties);
        assert(suffix(s, 4) =~= body + rest);
        law_all_roundtrip::<DutProperty>(v.properties, rest);
    }
}

impl Clone for DutDesc {
    fn clone(&self) -> (d: DutDesc)
        ensures
            d@ == self@,
    {
        DutDesc { properties: copy_vec(&self.properties) }
    }
}

/// A copy of a vector of plain records.
pub fn copy_vec<T: Copy>(v: &Vec<T>) -> (r: Vec<T>)
    ensures
        r@ == v@,
{
    let mut r: Vec<T> = Vec::new();
    let mut i: usize = 0;
    while i < v.len()
        invariant
            i <= v@.len(),
            r@ == v@.take(i as int),
        decreases v@.len() - i,
    {
        r.push(v[i]);
        i = i + 1;
        assert(r@ =~= v@.take(i as int));
    }
    assert(v@.take(v@.len() as int) =~= v@);
    r
}

/// A copy of a vector of values that can be cloned.
pub fn clone_vec<T: Clone + View>(v: &Vec<T>) -> (r: Vec<T>)
    requires
        forall|i: int, t: T|
            0 <= i < v@.len() && #[trigger] call_ensures(T::clone, (&v@[i],), t) ==> t@ == v@[i]@,
        forall|i: int| 0 <= i < v@.len() ==> call_requires(T::clone, (&#[trigger] v@[i],)),
    ensures
        views(r@) == views(v@),
{
    let mut r: Vec<T> = Vec::new();
    let mut i: usize = 0;
    while i < v.len()
        invariant
            i <= v@.len(),
            views(r@) =~= views(v@).take(i as int),
            forall|i: int, t: T|
                0 <= i < v@.len() && #[trigger] call_ensures(T::clone, (&v@[i],), t) ==> t@
                    == v@[i]@,
            forall|i: int| 0 <= i < v@.len() ==> call_requires(T::clone, (&#[trigger] v@[i],)),
        decreases v@.len() - i,
    {
        let t: T = v[i].clone();
        let ghost before = r@;
        r.push(t);
        assert(views(r@) =~= views(before).push(t@));
        i = i + 1;
    }
    assert(views(v@).take(v@.len() as int) =~= views(v@));
    r
}

/// An enumeration.
#[derive(Debug)]
pub struct EnumDef {
    /// String pool offset.
    pub name: u16,
    pub num_values: u8,
    pub reserved: u8,
    pub values: Vec<EnumValue>,
}

/// What an `EnumDef` holds.
#[verifier::ext_equal]
pub struct EnumDefView {
    pub name: u16,
    pub num_values: u8,
    pub reserved: u8,
    pub values: Seq<EnumValue>,
}

impl EnumDef {
    /// Size in bytes of what stands before the values.
    pub const HEADER_SIZE: usize = 4;
}

impl View for EnumDef {
    type V = EnumDefView;

    open spec fn view(&self) -> EnumDefView {
        EnumDefView {
            name: self.name,
            num_values: self.num_values,
            reserved: self.reserved,
            values: self.values@,
        }
    }
}

impl Wire for EnumDef {
    open spec fn encode(v: EnumDefView) -> Seq<u8> {
        u16_bytes(v.name) + seq![v.num_values] + seq![v.reserved] + encode_all::<EnumValue>(
            v.values,
        )
    }

    open spec fn decode(s: Seq<u8>) -> Result<(EnumDefView, int), TraceError> {
        if s.len() < 4 {
            Err(TraceError::UnexpectedEof)
        } else {
            match decode_n::<EnumValue>(suffix(s, 4), s[2] as nat) {
                Err(e) => Err(e),
                Ok((values, k)) => Ok(
                    (
                        EnumDefView {
                            name: u16_at(s, 0),
                            num_values: s[2],
                            reserved: s[3],
                            values,
                        },
                        4 + k,
                    ),
                ),
            }
        }
    }

    open spec fn encodable(v: EnumDefView) -> bool {
        v.values.len() == v.num_values
    }

    fn write_to(&self, w: &mut Vec<u8>) {
        put_u16(w, self.name);
        w.push(self.num_values);
        w.push(self.reserved);
        write_all::<EnumValue>(&self.values, w);
        proof {
            lemma_views_self(self.values@);
        }
        assert(w@ =~= old(w)@ + Self::encode(self@));
    }

    fn read_from(r: &mut ByteReader<'_>) -> (res: Result<EnumDef, TraceError>) {
        proof {
            reveal(u16_at);
        }
        let ghost s = r@;
        let h = match r.take(4) {
            Err(e) => return Err(e),
            Ok(h) => h,
        };
        let values = match read_n::<EnumValue>(r, h[2] as usize) {
            Err(e) => return Err(e),
            Ok(p) => p,
        };
        proof {
            lemma_views_self(values@);
            let k = decode_n::<EnumValue>(suffix(s, 4), s[2] as nat)->Ok_0.1;
            lemma_suffix_suffix(s, 4, k);
        }
        Ok(EnumDef { name: get_u16(h, 0), num_values: h[2], reserved: h[3], values })
    }

    proof fn law_decode_bounds(s: Seq<u8>) {
        lemma_decode_n_bounds::<EnumValue>(suffix(s, 4), s[2] as nat);
    }

    proof fn law_roundtrip(v: EnumDefView, rest: Seq<u8>) {
        let s = Self::encode(v) + rest;
        assert(s.subrange(0, 2) =~= u16_bytes(v.name));
        lemma_u16_at(s, 0, v.name);
        assert(s[2] == v.num_values);
        assert(s[3] == v.reserved);
        assert(suffix(s, 4) =~= encode_all::<EnumValue>(v.values) + rest);
        law_all_roundtrip::<EnumValue>(v.values, rest);
    }
}

impl Clone for EnumDef {
    fn clone(&self) -> (d: EnumDef)
        ensures
            d@ == self@,
    {
        EnumDef {
            name: self.name,
            num_values: self.num_values,
            reserved: self.reserved,
            values: copy_vec(&self.values),
        }
    }
}

/// The size in bytes of a field: 0 where its type is unknown.
pub open spec fn field_size(f: FieldDef) -> nat {
    match field_type_of(f.field_type) {
        Some(t) => t.spec_size(),
        None => 0,
    }
}

/// The size in bytes of fields that are packed one after the other.
pub open spec fn packed_size(fields: Seq<FieldDef>) -> nat
    decreases fields.len(),
{
    if fields.len() == 0 {
        0
    } else {
        packed_size(fields.drop_last()) + field_size(fields.last())
    }
}

/// Every field takes at most 8 bytes.
pub proof fn lemma_packed_size_bound(fields: Seq<FieldDef>)
    ensures
        packed_size(fields) <= 8 * fields.len(),
    decreases fields.len(),
{
    if fields.len() > 0 {
        lemma_packed_size_bound(fields.drop_last());
    }
}

/// Computes `packed_size`.
fn sum_sizes(fields: &Vec<FieldDef>) -> (n: usize)
    requires
        8 * fields@.len() <= usize::MAX,
    ensures
        n == packed_size(fields@),
{
    let mut n: usize = 0;
    let mut i: usize = 0;
    assert(fields@.take(0) =~= Seq::<FieldDef>::empty());
    while i < fields.len()
        invariant
            i <= fields@.len(),
            8 * fields@.len() <= usize::MAX,
            n == packed_size(fields@.take(i as int)),
            n <= 8 * i,
        decreases fields@.len() - i,
    {
        let size: usize = match FieldType::from_u8(fields[i].field_type) {
            Some(t) => t.size(),
            None => 0,
        };
        proof {
            let next = fields@.take(i + 1);
            assert(next.drop_last() =~= fields@.take(i as int));
            assert(next.last() == fields@[i as int]);
        }
        n = n + size;
        i = i + 1;
    }
    assert(fields@.take(fields@.len() as int) =~= fields@);
    n
}

/// A storage: an array of slots, each with the same fields, and a few
/// properties of the storage itself.
#[derive(Debug)]
pub struct StorageDef {
    pub name: u16,
    pub storage_id: u16,
    pub num_slots: u16,
    pub num_fields: u16,
    pub flags: u16,
    /// 0xFFFF for the root.
    pub scope_id: u16,
    pub num_properties: u16,
    pub reserved_v3: u16,
    pub fields: Vec<FieldDef>,
    pub properties: Vec<FieldDef>,
}

/// What a `StorageDef` holds.
#[verifier::ext_equal]
pub struct StorageDefView {
    pub name: u16,
    pub storage_id: u16,
    pub num_slots: u16,
    pub num_fields: u16,
    pub flags: u16,
    pub scope_id: u16,
    pub num_properties: u16,
    pub reserved_v3: u16,
    pub fields: Seq<FieldDef>,
    pub properties: Seq<FieldDef>,
}

impl StorageDefView {
    pub open spec fn sparse(self) -> bool {
        self.flags & SF_SPARSE != 0
    }

    pub open spec fn buffer(self) -> bool {
        self.flags & SF_BUFFER != 0
    }
}

impl View for StorageDef {
    type V = StorageDefView;

    open spec fn view(&self) -> StorageDefView {
        StorageDefView {
            name: self.name,
            storage_id: self.storage_id,
            num_slots: self.num_slots,
            num_fields: self.num_fields,
            flags: self.flags,
            scope_id: self.scope_id,
            num_properties: self.num_properties,
            reserved_v3: self.reserved_v3,
            fields: self.fields@,
            properties: self.properties@,
        }
    }
}

impl StorageDef {
    /// Size in bytes of what stands before the fields.
    pub const HEADER_SIZE: usize = 16;

    /// Whether only valid slots are stored.
    pub fn is_sparse(&self) -> (b: bool)
        ensures
            b == self@.sparse(),
    {
        self.flags & SF_SPARSE != 0
    }

    /// Whether the storage is a hardware buffer.
    pub fn is_buffer(&self) -> (b: bool)
        ensures
            b == self@.buffer(),
    {
        self.flags & SF_BUFFER != 0
    }

    /// Size of one slot in bytes (sum of field sizes).
    pub fn slot_size(&self) -> (n: usize)
        requires
            8 * self.fields@.len() <= usize::MAX,
        ensures
            n == packed_size(self@.fields),
    {
        sum_sizes(&self.fields)
    }

    /// Size of the properties in bytes (sum of property sizes).
    pub fn property_data_size(&self) -> (n: usize)
        requires
            8 * self.properties@.len() <= usize::MAX,
        ensures
            n == packed_size(self@.properties),
    {
        sum_sizes(&self.properties)
    }
}

/// The bytes of a `StorageDef` before its fields.
#[verifier::opaque]
pub open spec fn storage_head(v: StorageDefView) -> Seq<u8> {
    u16_bytes(v.name) + u16_bytes(v.storage_id) + u16_bytes(v.num_slots) + u16_bytes(v.num_fields)
        + u16_bytes(v.flags) + u16_bytes(v.scope_id) + u16_bytes(v.num_properties) + u16_bytes(
        v.reserved_v3,
    )
}

#[verifier::spinoff_prover]
proof fn lemma_storage_head(v: StorageDefView, rest: Seq<u8>)
    ensures
        storage_head(v).len() == 16,
        ({
            let s = storage_head(v) + rest;
            &&& u16_at(s, 0) == v.name
            &&& u16_at(s, 2) == v.storage_id
            &&& u16_at(s, 4) == v.num_slots
            &&& u16_at(s, 6) == v.num_fields
            &&& u16_at(s, 8) == v.flags
            &&& u16_at(s, 10) == v.scope_id
            &&& u16_at(s, 12) == v.num_properties
            &&& u16_at(s, 14) == v.reserved_v3
        }),
{
    reveal(storage_head);
    let s = storage_head(v) + rest;
    assert(s.subrange(0, 2) =~= u16_bytes(v.name));
    lemma_u16_at(s, 0, v.name);
    assert(s.subrange(2, 4) =~= u16_bytes(v.storage_id));
    lemma_u16_at(s, 2, v.storage_id);
    assert(s.subrange(4, 6) =~= u16_bytes(v.num_slots));
    lemma_u16_at(s, 4, v.num_slots);
    assert(s.subrange(6, 8) =~= u16_bytes(v.num_fields));
    lemma_u16_at(s, 6, v.num_fields);
    assert(s.subrange(8, 10) =~= u16_bytes(v.flags));
    lemma_u16_at(s, 8, v.flags);
    assert(s.subrange(10, 12) =~= u16_bytes(v.scope_id));
    lemma_u16_at(s, 10, v.scope_id);
    assert(s.subrange(12, 14) =~= u16_bytes(v.num_properties));
    lemma_u16_at(s, 12, v.num_properties);
    assert(s.subrange(14, 16) =~= u16_bytes(v.reserved_v3));
    lemma_u16_at(s, 14, v.reserved_v3);
}

impl Wire for StorageDef {
    open spec fn encode(v: StorageDefView) -> Seq<u8> {
        storage_head(v) + encode_all::<FieldDef>(v.fields) + encode_all::<FieldDef>(v.properties)
    }

    open spec fn decode(s: Seq<u8>) -> Result<(StorageDefView, int), TraceError> {
        if s.len() < 16 {
            Err(TraceError::UnexpectedEof)
        } else {
            match decode_n::<FieldDef>(suffix(s, 16), u16_at(s, 6) as nat) {
                Err(e) => Err(e),
                Ok((fields, k)) => match decode_n::<FieldDef>(
                    suffix(s, 16 + k),
                    u16_at(s, 12) as nat,
                ) {
                    Err(e) => Err(e),
                    Ok((properties, m)) => Ok(
                        (
                            StorageDefView {
                                name: u16_at(s, 0),
                                storage_id: u16_at(s, 2),
                                num_slots: u16_at(s, 4),
                                num_fields: u16_at(s, 6),
                                flags: u16_at(s, 8),
                                scope_id: u16_at(s, 10),
                                num_properties: u16_at(s, 12),
                                reserved_v3: u16_at(s, 14),
                                fields,
                                properties,
                            },
                            16 + k + m,
                        ),
                    ),
                },
            }
        }
    }

    open spec fn encodable(v: StorageDefView) -> bool {
        v.fields.len() == v.num_fields && v.properties.len() == v.num_properties
    }

    fn write_to(&self, w: &mut Vec<u8>) {
        put_u16(w, self.name);
        put_u16(w, self.storage_id);
        put_u16(w, self.num_slots);
        put_u16(w, self.num_fields);
        put_u16(w, self.flags);
        put_u16(w, self.scope_id);
        put_u16(w, self.num_properties);
        put_u16(w, self.reserved_v3);
        proof {
            reveal(storage_head);
            assert(w@ =~= old(w)@ + storage_head(self@));
        }
        write_all::<FieldDef>(&self.fields, w);
        write_all::<FieldDef>(&self.properties, w);
        proof {
            lemma_views_self(self.fields@);
            lemma_views_self(self.properties@);
        }
        assert(w@ =~= old(w)@ + Self::encode(self@));
    }

    fn read_from(r: &mut ByteReader<'_>) -> (res: Result<StorageDef, TraceError>) {
        proof {
            reveal(u16_at);
        }
        let ghost s = r@;
        let h = match r.take(16) {
            Err(e) => return Err(e),
            Ok(h) => h,
        };
        let num_fields: u16 = get_u16(h, 6);
        let num_properties: u16 = get_u16(h, 12);
        let fields = match read_n::<FieldDef>(r, num_fields as usize) {
            Err(e) => return Err(e),
            Ok(p) => p,
        };
        let ghost k = decode_n::<FieldDef>(suffix(s, 16), num_fields as nat)->Ok_0.1;
        proof {
            lemma_views_self(fields@);
            lemma_suffix_suffix(s, 16, k);
        }
        let properties = match read_n::<FieldDef>(r, num_properties as usize) {
            Err(e) => return Err(e),
            Ok(p) => p,
        };
        proof {
            lemma_views_self(properties@);
            let m = decode_n::<FieldDef>(suffix(s, 16 + k), num_properties as nat)->Ok_0.1;
            lemma_suffix_suffix(s, 16 + k, m);
        }
        Ok(
            StorageDef {
                name: get_u16(h, 0),
                storage_id: get_u16(h, 2),
                num_slots: get_u16(h, 4),
                num_fields,
                flags: get_u16(h, 8),
                scope_id: get_u16(h, 10),
                num_properties,
                reserved_v3: get_u16(h, 14),
                fields,
                properties,
            },
        )
    }

    proof fn law_decode_bounds(s: Seq<u8>) {
        if s.len() >= 16 {
            lemma_decode_n_bounds::<FieldDef>(suffix(s, 16), u16_at(s, 6) as nat);
            match decode_n::<FieldDef>(suffix(s, 16), u16_at(s, 6) as nat) {
                Err(e) => {},
                Ok((fields, k)) => {
                    lemma_decode_n_bounds::<FieldDef>(suffix(s, 16 + k), u16_at(s, 12) as nat);
                },
            }
        }
    }

    proof fn law_roundtrip(v: StorageDefView, rest: Seq<u8>) {
        let s = Self::encode(v) + rest;
        let fields = encode_all::<FieldDef>(v.fields);
        let properties = encode_all::<FieldDef>(v.properties);
        let tail = fields + (properties + rest);
        assert(s =~= storage_head(v) + tail);
        lemma_storage_head(v, tail);
        assert(suffix(s, 16) =~= tail);
        assert(suffix(s, 16 + fields.len() as int) =~= properties + rest);
        law_all_roundtrip::<FieldDef>(v.fields, properties + rest);
        law_all_roundtrip::<FieldDef>(v.properties, rest);
    }
}

impl Clone for StorageDef {
    fn clone(&self) -> (d: StorageDef)
        ensures
            d@ == self@,
    {
        StorageDef {
            name: self.name,
            storage_id: self.storage_id,
            num_slots: self.num_slots,
            num_fields: self.num_fields,
            flags: self.flags,
            scope_id: self.scope_id,
            num_properties: self.num_properties,
            reserved_v3: self.reserved_v3,
            fields: copy_vec(&self.fields),
            properties: copy_vec(&self.properties),
        }
    }
}

/// A kind of event.
#[derive(Debug)]
pub struct EventDef {
    pub name: u16,
    pub event_type_id: u16,
    pub num_fields: u16,
    pub scope_id: u16,
    pub fields: Vec<FieldDef>,
}

/// What an `EventDef` holds.
#[verifier::ext_equal]
pub struct EventDefView {
    pub name: u16,
    pub event_type_id: u16,
    pub num_fields: u16,
    pub scope_id: u16,
    pub fields: Seq<FieldDef>,
}

impl View for EventDef {
    type V = EventDefView;

    open spec fn view(&self) -> EventDefView {
        EventDefView {
            name: self.name,
            event_type_id: self.event_type_id,
            num_fields: self.num_fields,
            scope_id: self.scope_id,
            fields: self.fields@,
        }
    }
}

impl EventDef {
    /// Size in bytes of what stands before the fields.
    pub const HEADER_SIZE: usize = 8;

    /// Total payload size in bytes (sum of field sizes).
    pub fn payload_size(&self) -> (n: usize)
        requires
            8 * self.fields@.len() <= usize::MAX,
        ensures
            n == packed_size(self@.fields),
    {
        sum_sizes(&self.fields)
    }
}

impl Wire for EventDef {
    open spec fn encode(v: EventDefView) -> Seq<u8> {
        u16_bytes(v.name) + u16_bytes(v.event_type_id) + u16_bytes(v.num_fields) + u16_bytes(
            v.scope_id,
        ) + encode_all::<FieldDef>(v.fields)
    }

    open spec fn decode(s: Seq<u8>) -> Result<(EventDefView, int), TraceError> {
        if s.len() < 8 {
            Err(TraceError::UnexpectedEof)
        } else {
            match decode_n::<FieldDef>(suffix(s, 8), u16_at(s, 4) as nat) {
                Err(e) => Err(e),
                Ok((fields, k)) => Ok(
                    (
                        EventDefView {
                            name: u16_at(s, 0),
                            event_type_id: u16_at(s, 2),
                            num_fields: u16_at(s, 4),
                            scope_id: u16_at(s, 6),
                            fields,
                        },
                        8 + k,
                    ),
                ),
            }
        }
    }

    open spec fn encodable(v: EventDefView) -> bool {
        v.fields.len() == v.num_fields
    }

    fn write_to(&self, w: &mut Vec<u8>) {
        put_u16(w, self.name);
        put_u16(w, self.event_type_id);
        put_u16(w, self.num_fields);
        put_u16(w, self.scope_id);
        write_all::<FieldDef>(&self.fields, w);
        proof {
            lemma_views_self(self.fields@);
        }
        assert(w@ =~= old(w)@ + Self::encode(self@));
    }

    fn read_from(r: &mut ByteReader<'_>) -> (res: Result<EventDef, TraceError>) {
        proof {
            reveal(u16_at);
        }
        let ghost s = r@;
        let h = match r.take(8) {
            Err(e) => return Err(e),
            Ok(h) => h,
        };
        let num_fields: u16 = get_u16(h, 4);
        let fields = match read_n::<FieldDef>(r, num_fields as usize) {
            Err(e) => return Err(e),
            Ok(p) => p,
        };
        proof {
            lemma_views_self(fields@);
            let k = decode_n::<FieldDef>(suffix(s, 8), num_fields as nat)->Ok_0.1;
            lemma_suffix_suffix(s, 8, k);
        }
        Ok(
            EventDef {
                name: get_u16(h, 0),
                event_type_id: get_u16(h, 2),
                num_fields,
                scope_id: get_u16(h, 6),
                fields,
            },
        )
    }

    proof fn law_decode_bounds(s: Seq<u8>) {
        lemma_decode_n_bounds::<FieldDef>(suffix(s, 8), u16_at(s, 4) as nat);
    }

    proof fn law_roundtrip(v: EventDefView, rest: Seq<u8>) {
        let s = Self::encode(v) + rest;
        assert(s.subrange(0, 2) =~= u16_bytes(v.name));
        lemma_u16_at(s, 0, v.name);
        assert(s.subrange(2, 4) =~= u16_bytes(v.event_type_id));
        lemma_u16_at(s, 2, v.event_type_id);
        assert(s.subrange(4, 6) =~= u16_bytes(v.num_fields));
        lemma_u16_at(s, 4, v.num_fields);
        assert(s.subrange(6, 8) =~= u16_bytes(v.scope_id));
        lemma_u16_at(s, 6, v.scope_id);
        assert(suffix(s, 8) =~= encode_all::<FieldDef>(v.fields) + rest);
        law_all_roundtrip::<FieldDef>(v.fields, rest);
    }
}

impl Clone for EventDef {
    fn clone(&self) -> (d: EventDef)
        ensures
            d@ == self@,
    {
        EventDef {
            name: self.name,
            event_type_id: self.event_type_id,
            num_fields: self.num_fields,
            scope_id: self.scope_id,
            fields: copy_vec(&self.fields),
        }
    }
}

/// An event of a frame.
#[derive(Debug, Clone)]
pub struct EventRecord {
    pub event_type_id: u16,
    pub reserved: u16,
    pub payload_size: u32,
    pub payload: Vec<u8>,
}

/// What an `EventRecord` holds.
#[verifier::ext_equal]
pub struct EventRecordView {
    pub event_type_id: u16,
    pub reserved: u16,
    pub payload_size: u32,
    pub payload: Seq<u8>,
}

impl View for EventRecord {
    type V = EventRecordView;

    open spec fn view(&self) -> EventRecordView {
        EventRecordView {
            event_type_id: self.event_type_id,
            reserved: self.reserved,
            payload_size: self.payload_size,
            payload: self.payload@,
        }
    }
}

impl EventRecord {
    /// Size in bytes of what stands before the payload.
    pub const HEADER_SIZE: usize = 8;
}

impl Wire for EventRecord {
    open spec fn encode(v: EventRecordView) -> Seq<u8> {
        u16_bytes(v.event_type_id) + u16_bytes(v.reserved) + u32_bytes(v.payload_size) + v.payload
    }

    open spec fn decode(s: Seq<u8>) -> Result<(EventRecordView, int), TraceError> {
        if s.len() < 8 || s.len() < 8 + u32_at(s, 4) {
            Err(TraceError::UnexpectedEof)
        } else {
            Ok(
                (
                    EventRecordView {
                        event_type_id: u16_at(s, 0),
                        reserved: u16_at(s, 2),
                        payload_size: u32_at(s, 4),
                        payload: s.subrange(8, 8 + u32_at(s, 4)),
                    },
                    8 + u32_at(s, 4),
                ),
            )
        }
    }

    open spec fn encodable(v: EventRecordView) -> bool {
        v.payload.len() == v.payload_size
    }

    fn write_to(&self, w: &mut Vec<u8>) {
        put_u16(w, self.event_type_id);
        put_u16(w, self.reserved);
        put_u32(w, self.payload_size);
        put_slice(w, self.payload.as_slice());
        assert(w@ =~= old(w)@ + Self::encode(self@));
    }

    fn read_from(r: &mut ByteReader<'_>) -> (res: Result<EventRecord, TraceError>) {
        proof {
            reveal(u16_at);
            reveal(u32_at);
        }
        let ghost s = r@;
        let h = match r.take(8) {
            Err(e) => return Err(e),
            Ok(h) => h,
        };
        let size: u32 = get_u32(h, 4);
        let body = match r.take(size as usize) {
            Err(e) => return Err(e),
            Ok(b) => b,
        };
        let mut payload: Vec<u8> = Vec::new();
        put_slice(&mut payload, body);
        assert(payload@ =~= s.subrange(8, 8 + size as int));
        assert(r@ =~= suffix(s, 8 + size));
        Ok(
            EventRecord {
                event_type_id: get_u16(h, 0),
                reserved: get_u16(h, 2),
                payload_size: size,
                payload,
            },
        )
    }

    proof fn law_decode_bounds(s: Seq<u8>) {
    }

    proof fn law_roundtrip(v: EventRecordView, rest: Seq<u8>) {
        let s = Self::encode(v) + rest;
        assert(s.subrange(0, 2) =~= u16_bytes(v.event_type_id));
        lemma_u16_at(s, 0, v.event_type_id);
        assert(s.subrange(2, 4) =~= u16_bytes(v.reserved));
        lemma_u16_at(s, 2, v.reserved);
        assert(s.subrange(4, 8) =~= u32_bytes(v.payload_size));
        lemma_u32_at(s, 4, v.payload_size);
        assert(s.subrange(8, 8 + v.payload_size as int) =~= v.payload);
    }
}

} // verus!
