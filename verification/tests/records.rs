use uscope::bytes::ByteReader;
use uscope::types::{
    DeltaOp, FieldType, FileHeader, PreambleChunk, SectionEntry, SegmentHeader,
    CHUNK_TRACE_CONFIG, DA_SLOT_SET, MAGIC, SECTION_SEGMENTS, SEG_MAGIC, VERSION_MAJOR,
    VERSION_MINOR,
};
use uscope::wire::Wire;

#[test]
fn file_header_roundtrip() {
    let hdr = FileHeader::new();
    let mut buf = Vec::new();
    hdr.write_to(&mut buf);
    assert_eq!(buf.len(), FileHeader::SIZE);

    let decoded = FileHeader::read_from(&mut ByteReader::new(&buf)).unwrap();
    assert_eq!(decoded.magic, MAGIC);
    assert_eq!(decoded.version_major, VERSION_MAJOR);
    assert_eq!(decoded.version_minor, VERSION_MINOR);
    assert_eq!(decoded.flags, hdr.flags);
}

#[test]
fn preamble_chunk_roundtrip() {
    let chunk = PreambleChunk::new(CHUNK_TRACE_CONFIG, vec![1, 2, 3, 4, 5]);
    let mut buf = Vec::new();
    chunk.write_to(&mut buf);
    // 8 header + 5 payload + 3 padding = 16
    assert_eq!(buf.len(), 16);

    let decoded = PreambleChunk::read_from(&mut ByteReader::new(&buf)).unwrap();
    assert_eq!(decoded.chunk_type, CHUNK_TRACE_CONFIG);
    assert_eq!(decoded.payload, vec![1, 2, 3, 4, 5]);
}

#[test]
fn segment_header_roundtrip() {
    let seg = SegmentHeader {
        segment_magic: SEG_MAGIC,
        flags: 0,
        time_start_ps: 1000,
        time_end_ps: 2000,
        prev_segment_offset: 0,
        checkpoint_size: 128,
        deltas_compressed_size: 64,
        deltas_raw_size: 100,
        num_frames: 10,
        num_frames_active: 5,
        reserved: 0,
    };
    let mut buf = Vec::new();
    seg.write_to(&mut buf);
    assert_eq!(buf.len(), SegmentHeader::SIZE);

    let decoded = SegmentHeader::read_from(&mut ByteReader::new(&buf)).unwrap();
    assert_eq!(decoded.time_start_ps, 1000);
    assert_eq!(decoded.time_end_ps, 2000);
    assert_eq!(decoded.num_frames, 10);
}

#[test]
fn delta_op_roundtrip() {
    let op = DeltaOp {
        action: DA_SLOT_SET,
        reserved: 0,
        storage_id: 1,
        slot_index: 42,
        field_index: 2,
        value: 0xDEAD_BEEF,
    };
    let mut buf = Vec::new();
    op.write_to(&mut buf);
    assert_eq!(buf.len(), DeltaOp::SIZE);

    let decoded = DeltaOp::read_from(&mut ByteReader::new(&buf)).unwrap();
    assert_eq!(decoded.action, DA_SLOT_SET);
    assert_eq!(decoded.storage_id, 1);
    assert_eq!(decoded.slot_index, 42);
    assert_eq!(decoded.value, 0xDEAD_BEEF);
}

#[test]
fn compact_conversion() {
    let op = DeltaOp {
        action: DA_SLOT_SET,
        reserved: 0,
        storage_id: 5,
        slot_index: 100,
        field_index: 3,
        value: 42,
    };
    let compact = op.to_compact().unwrap();
    assert_eq!(compact.storage_id_lo, 5);
    assert_eq!(compact.value16, 42);

    let wide = compact.to_wide();
    assert_eq!(wide.storage_id, 5);
    assert_eq!(wide.value, 42);

    // Cannot compact large storage_id or value
    let big = DeltaOp { storage_id: 300, ..op };
    assert!(big.to_compact().is_none());

    let big_val = DeltaOp { value: 70000, ..op };
    assert!(big_val.to_compact().is_none());
}

#[test]
fn field_type_sizes() {
    assert_eq!(FieldType::U8.size(), 1);
    assert_eq!(FieldType::U16.size(), 2);
    assert_eq!(FieldType::U32.size(), 4);
    assert_eq!(FieldType::U64.size(), 8);
    assert_eq!(FieldType::Bool.size(), 1);
    assert_eq!(FieldType::Enum.size(), 1);
    assert_eq!(FieldType::StringRef.size(), 4);
}

#[test]
fn section_entry_roundtrip() {
    let entry = SectionEntry {
        section_type: SECTION_SEGMENTS,
        flags: 0,
        reserved: 0,
        offset: 4096,
        size: 1024,
    };
    let mut buf = Vec::new();
    entry.write_to(&mut buf);
    assert_eq!(buf.len(), SectionEntry::SIZE);

    let decoded = SectionEntry::read_from(&mut ByteReader::new(&buf)).unwrap();
    assert_eq!(decoded.section_type, SECTION_SEGMENTS);
    assert_eq!(decoded.offset, 4096);
    assert_eq!(decoded.size, 1024);
}
