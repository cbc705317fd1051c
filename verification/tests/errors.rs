use uscope::bytes::ByteReader;
use uscope::checkpoint::{FieldOffsets, StorageState};
use uscope::compress::decompress;
use uscope::cpu::trace::CpuTrace;
use uscope::embed::embed_trace_summary;
use uscope::error::{DecodeError, TraceError};
use uscope::protocols::cpu::{CpuSchemaBuilder, CpuWriter};
use uscope::reader::Reader;
use uscope::schema::{DutDescBuilder, FieldSpec, Schema, SchemaBuilder};
use uscope::segment::{read_segment_at, walk_chain};
use uscope::state::replay_deltas_v2;
use uscope::summarize::compute_trace_summary;
use uscope::summary::deserialize_trace_summary;
use uscope::types::{
    DutDesc, FieldDef, FieldType, FileHeader, PreambleChunk, SegmentHeader, StorageDef,
    CHUNK_DUT_DESC, CHUNK_END, CHUNK_SCHEMA, SEG_MAGIC, SF_SPARSE,
};
use uscope::wire::Wire;
use uscope::writer::Writer;

fn field(t: FieldType) -> FieldDef {
    FieldDef { name: 0, field_type: t.code(), enum_id: 0, role: 0, pair_id: 0, reserved: [0; 2] }
}

fn storage(flags: u16) -> StorageDef {
    StorageDef {
        name: 0,
        storage_id: 0,
        num_slots: 4,
        num_fields: 1,
        flags,
        scope_id: 0,
        num_properties: 0,
        reserved_v3: 0,
        fields: vec![field(FieldType::U32)],
        properties: vec![],
    }
}

fn header() -> Vec<u8> {
    let mut b = Vec::new();
    FileHeader::new().write_to(&mut b);
    b
}

fn chunk(b: &mut Vec<u8>, kind: u16, payload: Vec<u8>) {
    PreambleChunk::new(kind, payload).write_to(b);
}

fn some_schema() -> (DutDesc, Schema) {
    let mut sb = SchemaBuilder::new();
    sb.clock_domain("clk", 1000);
    sb.scope("root", None, None, None);
    sb.storage("regs", 0, 4, SF_SPARSE, &[("v", FieldSpec::U32)]);
    let dut = DutDescBuilder::new().build(sb.strings_mut());
    (dut, sb.build())
}

fn some_image() -> Vec<u8> {
    let (dut, schema) = some_schema();
    let mut w = Writer::create(&dut, &schema, 1000).unwrap();
    w.begin_cycle(500);
    w.slot_set(0, 0, 0, 7);
    w.end_cycle().unwrap();
    w.close().unwrap()
}

#[test]
fn traces_without_a_start() {
    assert_eq!(Reader::open(vec![]).err(), Some(TraceError::UnexpectedEof));
    assert_eq!(Reader::open(vec![0; 100]).err(), Some(TraceError::InvalidMagic));
    let mut b = header();
    b.truncate(20);
    assert_eq!(Reader::open(b).err(), Some(TraceError::UnexpectedEof));
}

#[test]
fn preambles_without_their_chunks() {
    let (dut, schema) = some_schema();
    let mut b = header();
    chunk(&mut b, CHUNK_END, vec![]);
    assert_eq!(Reader::open(b).err(), Some(TraceError::MissingSchema));

    let mut bytes = Vec::new();
    schema.write_to(&mut bytes);
    let mut b = header();
    chunk(&mut b, CHUNK_SCHEMA, bytes.clone());
    chunk(&mut b, CHUNK_END, vec![]);
    assert_eq!(Reader::open(b).err(), Some(TraceError::MissingDut));

    let mut desc = Vec::new();
    dut.write_to(&mut desc);
    let mut b = header();
    chunk(&mut b, CHUNK_SCHEMA, bytes);
    chunk(&mut b, CHUNK_DUT_DESC, desc);
    chunk(&mut b, CHUNK_END, vec![]);
    assert_eq!(Reader::open(b).err(), Some(TraceError::MissingConfig));
}

#[test]
fn schemas_with_a_string_pool_behind_their_end() {
    // No definitions, and a string pool that starts at byte 100.
    let mut b = vec![0u8; 10];
    b.extend_from_slice(&100u16.to_le_bytes());
    let r = Schema::read_from(&mut ByteReader::new(&b), b.len());
    assert_eq!(r.err(), Some(TraceError::StringPoolOutOfRange));
}

#[test]
fn segments_that_are_none() {
    assert_eq!(read_segment_at(&[0; 80], 0).err(), Some(TraceError::InvalidSegmentMagic));
    assert_eq!(read_segment_at(&[0; 80], 78).err(), Some(TraceError::UnexpectedEof));
    // A segment at byte 8 whose predecessor is itself.
    let mut b = vec![0u8; 8];
    SegmentHeader {
        segment_magic: SEG_MAGIC,
        flags: 0,
        time_start_ps: 0,
        time_end_ps: 0,
        prev_segment_offset: 8,
        checkpoint_size: 0,
        deltas_compressed_size: 0,
        deltas_raw_size: 0,
        num_frames: 0,
        num_frames_active: 0,
        reserved: 0,
    }
    .write_to(&mut b);
    assert_eq!(walk_chain(&b, 8).err(), Some(TraceError::SegmentChainLoop));
}

#[test]
fn checkpoints_that_are_cut_off() {
    let mut s = StorageState::new(&storage(SF_SPARSE));
    assert_eq!(
        s.read_checkpoint(&mut ByteReader::new(&[]), 0).err(),
        Some(TraceError::CheckpointMaskTooSmall)
    );
    // Slot 0 is valid, and its four bytes are missing.
    assert_eq!(
        s.read_checkpoint(&mut ByteReader::new(&[1, 0]), 1).err(),
        Some(TraceError::CheckpointTruncated)
    );
    let mut d = StorageState::new(&storage(0));
    assert_eq!(
        d.read_checkpoint(&mut ByteReader::new(&[0; 8]), 8).err(),
        Some(TraceError::CheckpointTooSmall)
    );
}

fn replay(delta: &[u8]) -> Option<TraceError> {
    let def = storage(SF_SPARSE);
    let mut st = vec![StorageState::new(&def)];
    let offsets = vec![FieldOffsets::from_storage_def(&def)];
    replay_deltas_v2(delta, &mut st, &offsets, u64::MAX - 1, None).err()
}

#[test]
fn frames_that_cannot_be_read() {
    assert_eq!(replay(&[0x80]), Some(TraceError::Leb128(DecodeError::Incomplete)));
    assert_eq!(replay(&[0x80; 11]), Some(TraceError::Leb128(DecodeError::Overflow)));
    assert_eq!(replay(&[2, 0, 0]), Some(TraceError::TimeOverflow));
    assert_eq!(replay(&[1, 1, 0, 9]), Some(TraceError::UnknownItemTag(9)));
    // A wide operation on field 5 of a storage with one field.
    let mut op = vec![1, 1, 0, 1, 1];
    op.extend_from_slice(&[0, 0, 0, 0, 5, 0]);
    op.extend_from_slice(&7u64.to_le_bytes());
    assert_eq!(replay(&op), Some(TraceError::OpOutOfRange));
}

#[test]
fn blobs_that_are_not_compressed() {
    assert_eq!(decompress(&[9, 9, 9]).err(), Some(TraceError::Decompress));
    assert_eq!(decompress(&[16, 0, 0, 0, 255, 255, 255, 3]).err(), Some(TraceError::Decompress));
}

/// A blob of `n` literals 0xFF.
fn literals(n: u32) -> Vec<u8> {
    let mut b = n.to_le_bytes().to_vec();
    b.push(0xF0);
    let more = n - 15;
    b.extend(vec![0xFF; (more / 255) as usize]);
    b.push((more % 255) as u8);
    b.extend(vec![0xFF; n as usize]);
    b
}

#[test]
fn long_rows_of_literals_are_unpacked() {
    assert_eq!(decompress(&literals(17_000_000)).unwrap(), vec![0xFF; 17_000_000]);
    let mut b = literals(20);
    assert_eq!(decompress(&b).unwrap(), vec![0xFF; 20]);
    b.pop();
    assert_eq!(decompress(&b).err(), Some(TraceError::Decompress));
}

#[test]
fn lengths_beyond_32_bits_are_refused() {
    // A length of literals, and one of a match.
    let mut b = vec![1, 0, 0, 0, 0xF0];
    b.extend(vec![0xFF; 16_843_010]);
    b.push(0);
    assert_eq!(decompress(&b).err(), Some(TraceError::Decompress));
    let mut b = vec![9, 0, 0, 0, 0x1F, 7, 1, 0];
    b.extend(vec![0xFF; 16_843_010]);
    b.push(0);
    assert_eq!(decompress(&b).err(), Some(TraceError::Decompress));
}

#[test]
fn times_and_segments_that_are_not_there() {
    let (dut, schema) = some_schema();
    let w = Writer::create(&dut, &schema, 1000).unwrap();
    let r = Reader::open(w.close().unwrap()).unwrap();
    assert_eq!(r.state_at(0).err(), Some(TraceError::NoSegmentForTime));
    assert_eq!(r.segment_replay(0).err(), Some(TraceError::SegmentOutOfRange));
    assert!(r.events_in_range(0, 100).unwrap().is_empty());
}

#[test]
fn summaries_that_cannot_be_made() {
    let r = Reader::open(some_image()).unwrap();
    assert_eq!(compute_trace_summary(&r, 0).err(), Some(TraceError::ZeroPeriod));
    let (dut_builder, mut sb, ids) = CpuSchemaBuilder::new("c")
        .pipeline_stages(&["Fe"])
        .entity_slots(16)
        .counter("n")
        .build();
    let dut = dut_builder.build(sb.strings_mut());
    let schema = sb.build();
    let mut w = Writer::create(&dut, &schema, 100_000).unwrap();
    assert_eq!(embed_trace_summary(w.image(), 1000).err(), Some(TraceError::NotFinalized));
    let cpu = CpuWriter::new(ids);
    w.begin_cycle(0);
    cpu.counter_add(&mut w, "n", u64::MAX);
    cpu.counter_add(&mut w, "n", 1);
    w.end_cycle().unwrap();
    let r = Reader::open(w.close().unwrap()).unwrap();
    assert_eq!(compute_trace_summary(&r, 1000).err(), Some(TraceError::SummaryTooLarge));
}

#[test]
fn summaries_that_cannot_be_read() {
    assert_eq!(deserialize_trace_summary(b"nope").err(), Some(TraceError::InvalidSummaryMagic));
    assert_eq!(deserialize_trace_summary(b"TS").err(), Some(TraceError::UnexpectedEof));
    let mut b = b"CSUM".to_vec();
    for n in [1024u32, 4, 1, 2] {
        b.extend_from_slice(&n.to_le_bytes());
    }
    b.extend_from_slice(&[0xFF, 0xFE]);
    b.extend_from_slice(&[0; 6]);
    assert_eq!(deserialize_trace_summary(&b).err(), Some(TraceError::InvalidCounterName));
}

#[test]
fn cycles_with_too_many_items() {
    let (dut, schema) = some_schema();
    let mut w = Writer::create(&dut, &schema, 1000).unwrap();
    w.begin_cycle(0);
    for i in 0..65_536u64 {
        w.slot_set(0, 0, 0, i);
    }
    assert_eq!(w.end_cycle().err(), Some(TraceError::FrameTooLarge));
}

/// A CPU scope with what the callback adds.
fn cpu_like(add: fn(&mut SchemaBuilder)) -> Option<TraceError> {
    let mut sb = SchemaBuilder::new();
    sb.clock_domain("clk", 1000);
    sb.scope("root", None, None, None);
    sb.scope("core0", Some(0), Some("cpu"), Some(0));
    add(&mut sb);
    let dut = DutDescBuilder::new().build(sb.strings_mut());
    let schema = sb.build();
    let w = Writer::create(&dut, &schema, 1000).unwrap();
    CpuTrace::open(w.close().unwrap(), "x", "0.0").err()
}

fn add_entities(sb: &mut SchemaBuilder) {
    sb.storage("entities", 1, 4, SF_SPARSE, &[("entity_id", FieldSpec::U32), ("pc", FieldSpec::U64)]);
}

#[test]
fn traces_that_are_not_of_a_cpu() {
    assert_eq!(CpuTrace::open(some_image(), "x", "0.0").err(), Some(TraceError::NoCpuScope));
    assert_eq!(cpu_like(|_| {}), Some(TraceError::NoEntitiesStorage));
    assert_eq!(
        cpu_like(|sb| {
            sb.storage("entities", 1, 4, SF_SPARSE, &[("pc", FieldSpec::U64)]);
        }),
        Some(TraceError::NoEntityIdField)
    );
    assert_eq!(
        cpu_like(|sb| {
            sb.storage("entities", 1, 4, SF_SPARSE, &[("entity_id", FieldSpec::U32)]);
        }),
        Some(TraceError::NoPcField)
    );
    assert_eq!(cpu_like(add_entities), Some(TraceError::NoStageTransitionEvent));
    assert_eq!(
        cpu_like(|sb| {
            add_entities(sb);
            sb.event("stage_transition", 1, &[]);
        }),
        Some(TraceError::NoAnnotateEvent)
    );
    assert_eq!(
        cpu_like(|sb| {
            add_entities(sb);
            sb.event("stage_transition", 1, &[]);
            sb.event("annotate", 1, &[]);
        }),
        Some(TraceError::NoDependencyEvent)
    );
    assert_eq!(
        cpu_like(|sb| {
            add_entities(sb);
            sb.event("stage_transition", 1, &[]);
            sb.event("annotate", 1, &[]);
            sb.event("dependency", 1, &[]);
        }),
        Some(TraceError::NoFlushEvent)
    );
    assert_eq!(
        cpu_like(|sb| {
            add_entities(sb);
            sb.event("stage_transition", 1, &[]);
            sb.event("annotate", 1, &[]);
            sb.event("dependency", 1, &[]);
            sb.event("flush", 1, &[]);
        }),
        Some(TraceError::NoPipelineStageEnum)
    );
}

#[test]
fn clocks_without_a_period() {
    let (dut_builder, mut sb, _ids) = CpuSchemaBuilder::new("c")
        .pipeline_stages(&["Fe"])
        .clock_period_ps(0)
        .build();
    let dut = dut_builder.build(sb.strings_mut());
    let schema = sb.build();
    let w = Writer::create(&dut, &schema, 1000).unwrap();
    assert_eq!(
        CpuTrace::open(w.close().unwrap(), "x", "0.0").err(),
        Some(TraceError::ZeroPeriod)
    );
}

#[test]
fn fields_that_are_not_there() {
    let (_, schema) = some_schema();
    assert_eq!(
        uscope::cpu::resolve::find_field_index(&schema, &schema.storages[0], "v").ok(),
        Some(0)
    );
    assert_eq!(
        uscope::cpu::resolve::find_field_index(&schema, &schema.storages[0], "w").err(),
        Some(TraceError::FieldNotFound)
    );
}

#[test]
fn messages_of_errors() {
    assert_eq!(TraceError::InvalidMagic.message(), "invalid magic");
    assert_eq!(TraceError::UnknownItemTag(0x0a).message(), "unknown item tag: 0x0a");
    assert_eq!(
        TraceError::Leb128(DecodeError::Overflow).message(),
        "LEB128 value overflows u64"
    );
    assert_eq!(TraceError::NoFlushEvent.message(), "no 'flush' event found");
    assert_eq!(DecodeError::Incomplete.message(), "incomplete LEB128 encoding");
}
