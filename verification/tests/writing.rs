use uscope::bytes::ByteReader;
use uscope::reader::Reader;
use uscope::schema::{DutDescBuilder, FieldSpec, Schema, SchemaBuilder};
use uscope::state::TimedItem;
use uscope::types::{DutDesc, FileHeader, DA_SLOT_CLEAR, F_COMPLETE, MAGIC, SF_SPARSE};
use uscope::wire::Wire;
use uscope::writer::Writer;

fn make_test_schema_and_dut() -> (DutDesc, Schema) {
    let mut sb = SchemaBuilder::new();
    sb.clock_domain("clk", 1000);
    sb.scope("root", None, None, None);
    sb.scope("core0", Some(0), Some("cpu"), Some(0));

    let stage_enum = sb.enum_type(
        "pipeline_stage",
        &["fetch", "decode", "execute", "writeback"],
    );

    sb.storage(
        "entities",
        1,
        16,
        SF_SPARSE,
        &[
            ("entity_id", FieldSpec::U32),
            ("pc", FieldSpec::U64),
            ("inst_bits", FieldSpec::U32),
        ],
    );

    sb.event(
        "stage_transition",
        1,
        &[
            ("entity_id", FieldSpec::U32),
            ("stage", FieldSpec::Enum(stage_enum)),
        ],
    );

    let mut dut_builder = DutDescBuilder::new();
    dut_builder
        .property("dut_name", "test_core")
        .property("cpu.isa", "RV64GC");
    let dut = dut_builder.build(sb.strings_mut());

    (dut, sb.build())
}

#[test]
fn write_simple_trace() {
    let (dut, schema) = make_test_schema_and_dut();
    let mut w = Writer::create(&dut, &schema, 10_000).unwrap();

    // Cycle 1: fetch instruction
    w.begin_cycle(1000);
    w.slot_set(0, 0, 0, 0); // entity_id = 0
    w.slot_set(0, 0, 1, 0x8000_0000); // pc
    w.slot_set(0, 0, 2, 0x0000_0013); // nop

    // Emit stage_transition event: entity_id=0, stage=fetch(0)
    let mut payload = Vec::new();
    payload.extend_from_slice(&0u32.to_le_bytes()); // entity_id
    payload.push(0); // stage = fetch
    w.event(0, &payload);
    w.end_cycle().unwrap();

    // Cycle 2: decode
    w.begin_cycle(2000);
    let mut payload = Vec::new();
    payload.extend_from_slice(&0u32.to_le_bytes());
    payload.push(1); // stage = decode
    w.event(0, &payload);
    w.end_cycle().unwrap();

    // Cycle 3: execute
    w.begin_cycle(3000);
    let mut payload = Vec::new();
    payload.extend_from_slice(&0u32.to_le_bytes());
    payload.push(2); // stage = execute
    w.event(0, &payload);
    w.end_cycle().unwrap();

    // Cycle 4: writeback + retire
    w.begin_cycle(4000);
    let mut payload = Vec::new();
    payload.extend_from_slice(&0u32.to_le_bytes());
    payload.push(3); // stage = writeback
    w.event(0, &payload);
    w.slot_clear(0, 0);
    w.end_cycle().unwrap();

    let data = w.close().unwrap();

    // Verify file is non-empty and starts with magic
    assert!(data.len() > FileHeader::SIZE);
    assert_eq!(&data[0..4], &MAGIC);

    // Read back header
    let header = FileHeader::read_from(&mut ByteReader::new(&data)).unwrap();
    assert!(header.flags & F_COMPLETE != 0);
    assert_eq!(header.total_time_ps, 4000);
    assert!(header.num_segments >= 1);
}

#[test]
fn interleaved_order_preserved() {
    // Verify that event(flush) then slot_clear() in the same cycle
    // is read back in that exact order (the v0.2 guarantee).
    let (dut, schema) = make_test_schema_and_dut();

    let mut w = Writer::create(&dut, &schema, 100_000).unwrap();

    // Cycle 1: set up an entity in slot 0
    w.begin_cycle(1000);
    w.slot_set(0, 0, 0, 42); // entity_id = 42
    w.slot_set(0, 0, 1, 0x8000_0000); // pc
    let mut payload = Vec::new();
    payload.extend_from_slice(&42u32.to_le_bytes());
    payload.push(0); // stage = fetch
    w.event(0, &payload);
    w.end_cycle().unwrap();

    // Cycle 2: event(flush) THEN slot_clear — this is the critical order
    w.begin_cycle(2000);
    let mut flush_payload = Vec::new();
    flush_payload.extend_from_slice(&42u32.to_le_bytes());
    w.event(0, &flush_payload); // flush event first
    w.slot_clear(0, 0); // then clear
    w.end_cycle().unwrap();

    let image = w.close().unwrap();

    // Read back
    let reader = Reader::open(image).unwrap();
    let (_storages, items) = reader.segment_replay(0).unwrap();

    // Find items at time 2000
    let cycle2_items: Vec<_> = items.iter().filter(|i| i.time_ps() == 2000).collect();

    assert_eq!(cycle2_items.len(), 2, "should have 2 items at t=2000");

    // First item should be the event (flush), second should be the op (clear)
    assert!(
        matches!(cycle2_items[0], TimedItem::Event(_)),
        "first item at t=2000 should be event (flush)"
    );
    assert!(
        matches!(cycle2_items[1], TimedItem::Op(ref op) if op.action == DA_SLOT_CLEAR),
        "second item at t=2000 should be op (slot_clear)"
    );
}
