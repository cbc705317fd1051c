use uscope::protocols::cpu::{CpuSchemaBuilder, CpuWriter};
use uscope::schema::FieldSpec;
use uscope::types::FileHeader;
use uscope::writer::Writer;

#[test]
fn cpu_schema_builder() {
    let (dut_builder, mut sb, ids) = CpuSchemaBuilder::new("core0")
        .isa("RV64GC")
        .pipeline_stages(&["fetch", "decode", "execute", "memory", "writeback"])
        .fetch_width(4)
        .commit_width(4)
        .entity_slots(256)
        .buffer("rob", 128, &[("completed", FieldSpec::Bool)])
        .counter("committed_insns")
        .build();

    let _dut = dut_builder.build(sb.strings_mut());
    let schema = sb.build();

    // Verify schema structure
    assert_eq!(schema.clock_domains.len(), 1);
    assert_eq!(schema.scopes.len(), 2); // root + core0
    assert_eq!(schema.enums.len(), 4); // pipeline_stage, dep_type, flush_reason, stall_reason
    assert_eq!(schema.storages.len(), 3); // entities, rob, committed_insns
    assert_eq!(schema.events.len(), 5); // stage_transition, annotate, dependency, flush, stall

    assert_eq!(ids.entities_storage_id, 0);
    assert_eq!(ids.buffers.len(), 1);
    assert_eq!(ids.counters.len(), 1);
}

#[test]
fn cpu_write_trace() {
    let (dut_builder, mut sb, ids) = CpuSchemaBuilder::new("core0")
        .isa("RV64GC")
        .pipeline_stages(&["fetch", "decode", "execute", "writeback"])
        .entity_slots(16)
        .counter("committed_insns")
        .build();

    let dut = dut_builder.build(sb.strings_mut());
    let schema = sb.build();

    let mut w = Writer::create(&dut, &schema, 100_000).unwrap();
    let cpu = CpuWriter::new(ids);

    // Cycle 1: fetch
    w.begin_cycle(1000);
    cpu.fetch(&mut w, 0, 0x8000_0000, 0x13);
    cpu.stage_transition(&mut w, 0, 0); // fetch
    w.end_cycle().unwrap();

    // Cycle 2: decode
    w.begin_cycle(2000);
    cpu.stage_transition(&mut w, 0, 1); // decode
    w.end_cycle().unwrap();

    // Cycle 3: execute
    w.begin_cycle(3000);
    cpu.stage_transition(&mut w, 0, 2); // execute
    w.end_cycle().unwrap();

    // Cycle 4: writeback + retire
    w.begin_cycle(4000);
    cpu.stage_transition(&mut w, 0, 3); // writeback
    cpu.retire(&mut w, 0);
    cpu.counter_add(&mut w, "committed_insns", 1);
    w.end_cycle().unwrap();

    let data = w.close().unwrap();
    assert!(data.len() > FileHeader::SIZE);
}
