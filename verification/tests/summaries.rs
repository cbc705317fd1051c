use uscope::protocols::cpu::{CpuSchemaBuilder, CpuWriter};
use uscope::reader::Reader;
use uscope::summary::{
    compute_trace_summary, deserialize_trace_summary, embed_trace_summary, serialize_trace_summary,
    CounterMipmap, MipmapEntry, TraceSummary,
};
use uscope::writer::Writer;

/// Create a small trace with known counter deltas and verify mipmap
/// computation produces correct min/max/sum values.
#[test]
fn mipmap_basic() {
    // Build schema with one counter.
    let (dut_builder, mut sb, ids) = CpuSchemaBuilder::new("core0")
        .pipeline_stages(&["Fe", "De", "Ex", "Wb"])
        .entity_slots(16)
        .counter("insns")
        .build();
    let dut = dut_builder.build(sb.strings_mut());
    let schema = sb.build();

    let clock_period: u64 = 1000; // 1 ns

    // Write trace: 2048 cycles so we get exactly 2 level-0 buckets
    // (base_interval = 1024).
    let mut w = Writer::create(&dut, &schema, clock_period * 100_000).unwrap();
    let cpu = CpuWriter::new(ids);

    // Bucket 0: cycles 0..1023 — emit deltas of 1 on every cycle.
    for c in 0u64..1024 {
        w.begin_cycle(c * clock_period);
        cpu.counter_add(&mut w, "insns", 1);
        w.end_cycle().unwrap();
    }
    // Bucket 1: cycles 1024..2047 — emit deltas of 3 on every other cycle.
    for c in 1024u64..2048 {
        w.begin_cycle(c * clock_period);
        if c % 2 == 0 {
            cpu.counter_add(&mut w, "insns", 3);
        }
        w.end_cycle().unwrap();
    }

    let image = w.close().unwrap();

    // Compute mipmap.
    let reader = Reader::open(image).unwrap();
    let summary = compute_trace_summary(&reader, clock_period).unwrap();

    assert_eq!(summary.base_interval_cycles, 1024);
    assert_eq!(summary.fan_out, 4);
    assert_eq!(summary.counters.len(), 1);

    let cm = &summary.counters[0];
    assert_eq!(cm.name, "insns");
    assert!(cm.levels.len() >= 1);

    let l0 = &cm.levels[0];
    assert_eq!(l0.len(), 2, "expected 2 level-0 buckets");

    // Bucket 0: 1024 deltas of 1.
    assert_eq!(l0[0].min_delta, 1);
    assert_eq!(l0[0].max_delta, 1);
    assert_eq!(l0[0].sum, 1024);

    // Bucket 1: 512 deltas of 3 (every other cycle).
    assert_eq!(l0[1].min_delta, 3);
    assert_eq!(l0[1].max_delta, 3);
    assert_eq!(l0[1].sum, 512 * 3);
}

#[test]
fn mipmap_no_counters() {
    // Schema without counters.
    let (dut_builder, mut sb, _ids) = CpuSchemaBuilder::new("core0")
        .pipeline_stages(&["Fe", "De"])
        .entity_slots(16)
        .build();
    let dut = dut_builder.build(sb.strings_mut());
    let schema = sb.build();

    let mut w = Writer::create(&dut, &schema, 100_000).unwrap();
    w.begin_cycle(0);
    w.end_cycle().unwrap();
    let image = w.close().unwrap();

    let reader = Reader::open(image).unwrap();
    let summary = compute_trace_summary(&reader, 1000).unwrap();
    assert!(summary.counters.is_empty());
}

#[test]
fn mipmap_higher_levels() {
    let (dut_builder, mut sb, ids) = CpuSchemaBuilder::new("core0")
        .pipeline_stages(&["Fe", "De"])
        .entity_slots(16)
        .counter("ops")
        .build();
    let dut = dut_builder.build(sb.strings_mut());
    let schema = sb.build();

    let clock_period: u64 = 1000;
    // Write enough cycles to get multiple level-0 buckets:
    // 8 * 1024 = 8192 cycles -> 8 buckets -> level 1 has 2 -> level 2 has 1.
    let mut w = Writer::create(&dut, &schema, clock_period * 100_000).unwrap();
    let cpu = CpuWriter::new(ids);

    for c in 0u64..8192 {
        w.begin_cycle(c * clock_period);
        cpu.counter_add(&mut w, "ops", 1);
        w.end_cycle().unwrap();
    }
    let image = w.close().unwrap();

    let reader = Reader::open(image).unwrap();
    let summary = compute_trace_summary(&reader, clock_period).unwrap();

    let cm = &summary.counters[0];
    assert_eq!(cm.levels[0].len(), 8, "level 0: 8 buckets");
    assert_eq!(cm.levels[1].len(), 2, "level 1: 2 buckets (fan_out=4)");
    assert_eq!(cm.levels[2].len(), 1, "level 2: 1 bucket");

    // Level 1, bucket 0 aggregates level-0 buckets 0..3.
    assert_eq!(cm.levels[1][0].sum, 4 * 1024);
    assert_eq!(cm.levels[1][0].min_delta, 1);
    assert_eq!(cm.levels[1][0].max_delta, 1);
}

#[test]
fn serialize_deserialize_roundtrip() {
    let summary = TraceSummary {
        base_interval_cycles: 1024,
        fan_out: 4,
        total_instructions: 300,
        instruction_density: vec![vec![100, 200], vec![300]],
        counters: vec![
            CounterMipmap {
                name: "insns".to_string(),
                storage_id: 3,
                levels: vec![
                    vec![
                        MipmapEntry {
                            min_delta: 1,
                            max_delta: 5,
                            sum: 100,
                        },
                        MipmapEntry {
                            min_delta: 0,
                            max_delta: 10,
                            sum: 200,
                        },
                    ],
                    vec![MipmapEntry {
                        min_delta: 0,
                        max_delta: 10,
                        sum: 300,
                    }],
                ],
            },
            CounterMipmap {
                name: "cycles".to_string(),
                storage_id: 4,
                levels: vec![vec![MipmapEntry {
                    min_delta: 1,
                    max_delta: 1,
                    sum: 1024,
                }]],
            },
        ],
    };

    let data = serialize_trace_summary(&summary);
    let decoded = deserialize_trace_summary(&data).unwrap();

    assert_eq!(decoded.base_interval_cycles, summary.base_interval_cycles);
    assert_eq!(decoded.fan_out, summary.fan_out);
    assert_eq!(decoded.total_instructions, summary.total_instructions);
    assert_eq!(
        decoded.instruction_density.len(),
        summary.instruction_density.len()
    );
    for (orig, dec) in summary
        .instruction_density
        .iter()
        .zip(decoded.instruction_density.iter())
    {
        assert_eq!(dec, orig);
    }
    assert_eq!(decoded.counters.len(), summary.counters.len());

    for (orig, dec) in summary.counters.iter().zip(decoded.counters.iter()) {
        assert_eq!(dec.name, orig.name);
        assert_eq!(dec.storage_id, orig.storage_id);
        assert_eq!(dec.levels.len(), orig.levels.len());

        for (ol, dl) in orig.levels.iter().zip(dec.levels.iter()) {
            assert_eq!(dl.len(), ol.len());
            for (oe, de) in ol.iter().zip(dl.iter()) {
                assert_eq!(de.min_delta, oe.min_delta);
                assert_eq!(de.max_delta, oe.max_delta);
                assert_eq!(de.sum, oe.sum);
            }
        }
    }
}

#[test]
fn serialize_deserialize_empty() {
    let summary = TraceSummary {
        base_interval_cycles: 512,
        fan_out: 2,
        total_instructions: 0,
        instruction_density: vec![],
        counters: vec![],
    };

    let data = serialize_trace_summary(&summary);
    let decoded = deserialize_trace_summary(&data).unwrap();

    assert_eq!(decoded.base_interval_cycles, 512);
    assert_eq!(decoded.fan_out, 2);
    assert_eq!(decoded.total_instructions, 0);
    assert!(decoded.instruction_density.is_empty());
    assert!(decoded.counters.is_empty());
}

#[test]
fn deserialize_bad_magic() {
    let data = b"BADMrest of data...";
    let result = deserialize_trace_summary(data);
    assert!(result.is_err());
    let msg = result.unwrap_err().message();
    assert!(msg.contains("magic"), "error should mention magic: {}", msg);
}

#[test]
fn deserialize_legacy_csum() {
    // Build a CSUM-format blob (old format) and verify it deserializes.
    let mut buf = Vec::new();
    buf.extend_from_slice(b"CSUM");
    buf.extend_from_slice(&(1024 as u32).to_le_bytes()); // base_interval
    buf.extend_from_slice(&(4 as u32).to_le_bytes()); // fan_out
    buf.extend_from_slice(&(1 as u32).to_le_bytes()); // num_counters

    // One counter: "ops", storage_id=2, 1 level, 1 entry
    let name = b"ops";
    buf.extend_from_slice(&(name.len() as u32 as u32).to_le_bytes());
    buf.extend_from_slice(name);
    buf.extend_from_slice(&(2 as u16).to_le_bytes()); // storage_id
    buf.extend_from_slice(&(1 as u32).to_le_bytes()); // num_levels
    buf.extend_from_slice(&(1 as u32).to_le_bytes()); // num_entries in level 0
    buf.extend_from_slice(&(1 as u64).to_le_bytes()); // min_delta
    buf.extend_from_slice(&(5 as u64).to_le_bytes()); // max_delta
    buf.extend_from_slice(&(100 as u64).to_le_bytes()); // sum

    let decoded = deserialize_trace_summary(&buf).unwrap();
    assert_eq!(decoded.base_interval_cycles, 1024);
    assert_eq!(decoded.fan_out, 4);
    assert_eq!(decoded.total_instructions, 0);
    assert!(decoded.instruction_density.is_empty());
    assert_eq!(decoded.counters.len(), 1);
    assert_eq!(decoded.counters[0].name, "ops");
    assert_eq!(decoded.counters[0].storage_id, 2);
    assert_eq!(decoded.counters[0].levels[0][0].sum, 100);
}

#[test]
fn embed_trace_summary_roundtrip() {
    let (dut_builder, mut sb, ids) = CpuSchemaBuilder::new("core0")
        .pipeline_stages(&["Fe", "De", "Ex", "Wb"])
        .entity_slots(16)
        .counter("insns")
        .build();
    let dut = dut_builder.build(sb.strings_mut());
    let schema = sb.build();

    let clock_period: u64 = 1000;

    let mut w = Writer::create(&dut, &schema, clock_period * 100_000).unwrap();
    let cpu = CpuWriter::new(ids);

    for c in 0u64..2048 {
        w.begin_cycle(c * clock_period);
        cpu.counter_add(&mut w, "insns", 1);
        w.end_cycle().unwrap();
    }
    let image = w.close().unwrap();

    // Before embedding: no summary in file.
    let reader = Reader::open(image.clone()).unwrap();
    assert!(reader.trace_summary().is_none());
    drop(reader);

    // Embed trace summary.
    let image = embed_trace_summary(image, clock_period).unwrap();

    // Re-open: should now have the summary loaded automatically.
    let reader2 = Reader::open(image).unwrap();
    let loaded_summary = reader2.trace_summary().expect("summary should be embedded");
    assert_eq!(loaded_summary.counters.len(), 1);
    assert_eq!(loaded_summary.counters[0].name, "insns");
    assert!(loaded_summary.counters[0].levels[0].len() >= 2);
    assert_eq!(loaded_summary.counters[0].levels[0][0].sum, 1024);

    // The file should still have valid segments and string table.
    assert!(reader2.segment_count() >= 1);
}

#[test]
fn embed_no_counters_no_entities_is_noop() {
    // Schema without counters but with entities (CPU schema always has entities).
    // We need a schema truly without entities. Use SchemaBuilder directly.
    // Actually, CpuSchemaBuilder always creates an entities storage.
    // The embed_trace_summary only skips if both counters and total_instructions are 0.
    // With entities but no fetches, total_instructions will be 0.
    let (dut_builder, mut sb, _ids) = CpuSchemaBuilder::new("core0")
        .pipeline_stages(&["Fe", "De"])
        .entity_slots(16)
        .build();
    let dut = dut_builder.build(sb.strings_mut());
    let schema = sb.build();

    let mut w = Writer::create(&dut, &schema, 100_000).unwrap();
    w.begin_cycle(0);
    w.end_cycle().unwrap();
    let image = w.close().unwrap();

    let size_before = image.len();

    // No instructions fetched, no counters -> should still embed because
    // entities storage exists (density data will be empty but present).
    // Actually with 0 total_instructions and empty counters, embed is noop.
    let image = embed_trace_summary(image, 1000).unwrap();

    let size_after = image.len();
    assert_eq!(size_before, size_after, "file should not change");

    let reader = Reader::open(image).unwrap();
    assert!(reader.trace_summary().is_none());
}

#[test]
fn embed_is_idempotent() {
    let (dut_builder, mut sb, ids) = CpuSchemaBuilder::new("core0")
        .pipeline_stages(&["Fe", "De", "Ex", "Wb"])
        .entity_slots(16)
        .counter("ops")
        .build();
    let dut = dut_builder.build(sb.strings_mut());
    let schema = sb.build();

    let clock_period: u64 = 1000;

    let mut w = Writer::create(&dut, &schema, clock_period * 100_000).unwrap();
    let cpu = CpuWriter::new(ids);

    for c in 0u64..2048 {
        w.begin_cycle(c * clock_period);
        cpu.counter_add(&mut w, "ops", 1);
        w.end_cycle().unwrap();
    }
    let image = w.close().unwrap();

    // Embed twice; second call should produce identical result.
    let image = embed_trace_summary(image, clock_period).unwrap();
    let size_first = image.len();

    let image = embed_trace_summary(image, clock_period).unwrap();
    let size_second = image.len();

    assert_eq!(
        size_first, size_second,
        "embedding twice should be idempotent"
    );

    let reader = Reader::open(image).unwrap();
    let summary = reader.trace_summary().expect("summary should exist");
    assert_eq!(summary.counters.len(), 1);
    assert_eq!(summary.counters[0].levels[0][0].sum, 1024);
}

/// Test instruction density: create a trace with known entity creates,
/// verify density buckets and row_to_cycle.
#[test]
fn instruction_density_basic() {
    let (dut_builder, mut sb, ids) = CpuSchemaBuilder::new("core0")
        .pipeline_stages(&["Fe", "De", "Ex", "Wb"])
        .entity_slots(512)
        .build();
    let dut = dut_builder.build(sb.strings_mut());
    let schema = sb.build();

    let clock_period: u64 = 1000;

    let mut w = Writer::create(&dut, &schema, clock_period * 100_000).unwrap();
    let cpu = CpuWriter::new(ids);

    // Bucket 0 (cycles 0..1023): fetch 100 instructions.
    let mut eid: u32 = 0;
    for c in 0u64..100 {
        w.begin_cycle(c * clock_period);
        cpu.fetch(&mut w, eid, 0x80000000 + eid as u64 * 4, 0x13);
        cpu.stage_transition(&mut w, eid, 0);
        eid += 1;
        w.end_cycle().unwrap();
    }
    // Fill remaining cycles in bucket 0 with empty cycles.
    for c in 100u64..1024 {
        w.begin_cycle(c * clock_period);
        w.end_cycle().unwrap();
    }

    // Bucket 1 (cycles 1024..2047): fetch 50 instructions.
    for c in 1024u64..1074 {
        w.begin_cycle(c * clock_period);
        cpu.fetch(&mut w, eid, 0x80000000 + eid as u64 * 4, 0x13);
        cpu.stage_transition(&mut w, eid, 0);
        eid += 1;
        w.end_cycle().unwrap();
    }
    for c in 1074u64..2048 {
        w.begin_cycle(c * clock_period);
        w.end_cycle().unwrap();
    }

    let image = w.close().unwrap();

    let reader = Reader::open(image).unwrap();
    let summary = compute_trace_summary(&reader, clock_period).unwrap();

    assert_eq!(summary.total_instructions, 150);
    assert!(!summary.instruction_density.is_empty());

    let d0 = &summary.instruction_density[0];
    assert_eq!(d0.len(), 2, "expected 2 density buckets");
    assert_eq!(d0[0], 100, "bucket 0 should have 100 instructions");
    assert_eq!(d0[1], 50, "bucket 1 should have 50 instructions");

    // Test row_to_cycle.
    assert_eq!(summary.row_to_cycle(0), 0); // row 0 is in bucket 0
    assert_eq!(summary.row_to_cycle(99), 0); // row 99 is still in bucket 0
    assert_eq!(summary.row_to_cycle(100), 1024); // row 100 is in bucket 1
    assert_eq!(summary.row_to_cycle(149), 1024); // row 149 is in bucket 1
    assert_eq!(summary.row_to_cycle(150), 2048); // row 150 is past the end
}

#[test]
fn instruction_density_with_counters() {
    let (dut_builder, mut sb, ids) = CpuSchemaBuilder::new("core0")
        .pipeline_stages(&["Fe", "De", "Ex", "Wb"])
        .entity_slots(512)
        .counter("insns")
        .build();
    let dut = dut_builder.build(sb.strings_mut());
    let schema = sb.build();

    let clock_period: u64 = 1000;

    let mut w = Writer::create(&dut, &schema, clock_period * 100_000).unwrap();
    let cpu = CpuWriter::new(ids);

    // Emit 20 instructions with counter increments over 2048 cycles.
    let mut eid: u32 = 0;
    for c in 0u64..20 {
        w.begin_cycle(c * clock_period);
        cpu.fetch(&mut w, eid, 0x80000000 + eid as u64 * 4, 0x13);
        cpu.counter_add(&mut w, "insns", 1);
        eid += 1;
        w.end_cycle().unwrap();
    }
    for c in 20u64..2048 {
        w.begin_cycle(c * clock_period);
        w.end_cycle().unwrap();
    }

    let image = w.close().unwrap();

    let reader = Reader::open(image).unwrap();
    let summary = compute_trace_summary(&reader, clock_period).unwrap();

    assert_eq!(summary.total_instructions, 20);
    assert_eq!(summary.counters.len(), 1);
    assert_eq!(summary.counters[0].name, "insns");

    // Density: all 20 instructions in bucket 0.
    assert_eq!(summary.instruction_density[0][0], 20);
}

#[test]
fn row_to_cycle_empty_density() {
    let summary = TraceSummary {
        base_interval_cycles: 1024,
        fan_out: 4,
        total_instructions: 0,
        instruction_density: vec![],
        counters: vec![],
    };
    assert_eq!(summary.row_to_cycle(0), 0);
    assert_eq!(summary.row_to_cycle(100), 0);
}

#[test]
fn embed_trace_summary_with_density() {
    let (dut_builder, mut sb, ids) = CpuSchemaBuilder::new("core0")
        .pipeline_stages(&["Fe", "De", "Ex", "Wb"])
        .entity_slots(512)
        .counter("ops")
        .build();
    let dut = dut_builder.build(sb.strings_mut());
    let schema = sb.build();

    let clock_period: u64 = 1000;

    let mut w = Writer::create(&dut, &schema, clock_period * 100_000).unwrap();
    let cpu = CpuWriter::new(ids);

    // 10 instructions + counter increments.
    let mut eid: u32 = 0;
    for c in 0u64..10 {
        w.begin_cycle(c * clock_period);
        cpu.fetch(&mut w, eid, 0x80000000 + eid as u64 * 4, 0x13);
        cpu.counter_add(&mut w, "ops", 1);
        eid += 1;
        w.end_cycle().unwrap();
    }
    for c in 10u64..2048 {
        w.begin_cycle(c * clock_period);
        w.end_cycle().unwrap();
    }

    let image = w.close().unwrap();

    let image = embed_trace_summary(image, clock_period).unwrap();

    let reader = Reader::open(image).unwrap();
    let summary = reader.trace_summary().expect("summary should exist");

    assert_eq!(summary.total_instructions, 10);
    assert_eq!(summary.instruction_density[0][0], 10);
    assert_eq!(summary.counters.len(), 1);
    assert_eq!(summary.counters[0].name, "ops");
    assert_eq!(summary.row_to_cycle(5), 0);
}
