use uscope::analysis::{analyze_performance, count_instructions, stage_latencies};
use uscope::commands::{cmd_buffers, cmd_counters, cmd_info, cmd_state, cmd_timeline};
use uscope::cpu::trace::CpuTrace;
use uscope::cpu::types::{DepKind, RetireStatus, StageSpan};
use uscope::error::TraceError;
use uscope::protocols::cpu::{CpuSchemaBuilder, CpuWriter};
use uscope::query::{
    buffers_at, counter_values, cycles_between, entity_timeline, find_buffers_by_name,
    find_counters_by_name, has_pointers, pointer_pairs, sample_cycles, shown_rows, stage_name,
};
use uscope::report::{list_enums, list_events, list_storages};
use uscope::schema::FieldSpec;
use uscope::tools::{
    tool_analyze_performance, tool_buffer_occupancy, tool_counter_values, tool_entity_timeline,
    tool_state_at_cycle,
};
use uscope::writer::Writer;

/// Two instructions that retire, one that is flushed and one that stays in
/// flight, at a clock of 1 ns.
fn sample_image() -> Vec<u8> {
    let builder = CpuSchemaBuilder::new("core0")
        .isa("RV64GC")
        .pipeline_stages(&["fetch", "decode", "execute"])
        .entity_slots(16)
        .buffer("rob", 4, &[("done", FieldSpec::Bool)])
        .buffer("iq", 2, &[])
        .counter("committed_insns")
        .counter("bp_misses");
    assert!(builder.fits());
    let (dut_builder, mut sb, ids) = builder.build();
    let dut = dut_builder.build(sb.strings_mut());
    let schema = sb.build();
    let mut w = Writer::create(&dut, &schema, 100_000).unwrap();
    let cpu = CpuWriter::new(ids);

    w.begin_cycle(0);
    cpu.fetch(&mut w, 0, 0x8000_0000, 0x13);
    cpu.stage_transition(&mut w, 0, 0);
    cpu.annotate(&mut w, 0, "80000000 addi x0, x0, 0");
    cpu.buffer_set(&mut w, "rob", 1, 0);
    w.end_cycle().unwrap();

    w.begin_cycle(1000);
    cpu.stage_transition(&mut w, 0, 1);
    cpu.fetch(&mut w, 1, 0x8000_0004, 0x13);
    cpu.stage_transition(&mut w, 1, 0);
    cpu.annotate(&mut w, 1, "first note");
    cpu.annotate(&mut w, 1, "second note");
    cpu.dependency(&mut w, 0, 1, 0);
    cpu.dependency(&mut w, 0, 1, 3);
    w.end_cycle().unwrap();

    w.begin_cycle(2000);
    cpu.stage_transition(&mut w, 0, 2);
    cpu.fetch(&mut w, 2, 0x8000_0008, 0x13);
    cpu.stage_transition(&mut w, 2, 0);
    cpu.buffer_set_field(&mut w, "rob", 1, "done", 1);
    cpu.counter_add(&mut w, "bp_misses", 2);
    w.end_cycle().unwrap();

    w.begin_cycle(5000);
    cpu.retire(&mut w, 0);
    cpu.counter_add(&mut w, "committed_insns", 1);
    cpu.buffer_clear(&mut w, "rob", 1);
    cpu.stage_transition(&mut w, 1, 1);
    cpu.flush(&mut w, 2, 0);
    w.end_cycle().unwrap();

    w.begin_cycle(6000);
    cpu.fetch(&mut w, 3, 0x8000_000c, 0x13);
    cpu.stage_transition(&mut w, 3, 0);
    cpu.retire(&mut w, 1);
    cpu.counter_add(&mut w, "committed_insns", 1);
    w.end_cycle().unwrap();

    w.close().unwrap()
}

fn sample_trace() -> CpuTrace {
    CpuTrace::open(sample_image(), "sample.uscope", "0.0").unwrap()
}

#[test]
fn schema_of_a_cpu_resolves_to_what_it_was_built_with() {
    let t = sample_trace();
    assert_eq!(t.period_ps(), 1000);
    assert_eq!(t.max_cycle(), 6);
    assert_eq!(t.stage_names().to_vec(), vec!["fetch", "decode", "execute"]);
    assert_eq!(t.stage_name_indices().to_vec(), vec![0, 1, 2]);
    assert_eq!(t.entities_storage_id(), 0);
    let ids = t.protocol_ids();
    assert_eq!(ids.field_entity_id, 0);
    assert_eq!(ids.field_pc, 1);
    assert_eq!(ids.field_inst_bits, Some(2));
    assert_eq!(ids.field_rbid, None);
    assert_eq!(ids.stage_transition_event_id, 0);
    assert_eq!(ids.annotate_event_id, 1);
    assert_eq!(ids.dependency_event_id, 2);
    assert_eq!(ids.flush_event_id, 3);
    let counters: Vec<(u16, String)> = t.counter_names().to_vec();
    assert_eq!(counters, vec![(3, "committed_insns".to_string()), (4, "bp_misses".to_string())]);
    assert_eq!(t.buffer_infos().len(), 2);
    assert_eq!(t.buffer_infos()[0].name, "rob");
    assert_eq!(t.buffer_infos()[0].storage_id, 1);
    assert_eq!(t.buffer_infos()[0].capacity, 4);
    assert_eq!(t.buffer_infos()[0].fields[1].0, "done");
    assert_eq!(t.buffer_infos()[1].name, "iq");
}

#[test]
fn file_info_and_metadata_of_a_trace() {
    let t = sample_trace();
    let info = t.file_info();
    assert_eq!(info.version, "0.1");
    assert_eq!(info.segment_count, 1);
    assert_eq!(info.total_instructions, 0);
    assert_eq!(info.max_cycle, 6);
    assert_eq!(info.period_ps, 1000);
    assert!(info.metadata.iter().any(|(k, v)| k == "cpu.isa" && v == "RV64GC"));
    assert!(info.metadata.iter().any(|(_, v)| v.contains("1000 MHz")));
}

#[test]
fn instructions_live_from_fetch_to_their_end() {
    let t = sample_trace();
    let r = t.load_segments(&[0]).unwrap();
    assert_eq!(r.instructions.len(), 4);
    // In the order of their first cycles.
    let firsts: Vec<u32> = r.instructions.iter().map(|i| i.first_cycle).collect();
    assert_eq!(firsts, vec![0, 1, 2, 6]);

    let a = &r.instructions[0];
    assert_eq!(a.id, 0);
    assert_eq!(a.retire_status, RetireStatus::Retired);
    assert_eq!(a.disasm, "80000000 addi x0, x0, 0");
    let own = &r.stages[a.stage_range.start as usize..a.stage_range.end as usize];
    let spans: Vec<(u16, u32, u32)> =
        own.iter().map(|s| (s.stage_name_idx, s.start_cycle, s.end_cycle)).collect();
    assert_eq!(spans, vec![(0, 0, 1), (1, 1, 2), (2, 2, 5)]);

    let b = &r.instructions[1];
    assert_eq!(b.tooltip, "first note\nsecond note");
    assert_eq!(b.disasm, "0x80000004");
    assert_eq!(b.retire_status, RetireStatus::Retired);
    assert_eq!(b.last_cycle, 6);

    assert_eq!(r.instructions[2].retire_status, RetireStatus::Flushed);
    assert_eq!(r.instructions[3].retire_status, RetireStatus::InFlight);
    assert_eq!(r.instructions[3].last_cycle, 7);

    assert_eq!(r.dependencies.len(), 2);
    assert_eq!(r.dependencies[0].kind, DepKind::Data);
    assert_eq!(r.dependencies[1].kind, DepKind::Memory);
    assert_eq!(r.dependencies[0].producer, 0);
    assert_eq!(r.dependencies[0].consumer, 1);

    assert_eq!(r.counter_samples[0], vec![(5, 1), (6, 2)]);
    assert_eq!(r.counter_samples[1], vec![(2, 2)]);
}

#[test]
fn decoded_instructions_show_their_mnemonics() {
    let t = sample_trace();
    let r = t.load_segments_decoded(&[0], &vec![(0x13, "nop".to_string())]).unwrap();
    // An annotation that names the address goes before the decoder.
    assert_eq!(r.instructions[0].disasm, "80000000 addi x0, x0, 0");
    assert!(r.instructions[1].disasm.contains("nop"));
    assert!(r.instructions[1].disasm.contains("80000004"));
}

#[test]
fn segments_out_of_range_are_refused() {
    let t = sample_trace();
    assert_eq!(t.load_segments(&[1]).unwrap_err(), TraceError::SegmentOutOfRange);
    assert_eq!(t.load_segments(&[]).unwrap().instructions.len(), 0);
}

#[test]
fn counters_of_a_small_trace_are_exact() {
    let t = sample_trace();
    assert!(t.is_readable());
    assert_eq!(t.counter_value_at(0, 4), 0);
    assert_eq!(t.counter_value_at(0, 5), 1);
    assert_eq!(t.counter_value_at(0, 100), 2);
    assert_eq!(t.counter_value_at(9, 5), 0);
    assert_eq!(t.counter_delta_at(0, 5), 1);
    assert_eq!(t.counter_delta_at(0, 0), 0);
    assert_eq!(t.counter_window_at(0, 6, 4), (2, 4));
    assert_eq!(t.counter_window_at(0, 2, 4), (0, 2));
    let r = t.counter_downsample(0, 0, 6, 3);
    assert_eq!(r.len(), 3);
    for (lo, hi) in &r {
        assert!(lo <= hi);
        assert!(*hi <= 1_000_000);
    }
    assert!(t.counter_downsample(0, 3, 3, 5).is_empty());
    assert!(t.counter_downsample(0, 0, 3, 0).is_empty());
}

#[test]
fn buffers_show_what_was_put_into_them() {
    let t = sample_trace();
    let b = buffers_at(&t, Some("rob"), 2);
    assert_eq!(b.len(), 1);
    assert_eq!(b[0].name, "rob");
    assert_eq!(b[0].occupied, 1);
    assert_eq!(b[0].state.capacity, 4);
    let (slot, values, entity) = &b[0].state.slots[0];
    assert_eq!(*slot, 1);
    assert_eq!(values, &vec![0, 1]);
    assert_eq!(entity, &vec![("inst_bits".to_string(), 0x13)]);
    assert_eq!(buffers_at(&t, Some("rob"), 5)[0].occupied, 0);
    assert_eq!(buffers_at(&t, None, 2).len(), 2);
    assert_eq!(buffers_at(&t, Some("lsq"), 2).len(), 0);
    assert_eq!(t.buffer_state_at(7, 2).capacity, 0);
    assert!(!has_pointers(&b[0].state.properties));
    assert!(pointer_pairs(&b[0].state.properties).is_empty());
}

#[test]
fn names_are_found_by_their_parts() {
    let t = sample_trace();
    assert_eq!(find_counters_by_name(&t, None), vec![0, 1]);
    assert_eq!(find_counters_by_name(&t, Some("miss")), vec![1]);
    assert_eq!(find_counters_by_name(&t, Some("m")), vec![0, 1]);
    assert!(find_counters_by_name(&t, Some("cycles")).is_empty());
    assert_eq!(find_buffers_by_name(&t, Some("q")), vec![1]);
}

#[test]
fn timelines_have_named_stages_and_durations() {
    let t = sample_trace();
    let tl = entity_timeline(&t, 0).unwrap();
    assert_eq!(tl.len(), 1);
    assert_eq!(tl[0].entity_id, 0);
    assert_eq!(tl[0].total_latency, 5);
    let names: Vec<&str> = tl[0].stages.iter().map(|s| s.name.as_str()).collect();
    assert_eq!(names, vec!["fetch", "decode", "execute"]);
    let durations: Vec<u32> = tl[0].stages.iter().map(|s| s.duration).collect();
    assert_eq!(durations, vec![1, 1, 3]);
    assert_eq!(entity_timeline(&t, 77).unwrap_err(), TraceError::EntityNotFound);
    assert_eq!(stage_name(&["a".to_string()], 0), "a");
    assert_eq!(stage_name(&["a".to_string()], 12), "stage_12");
}

#[test]
fn values_of_a_counter_over_a_range() {
    let t = sample_trace();
    let cycles = cycles_between(4, 6);
    assert_eq!(cycles, vec![4, 5, 6]);
    assert_eq!(counter_values(&t, 0, &cycles), vec![(4, 0), (5, 1), (6, 2)]);
    assert!(cycles_between(6, 4).is_empty());
    assert_eq!(cycles_between(u32::MAX, u32::MAX), vec![u32::MAX]);
}

#[test]
fn samples_reach_from_start_to_end() {
    assert_eq!(sample_cycles(3, 6), vec![3, 4, 5, 6]);
    let s = sample_cycles(0, 2500);
    assert_eq!(s[0], 0);
    assert_eq!(s[1], 2);
    assert_eq!(s.len(), 1251);
    assert_eq!(*s.last().unwrap(), 2500);
    let s = sample_cycles(0, 3500);
    assert_eq!(s[1], 3);
    assert_eq!(s[s.len() - 2], 3498);
    assert_eq!(*s.last().unwrap(), 3500);
    assert_eq!(sample_cycles(9, 4), vec![4]);
    let s = sample_cycles(u32::MAX - 2, u32::MAX);
    assert_eq!(s, vec![u32::MAX - 2, u32::MAX - 1, u32::MAX]);
}

#[test]
fn shown_rows_have_the_last_row() {
    assert!(shown_rows(0).is_empty());
    assert_eq!(shown_rows(3), vec![0, 1, 2]);
    assert_eq!(shown_rows(200).len(), 200);
    let r = shown_rows(603);
    assert_eq!(r[1], 3);
    assert_eq!(*r.last().unwrap(), 602);
    assert_eq!(r[r.len() - 2], 600);
}

#[test]
fn performance_of_a_range() {
    let t = sample_trace();
    let p = analyze_performance(&t, 0, 6).unwrap();
    assert_eq!(p.range_cycles, 6);
    assert_eq!(p.instructions.total, 3);
    assert_eq!(p.instructions.retired, 2);
    assert_eq!(p.instructions.flushed, 1);
    assert_eq!(p.instructions.in_flight, 0);
    assert_eq!(p.counters[0].name, "committed_insns");
    assert_eq!(p.counters[0].start_value, 0);
    assert_eq!(p.counters[0].end_value, 2);
    assert_eq!(p.counters[0].delta, 2);
    assert_eq!(p.buffers[0].name, "rob");
    let samples: Vec<(u32, usize, u16)> =
        p.buffers[0].samples.iter().map(|s| (s.cycle, s.occupied, s.capacity)).collect();
    assert_eq!(samples, vec![(0, 1, 4), (3, 1, 4), (6, 0, 4)]);
    // fetch: 1 + 4 + 3 cycles of 3, decode: 1 + 1 of 2, execute: 3 of 1.
    let stages: Vec<(&str, u64, u64)> = p
        .stages
        .iter()
        .map(|s| (s.name.as_str(), s.total.total_cycles, s.total.count))
        .collect();
    assert_eq!(stages, vec![("execute", 3, 1), ("fetch", 8, 3), ("decode", 2, 2)]);
    assert_eq!(analyze_performance(&t, 6, 6).unwrap_err(), TraceError::EmptyRange);
    assert_eq!(analyze_performance(&t, 7, 6).unwrap_err(), TraceError::EmptyRange);
}

#[test]
fn counts_and_latencies_alone() {
    let t = sample_trace();
    let r = t.load_segments(&[0]).unwrap();
    let c = count_instructions(&r, 2, 7);
    assert_eq!((c.total, c.retired, c.flushed, c.in_flight), (2, 0, 1, 1));
    assert_eq!(c.total, c.retired + c.flushed + c.in_flight);
    let span = |stage: u16, start: u32, end: u32| StageSpan {
        stage_name_idx: stage,
        lane: 0,
        _pad: 0,
        start_cycle: start,
        end_cycle: end,
    };
    let l = stage_latencies(&vec![span(0, 0, 1), span(1, 1, 5), span(0, 5, 8), span(2, 9, 2)]);
    let got: Vec<(u16, u64, u64)> = l.iter().map(|t| (t.stage, t.total_cycles, t.count)).collect();
    assert_eq!(got, vec![(1, 4, 1), (0, 4, 2), (2, 0, 1)]);
    assert!(stage_latencies(&vec![]).is_empty());
}

#[test]
fn schema_tables_of_a_trace() {
    let t = sample_trace();
    let s = list_storages(t.schema());
    assert_eq!(s.len(), 5);
    assert_eq!(s[0].name, "entities");
    assert_eq!(s[0].flags, vec!["sparse"]);
    assert_eq!(s[0].fields[1].name, "pc");
    assert_eq!(s[0].fields[1].field_type, "u64");
    assert_eq!(s[1].flags, vec!["sparse", "buffer"]);
    assert_eq!(s[1].num_slots, 4);
    assert!(s[3].flags.is_empty());
    let e = list_events(t.schema());
    assert_eq!(e.len(), 5);
    assert_eq!(e[3].name, "flush");
    assert_eq!(e[3].event_type_id, 3);
    assert_eq!(e[3].fields[1].field_type, "enum");
    let n = list_enums(t.schema());
    assert_eq!(n[0].name, "pipeline_stage");
    assert_eq!(n[0].values[2], (2, "execute".to_string()));
}

#[test]
fn segments_that_overlap_a_range() {
    let t = sample_trace();
    assert_eq!(t.segment_index().segments.to_vec(), vec![(0, 6)]);
    assert_eq!(t.segment_index().segments_in_range(0, 1), vec![0]);
    assert!(t.segment_index().segments_in_range(6, 9).is_empty());
}

#[test]
fn commands_show_a_trace_or_say_why_not() {
    let t = sample_trace();
    let info = cmd_info(&t);
    assert_eq!(info.version, t.file_info().version);
    assert_eq!(info.flags, t.reader().header().flags);
    assert_eq!(info.counters.len(), t.counter_names().len());
    assert_eq!(info.buffer_names, vec!["rob", "iq"]);
    assert_eq!(info.storages.len(), list_storages(t.schema()).len());
    assert_eq!(cmd_state(&t, 2).len(), 2);
    assert_eq!(cmd_buffers(&t, Some("ro"), 2).unwrap().len(), 1);
    assert_eq!(cmd_buffers(&t, Some("x"), 2).err().unwrap(), "no buffers matching 'x'");
    assert_eq!(
        cmd_timeline(&t, 99).err().unwrap(),
        "entity 99 not found in trace"
    );
    assert_eq!(cmd_timeline(&t, 0).unwrap().len(), 1);
    assert_eq!(cmd_counters(&t, None, Some("zz")).err().unwrap(), "no counters matching 'zz'");
    assert_eq!(
        cmd_counters(&t, Some("1-2"), None).err().unwrap(),
        "invalid range format '1-2', expected START:END"
    );
    let last = cmd_counters(&t, None, None).unwrap();
    assert_eq!(last[0].values, vec![(t.max_cycle(), t.counter_value_at(0, t.max_cycle()))]);
    let some = cmd_counters(&t, Some("0:2"), None).unwrap();
    assert_eq!(some[0].values.len(), 3);
    assert_eq!(some[0].values[2], (2, t.counter_value_at(0, 2)));
}

#[test]
fn tools_take_their_parameters_or_say_what_is_missing() {
    let t = sample_trace();
    assert_eq!(
        tool_state_at_cycle(&t, None).err().unwrap(),
        "missing or invalid 'cycle' parameter"
    );
    let (cycle, buffers) = tool_state_at_cycle(&t, Some(0x1_0000_0002)).unwrap();
    assert_eq!((cycle, buffers.len()), (2, 2));
    assert_eq!(
        tool_entity_timeline(&t, None).err().unwrap(),
        "missing or invalid 'entity_id' parameter"
    );
    assert_eq!(
        tool_entity_timeline(&t, Some(77)).err().unwrap(),
        "entity 77 not found in trace"
    );
    assert_eq!(tool_entity_timeline(&t, Some(0)).unwrap().1.len(), 1);
    let missing = |c, s, e| tool_counter_values(&t, c, s, e).err().unwrap();
    assert_eq!(missing(None, None, None), "missing or invalid 'counter' parameter");
    assert_eq!(missing(Some("a"), None, None), "missing or invalid 'start_cycle' parameter");
    assert_eq!(missing(Some("a"), Some(1), None), "missing or invalid 'end_cycle' parameter");
    assert_eq!(missing(Some("zz"), Some(1), Some(2)), "no counters matching 'zz'");
    let name = t.counter_names()[0].1.clone();
    let r = tool_counter_values(&t, Some(name.as_str()), Some(1), Some(3)).unwrap();
    assert_eq!((r.start_cycle, r.end_cycle, r.range), (1, 3, 2));
    assert_eq!(r.counters[0].growth.end_value, t.counter_value_at(0, 3));
    assert_eq!(r.counters[0].values.len(), 3);
    assert_eq!(
        tool_buffer_occupancy(&t, None, None).err().unwrap(),
        "missing or invalid 'buffer' parameter"
    );
    assert_eq!(
        tool_buffer_occupancy(&t, Some("rob"), None).err().unwrap(),
        "missing or invalid 'cycle' parameter"
    );
    assert!(tool_buffer_occupancy(&t, Some("zz"), Some(1)).unwrap().is_none());
    let (at, reports) = tool_buffer_occupancy(&t, Some("rob"), Some(2)).unwrap().unwrap();
    assert_eq!((at, reports.len()), (2, 1));
    assert_eq!(reports[0].buffer.name, "rob");
    assert_eq!(
        tool_analyze_performance(&t, None, Some(1)).err().unwrap(),
        "missing or invalid 'start_cycle' parameter"
    );
    assert_eq!(
        tool_analyze_performance(&t, Some(3), Some(3)).err().unwrap(),
        "start_cycle must be less than end_cycle"
    );
    let (start, end, p) = tool_analyze_performance(&t, Some(0), Some(3)).unwrap();
    assert_eq!((start, end, p.range_cycles), (0, 3, 3));
}
