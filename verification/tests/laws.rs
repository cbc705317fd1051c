use uscope::bytes::ByteReader;
use uscope::compress::decompress;
use uscope::cpu::types::SegmentIndex;
use uscope::embed::{embed_counter_summary, embed_trace_summary, read_summary_header, write_summary_header};
use uscope::protocols::cpu::{CpuSchemaBuilder, CpuWriter};
use uscope::reader::Reader;
use uscope::schema::{DutDescBuilder, FieldSpec, SchemaBuilder};
use uscope::segment::find_segment_for_time;
use uscope::string_pool::{all_fit, StringPoolBuilder, StringPoolReader};
use uscope::summarize::{compute_counter_summary, compute_trace_summary};
use uscope::summary::{
    deserialize_trace_summary, serialize_trace_summary, CounterMipmap, MipmapEntry, TraceSummary,
};
use uscope::types::{LevelDesc, SummaryHeader, SF_SPARSE};
use uscope::writer::Writer;

/// One operation and one event in each of `n` cycles, with a checkpoint every
/// ten cycles.
fn long_writer(n: u64) -> Writer {
    let mut sb = SchemaBuilder::new();
    sb.clock_domain("clk", 100);
    sb.scope("root", None, None, None);
    sb.storage("regs", 0, 8, SF_SPARSE, &[("v", FieldSpec::U32), ("w", FieldSpec::U64)]);
    sb.storage("sum", 0, 1, 0, &[("n", FieldSpec::U64)]);
    sb.event("tick", 0, &[("k", FieldSpec::U8)]);
    let mut d = DutDescBuilder::new();
    d.property("dut_name", "x");
    let dut = d.build(sb.strings_mut());
    let schema = sb.build();
    let mut w = Writer::create(&dut, &schema, 1000).unwrap();
    for c in 0..n {
        w.begin_cycle(c * 100);
        w.slot_set(0, (c % 8) as u16, 0, c);
        w.event(0, &[(c % 256) as u8]);
        w.slot_add(1, 0, 0, c);
        w.end_cycle().unwrap();
    }
    w
}

#[test]
fn states_are_those_that_everything_before_leads_to() {
    let r = Reader::open(long_writer(57).close().unwrap()).unwrap();
    assert!(r.segment_count() > 3);
    for t in [0u64, 99, 100, 999, 1000, 1001, 2350, 5600, 99_999] {
        let s = r.state_at(t).unwrap();
        let last = std::cmp::min(t / 100, 56);
        let sum: u64 = (0..=last).sum();
        assert_eq!(s.slot_field(1, 0, 0, &r.field_offsets()[1]), sum, "time {}", t);
        for slot in 0..8u64 {
            let written = (0..=last).filter(|c| c % 8 == slot).last();
            assert_eq!(s.slot_valid(0, slot as u16), written.is_some());
            if let Some(c) = written {
                assert_eq!(s.slot_field(0, slot as u16, 0, &r.field_offsets()[0]), c);
            }
        }
    }
}

#[test]
fn events_of_a_range_come_once_and_in_order() {
    let r = Reader::open(long_writer(57).close().unwrap()).unwrap();
    let all = r.events_in_range(0, 100_000).unwrap();
    assert_eq!(all.len(), 57);
    for (i, e) in all.iter().enumerate() {
        assert_eq!(e.time_ps, i as u64 * 100);
        assert_eq!(e.payload, vec![i as u8]);
    }
    let some = r.events_in_range(950, 2000).unwrap();
    let times: Vec<u64> = some.iter().map(|e| e.time_ps).collect();
    assert_eq!(times, (10..=20).map(|c| c * 100).collect::<Vec<u64>>());
    assert!(r.events_in_range(301, 399).unwrap().is_empty());
    assert!(r.events_in_range(500, 400).unwrap().is_empty());
}

#[test]
fn ranges_from_before_the_first_segment_have_all_events() {
    // The first segment starts at 50, and with it everything in it.
    let mut image = long_writer(25).close().unwrap();
    let r = Reader::open(image.clone()).unwrap();
    let at = r.header().preamble_end as usize;
    let mut entry = (at as u64).to_le_bytes().to_vec();
    entry.extend([0u8; 8]);
    let in_table = image.windows(16).position(|w| w == entry.as_slice()).unwrap();
    image[at + 8] = 50;
    image[in_table + 8] = 50;
    let r = Reader::open(image).unwrap();
    assert!(r.segment_count() > 1);
    assert_eq!(r.events_in_range(10, 100_000).unwrap().len(), 25);
    assert_eq!(r.events_in_range(0, 160).unwrap().len(), 2);
    assert!(r.events_in_range(0, 40).unwrap().is_empty());
}

#[test]
fn a_trace_that_grows_is_followed() {
    let early = long_writer(25).image();
    let late = long_writer(47).image();
    let mut r = Reader::open(early).unwrap();
    let before = r.segment_count();
    assert!(before > 0);
    assert_eq!(r.poll_new_segments(late.clone()).unwrap(), true);
    let fresh = Reader::open(late.clone()).unwrap();
    assert!(fresh.segment_count() > before);
    assert_eq!(format!("{:?}", r.segments()), format!("{:?}", fresh.segments()));
    assert_eq!(r.poll_new_segments(late).unwrap(), false);
}

#[test]
fn unfinished_traces_are_read_by_their_chain() {
    let w = long_writer(57);
    let open = Reader::open(w.image()).unwrap();
    let done = Reader::open(long_writer(57).close().unwrap()).unwrap();
    assert!(open.segment_count() >= 1);
    let n = open.segment_count();
    for i in 0..n {
        assert_eq!(open.segments()[i].time_start_ps, done.segments()[i].time_start_ps);
        assert_eq!(open.segments()[i].offset, done.segments()[i].offset);
    }
}

#[test]
fn compressed_blobs_come_back() {
    for raw in [vec![], vec![7u8; 1], vec![0xFF; 5000], (0..2000u32).map(|i| (i * i) as u8).collect()] {
        let blob = lz4_flex::compress_prepend_size(&raw);
        assert_eq!(decompress(&blob).unwrap(), raw);
    }
}

#[test]
fn pools_hold_each_string_once() {
    let mut p = StringPoolBuilder::new();
    let offsets: Vec<u16> = ["a", "bc", "", "a", "bc"].iter().map(|s| p.insert(s)).collect();
    assert_eq!(offsets, vec![0, 2, 5, 0, 2]);
    assert_eq!(p.len(), 6);
    assert!(p.has_room("x"));
    assert!(!p.has_room(&"x".repeat(70_000)));
    let r = StringPoolReader::new(p.data());
    assert_eq!(r.get(2), Some("bc"));
    assert_eq!(r.get(6), None);
    assert!(all_fit(&vec!["a".to_string(), "a".to_string()]));
    assert!(!all_fit(&vec!["a".repeat(40_000), "b".repeat(40_000)]));
    let bad = [0xFFu8, 0];
    assert_eq!(StringPoolReader::new(&bad).get(0), None);
}

#[test]
fn segments_are_found_by_their_start() {
    let r = Reader::open(long_writer(57).close().unwrap()).unwrap();
    for (i, s) in r.segments().iter().enumerate() {
        assert_eq!(find_segment_for_time(r.segments(), s.time_start_ps), Some(i));
    }
    let index = SegmentIndex { segments: vec![(0, 10), (10, 20), (20, 30)] };
    assert_eq!(index.segments_in_range(5, 15), vec![0, 1]);
    assert_eq!(index.segments_in_range(10, 10), Vec::<usize>::new());
    assert_eq!(index.segments_in_range(0, 30), vec![0, 1, 2]);
}

fn counted_image(cycles: u64) -> Vec<u8> {
    let (dut_builder, mut sb, ids) = CpuSchemaBuilder::new("core0")
        .pipeline_stages(&["Fe", "De"])
        .entity_slots(64)
        .counter("ops")
        .build();
    let dut = dut_builder.build(sb.strings_mut());
    let schema = sb.build();
    let mut w = Writer::create(&dut, &schema, 1_000_000).unwrap();
    let cpu = CpuWriter::new(ids);
    for c in 0..cycles {
        w.begin_cycle(c * 1000);
        cpu.counter_add(&mut w, "ops", c % 5);
        if c % 100 == 0 {
            cpu.fetch(&mut w, c as u32, 0x1000, 0x13);
        }
        w.end_cycle().unwrap();
    }
    w.close().unwrap()
}

#[test]
fn every_level_of_a_summary_adds_up_to_the_same() {
    let r = Reader::open(counted_image(9000)).unwrap();
    let s = compute_trace_summary(&r, 1000).unwrap();
    assert!(s.is_readable());
    let whole: u64 = (0..9000u64).map(|c| c % 5).sum();
    for level in &s.counters[0].levels {
        assert_eq!(level.iter().map(|e| e.sum).sum::<u64>(), whole);
        for e in level {
            assert!(e.min_delta <= e.max_delta);
            assert_eq!((e.min_delta, e.max_delta), (0, 4));
        }
    }
    assert_eq!(s.counters[0].levels.last().unwrap().len(), 1);
    assert_eq!(s.total_instructions, 90);
    for level in &s.instruction_density {
        assert_eq!(level.iter().map(|n| *n as u64).sum::<u64>(), 90);
    }
    assert_eq!(s.counter_value_at(0, 0), 0);
    assert_eq!(s.counter_value_at(0, 1_000_000), whole);
    assert_eq!(s.counter_value_at(3, 10), 0);
    let c = compute_counter_summary(&r, 1000).unwrap();
    assert_eq!(serialize_trace_summary(&c), serialize_trace_summary(&s));
}

#[test]
fn embedding_keeps_the_trace_and_is_idempotent() {
    let image = counted_image(3000);
    let once = embed_trace_summary(image.clone(), 1000).unwrap();
    assert_ne!(image, once);
    assert_eq!(embed_trace_summary(once.clone(), 1000).unwrap(), once);
    assert_eq!(embed_counter_summary(image.clone(), 1000).unwrap(), once);
    let a = Reader::open(image).unwrap();
    let b = Reader::open(once).unwrap();
    assert_eq!(format!("{:?}", a.segments()), format!("{:?}", b.segments()));
    assert_eq!(a.dut_properties(), b.dut_properties());
    let want = serialize_trace_summary(&compute_trace_summary(&a, 1000).unwrap());
    assert_eq!(serialize_trace_summary(b.trace_summary().unwrap()), want);
}

#[test]
fn rows_and_cycles_of_a_density() {
    let s = TraceSummary {
        base_interval_cycles: 10,
        fan_out: 4,
        total_instructions: 6,
        instruction_density: vec![vec![4, 0, 2], vec![6]],
        counters: vec![],
    };
    assert_eq!(s.row_to_cycle(0), 0);
    assert_eq!(s.row_to_cycle(3), 0);
    assert_eq!(s.row_to_cycle(4), 20);
    assert_eq!(s.row_to_cycle(6), 30);
    assert_eq!(s.cycle_to_row(0), 0);
    assert_eq!(s.cycle_to_row(5), 2);
    assert_eq!(s.cycle_to_row(10), 4);
    assert_eq!(s.cycle_to_row(25), 5);
    assert_eq!(s.cycle_to_row(1000), 6);
}

#[test]
fn summary_headers_come_back() {
    let levels = vec![
        LevelDesc { offset: 5, num_entries: 6, reserved: 0 },
        LevelDesc { offset: 7, num_entries: 8, reserved: 0 },
    ];
    let mut b = Vec::new();
    let mut empty = Vec::new();
    empty.resize(SummaryHeader::SIZE, 0u8);
    let mut h = uscope::wire::Wire::read_from(&mut ByteReader::new(&empty)).unwrap();
    let h: &mut SummaryHeader = &mut h;
    h.num_levels = 2;
    write_summary_header(&mut b, h, &levels);
    let (g, l) = read_summary_header(&mut ByteReader::new(&b)).unwrap();
    assert_eq!(g.num_levels, 2);
    assert_eq!(l.len(), 2);
    assert_eq!(l[1].offset, 7);
    assert_eq!(l[1].num_entries, 8);
}

#[test]
fn empty_entries_are_all_zero() {
    let e = MipmapEntry::default();
    assert_eq!((e.min_delta, e.max_delta, e.sum), (0, 0, 0));
}

#[test]
fn unreadable_summaries_are_told() {
    let entry = |sum| MipmapEntry { min_delta: 0, max_delta: 0, sum };
    let with = |base, fan, levels| TraceSummary {
        base_interval_cycles: base,
        fan_out: fan,
        total_instructions: 0,
        instruction_density: vec![],
        counters: vec![CounterMipmap { name: "n".to_string(), storage_id: 0, levels }],
    };
    assert!(!with(0, 4, vec![vec![entry(1)]]).is_readable());
    assert!(!with(1, 4, vec![vec![entry(u64::MAX), entry(1)]]).is_readable());
    // A lookup needs neither a fan-out nor levels.
    let s = with(2, 0, vec![vec![entry(6), entry(8)]]);
    assert!(s.is_readable());
    assert_eq!(s.counter_value_at(0, 1), 3);
    assert_eq!(s.counter_value_at(0, 3), 10);
    assert_eq!(s.counter_value_at(0, 9), 14);
    let none = with(0, 0, vec![]);
    assert!(none.is_readable());
    assert_eq!(none.counter_value_at(0, 5), 0);
    let d = deserialize_trace_summary(&serialize_trace_summary(&none)).unwrap();
    assert_eq!(d.base_interval_cycles, 0);
}

#[test]
fn strings_that_are_not_utf8_are_mended() {
    // The text of the only string of a finished trace, made invalid.
    let (dut_builder, mut sb, ids) = CpuSchemaBuilder::new("core0")
        .pipeline_stages(&["Fe"])
        .entity_slots(16)
        .build();
    let dut = dut_builder.build(sb.strings_mut());
    let schema = sb.build();
    let mut w = Writer::create(&dut, &schema, 1000).unwrap();
    let cpu = CpuWriter::new(ids);
    w.begin_cycle(0);
    cpu.annotate(&mut w, 0, "zebra#zebra");
    w.end_cycle().unwrap();
    let mut image = w.close().unwrap();
    let r = Reader::open(image.clone()).unwrap();
    assert_eq!(r.string_table().unwrap().get(0), Some("zebra#zebra"));
    assert_eq!(r.string_table().unwrap().get(1), None);
    let at = image.windows(11).rposition(|w| w == b"zebra#zebra").unwrap();
    image[at + 5] = 0xFF;
    let r = Reader::open(image).unwrap();
    assert_eq!(r.string_table().unwrap().get(0), Some("zebra\u{FFFD}zebra"));
}
