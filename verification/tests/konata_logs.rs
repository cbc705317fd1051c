use flate2::write::GzEncoder;
use flate2::Compression;
use std::io::Write;
use uscope::cpu::trace::CpuTrace;
use uscope::cpu::types::RetireStatus;
use uscope::error::TraceError;
use uscope::konata::{
    extract_pc, open_input, parse_line, parse_lines, read_lines, scan_pass, KonataCmd,
};
use uscope::konata_emit::{convert, emit_pass};
use uscope::reader::Reader;

const LOG: &str = "Kanata\t0004\n\
C=\t0\n\
I\t0\t0\t0\n\
L\t0\t0\t80000000: addi x0, x0, 0\n\
S\t0\t0\tFe\n\
C\t1\n\
E\t0\t0\tFe\n\
S\t0\t0\tDe\n\
I\t1\t1\t0\n\
L\t1\t0\t0x80000004 nop\n\
S\t1\t0\tFe\n\
C\t2\n\
R\t0\t0\t0\n\
R\t1\t1\t1\n\
W\t1\t0\t0\n\
C\t1\n";

fn commands(log: &str) -> Vec<KonataCmd> {
    let lines: Vec<String> = log.lines().map(|l| l.to_string()).collect();
    parse_lines(&lines)
}

#[test]
fn lines_become_commands() {
    assert!(matches!(parse_line("C=\t10"), Some(KonataCmd::CycleAbsolute(10))));
    assert!(matches!(parse_line("C\t3"), Some(KonataCmd::CycleDelta(3))));
    assert!(parse_line("Kanata\t0004").is_none());
    assert!(parse_line("").is_none());
    assert!(parse_line("I\t0").is_none());
    assert!(parse_line("C\tx").is_none());
    assert_eq!(commands(LOG).len(), 15);
}

#[test]
fn addresses_in_labels() {
    assert_eq!(extract_pc("80000000: addi x0"), 0x8000_0000);
    assert_eq!(extract_pc("0x80000004 nop"), 0x8000_0004);
    assert_eq!(extract_pc("  001f  ret"), 0x1f);
    assert_eq!(extract_pc("1f ret"), 0);
    assert_eq!(extract_pc("loop: nop"), 0);
    assert_eq!(extract_pc(""), 0);
}

#[test]
fn scanning_finds_stages_and_instructions_in_flight() {
    let scan = scan_pass(&commands(LOG)).unwrap();
    assert_eq!(scan.stage_names, vec!["Fe", "De"]);
    assert_eq!(scan.max_in_flight, 2);
}

#[test]
fn a_converted_log_is_a_cpu_trace() {
    let image = convert(&commands(LOG), 500, "core0").unwrap();
    let t = CpuTrace::open(image, "log.uscope", "0.0").unwrap();
    assert_eq!(t.period_ps(), 500);
    assert_eq!(t.stage_names().to_vec(), vec!["Fe", "De"]);
    assert_eq!(t.counter_names()[0].1, "committed_insns");
    let r = t.load_segments(&[0]).unwrap();
    assert_eq!(r.instructions.len(), 2);
    assert_eq!(r.instructions[0].retire_status, RetireStatus::Retired);
    assert_eq!(r.instructions[0].disasm, "80000000: addi x0, x0, 0");
    assert_eq!(r.instructions[1].retire_status, RetireStatus::Flushed);
    assert_eq!(r.instructions[1].first_cycle, 1);
    let own = &r.stages[r.instructions[0].stage_range.start as usize
        ..r.instructions[0].stage_range.end as usize];
    let spans: Vec<(u16, u32, u32)> =
        own.iter().map(|s| (s.stage_name_idx, s.start_cycle, s.end_cycle)).collect();
    assert_eq!(spans, vec![(0, 0, 1), (1, 1, 3)]);
    assert_eq!(t.counter_value_at(0, 3), 1);
    assert_eq!(r.dependencies.len(), 1);
}

#[test]
fn the_slots_of_a_log_are_a_power_of_two() {
    let image = convert(&commands(LOG), 1000, "core0").unwrap();
    let r = Reader::open(image).unwrap();
    assert_eq!(r.schema().storages[0].num_slots, 2);
    assert_eq!(r.dut_property("dut_name"), Some("core0"));
}

#[test]
fn a_log_with_one_instruction_in_flight_has_one_slot() {
    let log = "I\t0\t0\t0\nS\t0\t0\tFetch\nC\t1\nR\t0\t0\t0\n";
    let image = convert(&commands(log), 200, "core0").unwrap();
    let r = Reader::open(image).unwrap();
    assert_eq!(r.schema().storages[0].num_slots, 1);
    assert_eq!(r.schema().clock_domains[0].period_ps, 200);
    assert!(!r.events_in_range(0, 200).unwrap().is_empty());
}

#[test]
fn gzip_logs_are_unpacked_by_their_names() {
    let mut e = GzEncoder::new(Vec::new(), Compression::default());
    e.write_all(LOG.as_bytes()).unwrap();
    let packed = e.finish().unwrap();
    assert_ne!(packed, LOG.as_bytes().to_vec());
    assert_eq!(open_input("a/log.gz", packed.clone()).unwrap(), LOG.as_bytes().to_vec());
    assert_eq!(open_input("a/log.txt", packed.clone()).unwrap(), packed);
    assert_eq!(open_input("log.gz", vec![1, 2, 3]).unwrap_err(), TraceError::Gunzip);
}

#[test]
fn lines_of_a_log() {
    assert_eq!(read_lines(b"a\r\nb\n\nc").unwrap(), vec!["a", "b", "", "c"]);
    assert!(read_lines(b"").unwrap().is_empty());
    assert_eq!(read_lines(&[0x61, 0xFF, 0x0A]).unwrap_err(), TraceError::InvalidUtf8);
}

#[test]
fn logs_that_cannot_be_converted() {
    assert_eq!(
        convert(&commands("C=\t5\nI\t0\t0\t0\nC=\t2\nI\t1\t1\t0\n"), 1000, "c").unwrap_err(),
        TraceError::TimeBackwards
    );
    assert_eq!(
        convert(&commands(LOG), 0x1_0000_0000, "c").unwrap_err(),
        TraceError::PeriodTooLarge
    );
    let long = "x".repeat(70_000);
    assert_eq!(convert(&commands(LOG), 1000, &long).unwrap_err(), TraceError::StringPoolFull);
}

#[test]
fn emitting_with_a_known_scan() {
    let cmds = commands(LOG);
    let scan = scan_pass(&cmds).unwrap();
    assert_eq!(
        emit_pass(&cmds, &scan, 1000, "core0").unwrap(),
        convert(&cmds, 1000, "core0").unwrap()
    );
}
