use uscope::cpu::trace::CpuTrace;
use uscope::cpu::types::RetireStatus;
use uscope::generate::{counter_labels, group_steps, stage_labels, Fate, Step};
use uscope::protocols::cpu::{CpuSchemaBuilder, CpuWriter};
use uscope::writer::Writer;

fn fates() -> Vec<Fate> {
    vec![
        Fate { flushed: false, stage_cycles: vec![1, 2], producer: None },
        Fate { flushed: true, stage_cycles: vec![], producer: Some(0) },
    ]
}

#[test]
fn names_of_stages_and_counters() {
    let stages = stage_labels(12);
    assert_eq!(stages[0], "Fe");
    assert_eq!(stages[9], "Cm");
    assert_eq!(stages[10], "S10");
    assert_eq!(stages[11], "S11");
    assert!(stage_labels(0).is_empty());
    let counters = counter_labels(22);
    assert_eq!(counters[0], "committed_insns");
    assert_eq!(counters[19], "fp_ops");
    assert_eq!(counters[20], "counter_20");
    assert_eq!(counters[21], "counter_21");
}

#[test]
fn steps_of_a_group() {
    let (steps, last) = group_steps(&vec![0, 7], &fates(), 4, 8, 10);
    assert_eq!(
        steps,
        vec![
            Step::Begin { cycle: 11 },
            Step::Count { counter: 1, delta: 7 },
            Step::Fetch { entity: 4, pc: 0x8000_0020, inst_bits: 0x13 },
            Step::Stage { entity: 4, stage: 0 },
            Step::Fetch { entity: 5, pc: 0x8000_0024, inst_bits: 0x13 },
            Step::Stage { entity: 5, stage: 0 },
            Step::End,
            Step::Begin { cycle: 12 },
            Step::Stage { entity: 4, stage: 1 },
            Step::End,
            Step::Begin { cycle: 13 },
            Step::Stage { entity: 4, stage: 2 },
            Step::End,
            Step::Begin { cycle: 14 },
            Step::End,
            Step::Begin { cycle: 15 },
            Step::Retire { entity: 4 },
            Step::End,
            Step::Begin { cycle: 16 },
            Step::Flush { entity: 5 },
            Step::Depend { producer: 0, consumer: 5 },
            Step::End,
        ]
    );
    assert_eq!(last, 16);
}

#[test]
fn entities_are_numbered_modulo_two_to_the_32() {
    let (steps, _) = group_steps(&vec![], &fates(), u32::MAX, 0, 0);
    assert!(steps.contains(&Step::Retire { entity: u32::MAX }));
    assert!(steps.contains(&Step::Flush { entity: 0 }));
}

#[test]
fn cycles_of_a_group_follow_each_other() {
    let (steps, last) = group_steps(&vec![1], &fates(), 0, 0, 5);
    let mut at = 5;
    let mut inside = false;
    for s in steps {
        match s {
            Step::Begin { cycle } => {
                assert!(!inside && cycle > at);
                at = cycle;
                inside = true;
            }
            Step::End => {
                assert!(inside);
                inside = false;
            }
            _ => assert!(inside),
        }
    }
    assert!(!inside);
    assert_eq!(at, last);
}

#[test]
fn a_group_can_be_recorded() {
    let (dut_builder, mut sb, ids) = CpuSchemaBuilder::new("cpu0")
        .pipeline_stages(&["Fe", "De", "Ex"])
        .entity_slots(16)
        .counter("n")
        .build();
    let dut = dut_builder.build(sb.strings_mut());
    let schema = sb.build();
    let mut w = Writer::create(&dut, &schema, 1_000_000).unwrap();
    let cpu = CpuWriter::new(ids);
    let (steps, _) = group_steps(&vec![3], &fates(), 0, 0, 0);
    for s in steps {
        match s {
            Step::Begin { cycle } => w.begin_cycle(cycle * 1000),
            Step::Count { delta, .. } => cpu.counter_add(&mut w, "n", delta),
            Step::Fetch { entity, pc, inst_bits } => cpu.fetch(&mut w, entity, pc, inst_bits),
            Step::Stage { entity, stage } => cpu.stage_transition(&mut w, entity, stage),
            Step::Retire { entity } => cpu.retire(&mut w, entity),
            Step::Flush { entity } => cpu.flush(&mut w, entity, 0),
            Step::Depend { producer, consumer } => {
                cpu.dependency(&mut w, producer, consumer, 0)
            }
            Step::End => w.end_cycle().unwrap(),
        }
    }
    let t = CpuTrace::open(w.close().unwrap(), "g.uscope", "0.0").unwrap();
    let r = t.load_segments(&[0]).unwrap();
    assert_eq!(r.instructions.len(), 2);
    assert_eq!(r.instructions[0].retire_status, RetireStatus::Retired);
    assert_eq!(r.instructions[0].first_cycle, 1);
    assert_eq!(r.instructions[0].last_cycle, 5);
    assert_eq!(r.instructions[1].retire_status, RetireStatus::Flushed);
    assert_eq!(t.counter_value_at(0, 6), 3);
}
