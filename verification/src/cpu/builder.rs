//! Reconstructing an instruction from what was recorded of it.

use vstd::prelude::*;
use vstd::string::StringExecFns;
use crate::chars::{
    chars_of, find_word_end, parse_number, parsed, skip_blanks, skip_white, word_end,
};
use crate::cpu::types::{RetireStatus, StageSpan};
use crate::numerals::{hex, to_hex};

verus! {

/// Transient builder for an instruction being reconstructed from segment
/// replay.
#[derive(Debug)]
pub struct InstrBuilder {
    pub entity_id: u32,
    /// The number of the instruction in the order in which they appeared.
    pub reflex_id: u32,
    pub pc: u64,
    pub inst_bits: Option<u32>,
    pub rbid: Option<u32>,
    pub iq_id: Option<u32>,
    pub dq_id: Option<u32>,
    pub ready_time_ps: Option<u64>,
    pub has_disasm_annotation: bool,
    pub disasm: String,
    pub tooltip: String,
    pub stages: Vec<StageSpan>,
    /// (stage_name_idx, start_cycle) for the currently open stage.
    pub current_stage: Option<(u16, u32)>,
    pub first_cycle: u32,
    pub last_cycle: u32,
    pub retire_status: RetireStatus,
}

/// What an `InstrBuilder` holds.
#[verifier::ext_equal]
pub struct InstrView {
    pub entity_id: u32,
    pub reflex_id: u32,
    pub pc: u64,
    pub inst_bits: Option<u32>,
    pub rbid: Option<u32>,
    pub iq_id: Option<u32>,
    pub dq_id: Option<u32>,
    pub ready_time_ps: Option<u64>,
    pub has_disasm_annotation: bool,
    pub disasm: Seq<char>,
    pub tooltip: Seq<char>,
    pub stages: Seq<StageSpan>,
    pub current_stage: Option<(u16, u32)>,
    pub first_cycle: u32,
    pub last_cycle: u32,
    pub retire_status: RetireStatus,
}

impl View for InstrBuilder {
    type V = InstrView;

    open spec fn view(&self) -> InstrView {
        InstrView {
            entity_id: self.entity_id,
            reflex_id: self.reflex_id,
            pc: self.pc,
            inst_bits: self.inst_bits,
            rbid: self.rbid,
            iq_id: self.iq_id,
            dq_id: self.dq_id,
            ready_time_ps: self.ready_time_ps,
            has_disasm_annotation: self.has_disasm_annotation,
            disasm: self.disasm@,
            tooltip: self.tooltip@,
            stages: self.stages@,
            current_stage: self.current_stage,
            first_cycle: self.first_cycle,
            last_cycle: self.last_cycle,
            retire_status: self.retire_status,
        }
    }
}

/// An address as text: "0x" and at least eight hexadecimal digits.
pub open spec fn address_text(n: nat) -> Seq<char> {
    "0x"@ + hex(n, 8)
}

/// An address as text.
pub fn address(n: u64) -> (s: String)
    ensures
        s@ == address_text(n as nat),
{
    let mut s: String = "0x".to_owned();
    s.append(to_hex(n, 8).as_str());
    s
}

impl InstrView {
    /// An instruction that appears at a cycle.
    pub open spec fn fresh(entity_id: u32, reflex_id: u32, pc: u64, cycle: u32) -> InstrView {
        InstrView {
            entity_id,
            reflex_id,
            pc,
            inst_bits: None,
            rbid: None,
            iq_id: None,
            dq_id: None,
            ready_time_ps: None,
            has_disasm_annotation: false,
            disasm: address_text(pc as nat),
            tooltip: Seq::empty(),
            stages: Seq::empty(),
            current_stage: None,
            first_cycle: cycle,
            last_cycle: cycle,
            retire_status: RetireStatus::InFlight,
        }
    }

    /// The instruction after its current stage ended, if it is in one.
    pub open spec fn closed(self, end_cycle: u32) -> InstrView {
        match self.current_stage {
            Some((stage_name_idx, start_cycle)) => InstrView {
                stages: self.stages.push(
                    StageSpan { stage_name_idx, lane: 0, _pad: 0, start_cycle, end_cycle },
                ),
                current_stage: None,
                last_cycle: if end_cycle > self.last_cycle {
                    end_cycle
                } else {
                    self.last_cycle
                },
                ..self
            },
            None => self,
        }
    }

    /// The instruction after it entered a stage.
    pub open spec fn entered(self, stage_name_idx: u16, cycle: u32) -> InstrView {
        InstrView { current_stage: Some((stage_name_idx, cycle)), ..self.closed(cycle) }
    }

    /// Whether each stage starts where the one before ends.
    pub open spec fn stages_meet(self) -> bool {
        &&& forall|i: int|
            0 <= i < self.stages.len() - 1 ==> (#[trigger] self.stages[i]).end_cycle
                == self.stages[i + 1].start_cycle
        &&& self.current_stage matches Some((_, start)) ==> self.stages.len() > 0
            ==> self.stages.last().end_cycle == start
    }
}

/// Entering a stage ends the one before: while only stages are entered, each
/// starts in the cycle in which the one before ends.
pub proof fn law_entered(b: InstrView, stage: u16, cycle: u32)
    requires
        b.stages_meet(),
        b.stages.len() > 0 ==> b.current_stage is Some,
    ensures
        b.entered(stage, cycle).stages_meet(),
        b.entered(stage, cycle).current_stage is Some,
{
    let now = b.entered(stage, cycle);
    assert forall|i: int| 0 <= i < now.stages.len() - 1 implies (
    #[trigger] now.stages[i]).end_cycle == now.stages[i + 1].start_cycle by {
        assert(now.stages[i] == b.stages[i]);
        if i + 1 < b.stages.len() {
            assert(now.stages[i + 1] == b.stages[i + 1]);
        }
    }
}

/// Ending a stage leaves none open, and the last cycle is no smaller.
pub proof fn law_closed(b: InstrView, cycle: u32)
    ensures
        b.closed(cycle).current_stage is None,
        b.closed(cycle).last_cycle >= b.last_cycle,
        b.current_stage is Some ==> b.closed(cycle).last_cycle >= cycle,
        b.closed(cycle).closed(cycle) == b.closed(cycle),
{
}

impl InstrBuilder {
    pub fn new(entity_id: u32, reflex_id: u32, pc: u64, cycle: u32) -> (b: InstrBuilder)
        ensures
            b@ == InstrView::fresh(entity_id, reflex_id, pc, cycle),
    {
        let b = InstrBuilder {
            entity_id,
            reflex_id,
            pc,
            inst_bits: None,
            rbid: None,
            iq_id: None,
            dq_id: None,
            ready_time_ps: None,
            has_disasm_annotation: false,
            disasm: address(pc),
            tooltip: String::new(),
            stages: Vec::new(),
            current_stage: None,
            first_cycle: cycle,
            last_cycle: cycle,
            retire_status: RetireStatus::InFlight,
        };
        assert(b@ =~= InstrView::fresh(entity_id, reflex_id, pc, cycle));
        b
    }

    /// Ends the current stage, if there is one.
    pub fn close_current_stage(&mut self, end_cycle: u32)
        ensures
            final(self)@ == old(self)@.closed(end_cycle),
    {
        match self.current_stage {
            Some((stage_idx, start)) => {
                self.current_stage = None;
                self.stages.push(
                    StageSpan {
                        stage_name_idx: stage_idx,
                        lane: 0,
                        _pad: 0,
                        start_cycle: start,
                        end_cycle,
                    },
                );
                if end_cycle > self.last_cycle {
                    self.last_cycle = end_cycle;
                }
            },
            None => {},
        }
    }

    /// Ends the current stage and enters another.
    pub fn open_stage(&mut self, stage_name_idx: u16, cycle: u32)
        ensures
            final(self)@ == old(self)@.entered(stage_name_idx, cycle),
    {
        self.close_current_stage(cycle);
        self.current_stage = Some((stage_name_idx, cycle));
    }
}

/// The first word of a text.
pub open spec fn first_word(s: Seq<char>) -> Seq<char> {
    let from = skip_white(s, 0);
    s.subrange(from, word_end(s, from))
}

/// A word without a colon at its end and "0x" in front.
pub open spec fn bare_address(word: Seq<char>) -> Seq<char> {
    let word = if word.len() > 0 && word.last() == ':' {
        word.drop_last()
    } else {
        word
    };
    if word.len() >= 2 && word[0] == '0' && word[1] == 'x' {
        word.subrange(2, word.len() as int)
    } else {
        word
    }
}

/// Whether a text starts with the given address, which is not zero: in
/// hexadecimal, with at least four digits.
pub open spec fn names_address(text: Seq<char>, pc: u64) -> bool {
    let digits = bare_address(first_word(text));
    digits.len() >= 4 && pc != 0 && parsed(digits, 16, u64::MAX as nat) == Some(pc as nat)
}

/// Where the digits of the address at the start of a text are.
pub fn find_address(v: &Vec<char>) -> (r: (usize, usize))
    ensures
        r.0 <= r.1 <= v@.len(),
        v@.subrange(r.0 as int, r.1 as int) == bare_address(first_word(v@)),
{
    let mut from: usize = skip_blanks(v, 0);
    let mut to: usize = find_word_end(v, from);
    let ghost word = v@.subrange(from as int, to as int);
    assert(word == first_word(v@));
    if from < to && v[to - 1] == ':' {
        to = to - 1;
    }
    let ghost stem = v@.subrange(from as int, to as int);
    proof {
        if word.len() > 0 && word.last() == ':' {
            assert(stem =~= word.drop_last());
        }
    }
    if to - from >= 2 && v[from] == '0' && v[from + 1] == 'x' {
        from = from + 2;
    }
    proof {
        let d = v@.subrange(from as int, to as int);
        if stem.len() >= 2 && stem[0] == '0' && stem[1] == 'x' {
            assert(d =~= stem.subrange(2, stem.len() as int));
        }
        assert(d == bare_address(word));
    }
    (from, to)
}

/// Detect whether an annotation looks like a disassembly line by checking if
/// it starts with a hex address that matches the entity's known PC.
/// Handles formats like "00001000: jal zero, 0x10" and "0x80000000 addi x1,
/// x0, 1".
pub fn is_disasm_line(text: &str, pc: u64) -> (b: bool)
    ensures
        b == names_address(text@, pc),
{
    let v = chars_of(text);
    let (from, to) = find_address(&v);
    if to - from < 4 {
        return false;
    }
    match parse_number(&v, from, to, 16, u64::MAX) {
        Some(addr) => pc != 0 && addr == pc,
        None => false,
    }
}

} // verus!
