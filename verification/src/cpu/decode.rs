//! Mnemonics of instructions. Which mnemonic an instruction word has is for a
//! decoder to say; here is what becomes of its answer.

use vstd::prelude::*;
use vstd::string::StringExecFns;
use crate::cpu::builder::{address, address_text};

verus! {

/// No decoder is bundled.
pub fn build_rv64gc_decoder() -> (d: Option<()>)
    ensures
        d is None,
{
    None
}

/// How many bits an instruction has: compressed instructions have two lowest
/// bits other than 0b11.
pub open spec fn width_of(inst_bits: u32) -> u32 {
    if inst_bits & 0x3 != 0x3 {
        16
    } else {
        32
    }
}

/// How many bits an instruction has.
pub fn instruction_width(inst_bits: u32) -> (w: u32)
    ensures
        w == width_of(inst_bits),
{
    if inst_bits & 0x3 != 0x3 {
        16
    } else {
        32
    }
}

/// The mnemonics that a decoder gave for some instruction words: that of the
/// first entry from `i` on for the word, or the word itself in hexadecimal.
pub open spec fn mnemonic_from(
    mnemonics: Seq<(u32, Seq<char>)>,
    inst_bits: u32,
    i: int,
) -> Seq<char>
    decreases mnemonics.len() - i,
{
    if i >= mnemonics.len() {
        address_text(inst_bits as nat)
    } else if mnemonics[i].0 == inst_bits {
        mnemonics[i].1
    } else {
        mnemonic_from(mnemonics, inst_bits, i + 1)
    }
}

/// The texts of some mnemonics.
pub open spec fn mnemonic_texts(mnemonics: Seq<(u32, String)>) -> Seq<(u32, Seq<char>)> {
    mnemonics.map_values(|m: (u32, String)| (m.0, m.1@))
}

/// Returns the mnemonic of an instruction word or its hex fallback.
pub fn decode_instruction(mnemonics: &Vec<(u32, String)>, inst_bits: u32) -> (s: String)
    ensures
        s@ == mnemonic_from(mnemonic_texts(mnemonics@), inst_bits, 0),
{
    let ghost all = mnemonic_texts(mnemonics@);
    let mut i: usize = 0;
    while i < mnemonics.len()
        invariant
            i <= mnemonics@.len(),
            all == mnemonic_texts(mnemonics@),
            mnemonic_from(all, inst_bits, 0) == mnemonic_from(all, inst_bits, i as int),
        decreases mnemonics@.len() - i,
    {
        if mnemonics[i].0 == inst_bits {
            return mnemonics[i].1.clone();
        }
        i = i + 1;
    }
    address(inst_bits as u64)
}

/// A line of disassembly: the address, unless it is zero, and the mnemonic.
pub open spec fn disasm_line(pc: u64, mnemonic: Seq<char>) -> Seq<char> {
    if pc != 0 {
        address_text(pc as nat) + " "@ + mnemonic
    } else {
        mnemonic
    }
}

/// Makes a line of disassembly.
pub fn make_disasm_line(pc: u64, mnemonic: String) -> (s: String)
    ensures
        s@ == disasm_line(pc, mnemonic@),
{
    if pc != 0 {
        let mut s = address(pc);
        s.append(" ");
        s.append(mnemonic.as_str());
        s
    } else {
        mnemonic
    }
}

/// An instruction is wide just where its two lowest bits are both set.
pub proof fn law_width(inst_bits: u32)
    ensures
        width_of(inst_bits) == 32 <==> inst_bits % 4 == 3,
        width_of(inst_bits) == 16 <==> inst_bits % 4 != 3,
{
    assert(inst_bits & 0x3 == inst_bits % 4) by (bit_vector);
}

/// The mnemonic of an instruction word is that of its first entry; a word
/// without an entry has its address text.
pub proof fn law_mnemonic(mnemonics: Seq<(u32, Seq<char>)>, inst_bits: u32, i: int)
    requires
        0 <= i,
    ensures
        forall|k: int|
            i <= k < mnemonics.len() && (#[trigger] mnemonics[k]).0 == inst_bits && (forall|j: int|
                i <= j < k ==> (#[trigger] mnemonics[j]).0 != inst_bits) ==> mnemonic_from(
                mnemonics,
                inst_bits,
                i,
            ) == mnemonics[k].1,
        (forall|k: int| i <= k < mnemonics.len() ==> (#[trigger] mnemonics[k]).0 != inst_bits)
            ==> mnemonic_from(mnemonics, inst_bits, i) == address_text(inst_bits as nat),
    decreases mnemonics.len() - i,
{
    if i < mnemonics.len() {
        law_mnemonic(mnemonics, inst_bits, i + 1);
        assert forall|k: int|
            i <= k < mnemonics.len() && (#[trigger] mnemonics[k]).0 == inst_bits && (forall|j: int|
                i <= j < k ==> (#[trigger] mnemonics[j]).0 != inst_bits) implies mnemonic_from(
            mnemonics,
            inst_bits,
            i,
        ) == mnemonics[k].1 by {
            if k > i {
                assert(mnemonics[i].0 != inst_bits);
            }
        }
    }
}

} // verus!
