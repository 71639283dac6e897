//! The CHIP-8 opcode decoder.
//!
//! A 16-bit big-endian instruction word is decomposed into its operand
//! fields, classified for control flow, and rendered as mnemonic text.
//! The classification is the only part the traversal engine reads; the
//! mnemonic text is purely for reporting.

use vstd::prelude::*;
use vstd::string::StringExecFns;
use crate::text::{dec_text, hex_text, to_dec, to_hex};

verus! {

/// The `nnn` field: the low twelve bits, a jump or call target.
pub open spec fn spec_nnn(op: u16) -> u16 {
    op & 0x0FFF
}

/// The `nn` field: the low byte.
pub open spec fn spec_nn(op: u16) -> u8 {
    (op & 0x0FF) as u8
}

/// The `n` field: the low nibble.
pub open spec fn spec_n(op: u16) -> u8 {
    (op & 0x00F) as u8
}

/// The `x` field: bits eight to eleven, a register number.
pub open spec fn spec_x(op: u16) -> u8 {
    ((op & 0x0F00) >> 8) as u8
}

/// The `y` field: bits four to seven, a register number.
pub open spec fn spec_y(op: u16) -> u8 {
    ((op & 0x00F0) >> 4) as u8
}

/// The 16-bit instruction word formed big-endian from two consecutive bytes.
pub open spec fn word_at(bytes: Seq<u8>, addr: int) -> u16
    recommends
        0 <= addr,
        addr + 1 < bytes.len(),
{
    ((bytes[addr] as u16) << 8) | (bytes[addr + 1] as u16)
}

/// Whether the word returns from a subroutine.
pub open spec fn spec_is_ret(op: u16) -> bool {
    op == 0x00EE
}

/// Whether the word is an unconditional jump.
pub open spec fn spec_is_jmp(op: u16) -> bool {
    op & 0xF000 == 0x1000
}

/// Whether the word calls a subroutine.
pub open spec fn spec_is_call(op: u16) -> bool {
    op & 0xF000 == 0x2000
}

/// Whether the word conditionally skips the next instruction.
pub open spec fn spec_is_skip(op: u16) -> bool {
    op & 0xF000 == 0x3000 || op & 0xF000 == 0x4000 || op & 0xF000 == 0x5000 || op & 0xF000
        == 0x9000 || op & 0xF0FF == 0xE09E || op & 0xF0FF == 0xE0A1
}

/// Extracts the `nnn` address field.
pub fn op_nnn(op: u16) -> (r: u16)
    ensures
        r == spec_nnn(op),
        r < 0x1000,
{
    assert(op & 0x0FFF < 0x1000) by (bit_vector);
    op & 0x0FFF
}

/// Extracts the `nn` byte field.
pub fn op_nn(op: u16) -> (r: u8)
    ensures
        r == spec_nn(op),
{
    (op & 0x0FF) as u8
}

/// Extracts the `n` nibble field.
pub fn op_n(op: u16) -> (r: u8)
    ensures
        r == spec_n(op),
        r < 0x10,
{
    assert(op & 0x00F < 0x10) by (bit_vector);
    (op & 0x00F) as u8
}

/// Extracts the `x` register field.
pub fn op_x(op: u16) -> (r: u8)
    ensures
        r == spec_x(op),
        r < 0x10,
{
    assert((op & 0x0F00) >> 8 < 0x10) by (bit_vector);
    ((op & 0x0F00) >> 8) as u8
}

/// Extracts the `y` register field.
pub fn op_y(op: u16) -> (r: u8)
    ensures
        r == spec_y(op),
        r < 0x10,
{
    assert((op & 0x00F0) >> 4 < 0x10) by (bit_vector);
    ((op & 0x00F0) >> 4) as u8
}

/// How an instruction transfers control.
#[derive(PartialEq, Eq, Structural, Clone, Copy, Debug)]
pub enum Classification {
    Return,
    UnconditionalJump(u16),
    Call(u16),
    ConditionalSkip,
    Fallthrough,
}

/// The control-transfer classification of a word, with jump and call
/// targets given as logical addresses.
pub open spec fn spec_classify(op: u16) -> Classification {
    if spec_is_ret(op) {
        Classification::Return
    } else if spec_is_jmp(op) {
        Classification::UnconditionalJump(spec_nnn(op))
    } else if spec_is_call(op) {
        Classification::Call(spec_nnn(op))
    } else if spec_is_skip(op) {
        Classification::ConditionalSkip
    } else {
        Classification::Fallthrough
    }
}

/// Classifies an instruction word for the traversal engine.
pub fn classify(op: u16) -> (c: Classification)
    ensures
        c == spec_classify(op),
{
    if op == 0x00EE {
        Classification::Return
    } else if op & 0xF000 == 0x1000 {
        Classification::UnconditionalJump(op & 0x0FFF)
    } else if op & 0xF000 == 0x2000 {
        Classification::Call(op & 0x0FFF)
    } else if op & 0xF000 == 0x3000 || op & 0xF000 == 0x4000 || op & 0xF000 == 0x5000 || op
        & 0xF000 == 0x9000 || op & 0xF0FF == 0xE09E || op & 0xF0FF == 0xE0A1 {
        Classification::ConditionalSkip
    } else {
        Classification::Fallthrough
    }
}

/// Mnemonic text of the variants dispatched on the low nibble of base
/// group eight: the register-to-register ALU instructions.
pub open spec fn mnemonic_text_alu(op: u16) -> Seq<char> {
    let x = spec_x(op) as nat;
    let y = spec_y(op) as nat;
    let low = op & 0x000F;
    if low == 0x0 {
        "LD V"@ + dec_text(x) + ", V"@ + dec_text(y)
    } else if low == 0x1 {
        "OR V"@ + dec_text(x) + ", V"@ + dec_text(y)
    } else if low == 0x2 {
        "AND V"@ + dec_text(x) + ", V"@ + dec_text(y)
    } else if low == 0x3 {
        "XOR V"@ + dec_text(x) + ", V"@ + dec_text(y)
    } else if low == 0x4 {
        "ADD V"@ + dec_text(x) + ", V"@ + dec_text(y)
    } else if low == 0x5 {
        "SUB V"@ + dec_text(x) + ", V"@ + dec_text(y)
    } else if low == 0x6 {
        "SHR V"@ + dec_text(x) + ", V"@ + dec_text(y)
    } else if low == 0x7 {
        "SUBN V"@ + dec_text(x) + ", V"@ + dec_text(y)
    } else if low == 0xE {
        "SHL V"@ + dec_text(x) + ", V"@ + dec_text(y)
    } else {
        "Could not Parse "@ + hex_text(op as nat)
    }
}

/// Mnemonic text of the variants dispatched on the low byte of base
/// group fifteen: timers, keyboard wait, BCD and memory-block moves.
pub open spec fn mnemonic_text_misc(op: u16) -> Seq<char> {
    let x = spec_x(op) as nat;
    let low = op & 0x00FF;
    if low == 0x07 {
        "LD V"@ + dec_text(x) + ", DT"@
    } else if low == 0x0A {
        "LD V"@ + dec_text(x) + ", K"@
    } else if low == 0x15 {
        "LD DT, V"@ + dec_text(x)
    } else if low == 0x18 {
        "LD ST, V"@ + dec_text(x)
    } else if low == 0x1E {
        "ADD I, V"@ + dec_text(x)
    } else if low == 0x29 {
        "LD F, V"@ + dec_text(x)
    } else if low == 0x33 {
        "LD B, V"@ + dec_text(x)
    } else if low == 0x55 {
        "LD I, V"@ + dec_text(x)
    } else if low == 0x65 {
        "LD V"@ + dec_text(x) + ", I"@
    } else {
        "Could not Parse "@ + hex_text(op as nat)
    }
}

/// The full mnemonic table.  Every word not matching a known pattern
/// renders as an explicit "Could not Parse" marker.
pub open spec fn mnemonic_text(op: u16) -> Seq<char> {
    let nnn = spec_nnn(op) as nat;
    let nn = spec_nn(op) as nat;
    let n = spec_n(op) as nat;
    let x = spec_x(op) as nat;
    let y = spec_y(op) as nat;
    let base = (op & 0xF000) >> 12;
    if base == 0x0 {
        if op & 0x00FF == 0xE0 {
            "CLS"@
        } else if op & 0x00FF == 0xEE {
            "RET"@
        } else {
            "SYS 0x"@ + hex_text(nnn)
        }
    } else if base == 0x1 {
        "JP 0x"@ + hex_text(nnn)
    } else if base == 0x2 {
        "CALL 0x"@ + hex_text(nnn)
    } else if base == 0x3 {
        "SE V"@ + dec_text(x) + ", "@ + hex_text(nn)
    } else if base == 0x4 {
        "SNE V"@ + dec_text(x) + ", "@ + hex_text(nn)
    } else if base == 0x5 {
        "SE V"@ + dec_text(x) + ", V"@ + dec_text(y)
    } else if base == 0x6 {
        "LD V"@ + hex_text(x) + ", "@ + dec_text(nn)
    } else if base == 0x7 {
        "ADD V"@ + dec_text(x) + ", "@ + hex_text(nn)
    } else if base == 0x8 {
        mnemonic_text_alu(op)
    } else if base == 0x9 {
        "SNE V"@ + dec_text(x) + ", V"@ + dec_text(y)
    } else if base == 0xA {
        "LD I, 0x"@ + hex_text(nnn)
    } else if base == 0xB {
        "JP V0, 0x"@ + hex_text(nnn)
    } else if base == 0xC {
        "RND V"@ + dec_text(x) + ", "@ + dec_text(nn)
    } else if base == 0xD {
        "DRW V"@ + dec_text(x) + ", V"@ + dec_text(y) + ", "@ + dec_text(n)
    } else if base == 0xE {
        if op & 0x00FF == 0x9E {
            "SKP V"@ + dec_text(x)
        } else if op & 0x00FF == 0xA1 {
            "SKNP V"@ + dec_text(x)
        } else {
            "Could not Parse "@ + hex_text(op as nat)
        }
    } else {
        mnemonic_text_misc(op)
    }
}

fn unparsed(op: u16) -> (s: String)
    ensures
        s@ == "Could not Parse "@ + hex_text(op as nat),
{
    let mut s = String::from_str("Could not Parse ");
    s.append(to_hex(op as u64).as_str());
    s
}

fn decode_alu(op: u16) -> (s: String)
    ensures
        s@ == mnemonic_text_alu(op),
{
    let x = ((op & 0x0F00) >> 8) as u8;
    let y = ((op & 0x00F0) >> 4) as u8;
    let low = op & 0x000F;
    let head = if low == 0x0 {
        "LD V"
    } else if low == 0x1 {
        "OR V"
    } else if low == 0x2 {
        "AND V"
    } else if low == 0x3 {
        "XOR V"
    } else if low == 0x4 {
        "ADD V"
    } else if low == 0x5 {
        "SUB V"
    } else if low == 0x6 {
        "SHR V"
    } else if low == 0x7 {
        "SUBN V"
    } else {
        "SHL V"
    };
    if low <= 0x7 || low == 0xE {
        let mut s = String::from_str(head);
        s.append(to_dec(x as u64).as_str());
        s.append(", V");
        s.append(to_dec(y as u64).as_str());
        s
    } else {
        unparsed(op)
    }
}

fn decode_misc(op: u16) -> (s: String)
    ensures
        s@ == mnemonic_text_misc(op),
{
    let x = ((op & 0x0F00) >> 8) as u8;
    let low = op & 0x00FF;
    if low == 0x07 {
        let mut s = String::from_str("LD V");
        s.append(to_dec(x as u64).as_str());
        s.append(", DT");
        s
    } else if low == 0x0A {
        let mut s = String::from_str("LD V");
        s.append(to_dec(x as u64).as_str());
        s.append(", K");
        s
    } else if low == 0x65 {
        let mut s = String::from_str("LD V");
        s.append(to_dec(x as u64).as_str());
        s.append(", I");
        s
    } else if low == 0x15 || low == 0x18 || low == 0x1E || low == 0x29 || low == 0x33 || low
        == 0x55 {
        let head = if low == 0x15 {
            "LD DT, V"
        } else if low == 0x18 {
            "LD ST, V"
        } else if low == 0x1E {
            "ADD I, V"
        } else if low == 0x29 {
            "LD F, V"
        } else if low == 0x33 {
            "LD B, V"
        } else {
            "LD I, V"
        };
        let mut s = String::from_str(head);
        s.append(to_dec(x as u64).as_str());
        s
    } else {
        unparsed(op)
    }
}

/// Decodes an instruction word into its mnemonic text.
pub fn decode_opcode(op: u16) -> (s: String)
    ensures
        s@ == mnemonic_text(op),
{
    let nnn = op & 0x0FFF;
    let nn = (op & 0x0FF) as u8;
    let n = (op & 0x00F) as u8;
    let x = ((op & 0x0F00) >> 8) as u8;
    let y = ((op & 0x00F0) >> 4) as u8;
    let base = (op & 0xF000) >> 12;
    if base == 0x0 {
        if op & 0x00FF == 0xE0 {
            String::from_str("CLS")
        } else if op & 0x00FF == 0xEE {
            String::from_str("RET")
        } else {
            let mut s = String::from_str("SYS 0x");
            s.append(to_hex(nnn as u64).as_str());
            s
        }
    } else if base == 0x1 {
        let mut s = String::from_str("JP 0x");
        s.append(to_hex(nnn as u64).as_str());
        s
    } else if base == 0x2 {
        let mut s = String::from_str("CALL 0x");
        s.append(to_hex(nnn as u64).as_str());
        s
    } else if base == 0x3 {
        let mut s = String::from_str("SE V");
        s.append(to_dec(x as u64).as_str());
        s.append(", ");
        s.append(to_hex(nn as u64).as_str());
        s
    } else if base == 0x4 {
        let mut s = String::from_str("SNE V");
        s.append(to_dec(x as u64).as_str());
        s.append(", ");
        s.append(to_hex(nn as u64).as_str());
        s
    } else if base == 0x5 {
        let mut s = String::from_str("SE V");
        s.append(to_dec(x as u64).as_str());
        s.append(", V");
        s.append(to_dec(y as u64).as_str());
        s
    } else if base == 0x6 {
        let mut s = String::from_str("LD V");
        s.append(to_hex(x as u64).as_str());
        s.append(", ");
        s.append(to_dec(nn as u64).as_str());
        s
    } else if base == 0x7 {
        let mut s = String::from_str("ADD V");
        s.append(to_dec(x as u64).as_str());
        s.append(", ");
        s.append(to_hex(nn as u64).as_str());
        s
    } else if base == 0x8 {
        decode_alu(op)
    } else if base == 0x9 {
        let mut s = String::from_str("SNE V");
        s.append(to_dec(x as u64).as_str());
        s.append(", V");
        s.append(to_dec(y as u64).as_str());
        s
    } else if base == 0xA {
        let mut s = String::from_str("LD I, 0x");
        s.append(to_hex(nnn as u64).as_str());
        s
    } else if base == 0xB {
        let mut s = String::from_str("JP V0, 0x");
        s.append(to_hex(nnn as u64).as_str());
        s
    } else if base == 0xC {
        let mut s = String::from_str("RND V");
        s.append(to_dec(x as u64).as_str());
        s.append(", ");
        s.append(to_dec(nn as u64).as_str());
        s
    } else if base == 0xD {
        let mut s = String::from_str("DRW V");
        s.append(to_dec(x as u64).as_str());
        s.append(", V");
        s.append(to_dec(y as u64).as_str());
        s.append(", ");
        s.append(to_dec(n as u64).as_str());
        s
    } else if base == 0xE {
        if op & 0x00FF == 0x9E {
            let mut s = String::from_str("SKP V");
            s.append(to_dec(x as u64).as_str());
            s
        } else if op & 0x00FF == 0xA1 {
            let mut s = String::from_str("SKNP V");
            s.append(to_dec(x as u64).as_str());
            s
        } else {
            unparsed(op)
        }
    } else {
        decode_misc(op)
    }
}

} // verus!
