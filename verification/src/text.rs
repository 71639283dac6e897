//! Rendering of numbers as decimal and upper-case hexadecimal text.
//!
//! The report and the mnemonics print register numbers in decimal and
//! addresses, opcodes and immediates in upper-case hexadecimal without
//! leading zeros (opcodes alone are padded to four digits).

use vstd::prelude::*;
use vstd::string::StringExecFns;

verus! {

/// The single character a digit value below sixteen prints as.
pub open spec fn digit_text(d: nat) -> Seq<char> {
    if d == 0 {
        "0"@
    } else if d == 1 {
        "1"@
    } else if d == 2 {
        "2"@
    } else if d == 3 {
        "3"@
    } else if d == 4 {
        "4"@
    } else if d == 5 {
        "5"@
    } else if d == 6 {
        "6"@
    } else if d == 7 {
        "7"@
    } else if d == 8 {
        "8"@
    } else if d == 9 {
        "9"@
    } else if d == 10 {
        "A"@
    } else if d == 11 {
        "B"@
    } else if d == 12 {
        "C"@
    } else if d == 13 {
        "D"@
    } else if d == 14 {
        "E"@
    } else {
        "F"@
    }
}

/// Hexadecimal digits of `n`, most significant first, empty for zero.
pub open spec fn hex_text_rec(n: nat) -> Seq<char>
    decreases n,
{
    if n == 0 {
        Seq::empty()
    } else {
        hex_text_rec(n / 16) + digit_text(n % 16)
    }
}

/// Upper-case hexadecimal text of `n` without leading zeros; zero prints as "0".
pub open spec fn hex_text(n: nat) -> Seq<char> {
    if n == 0 {
        "0"@
    } else {
        hex_text_rec(n)
    }
}

/// Decimal digits of `n`, most significant first, empty for zero.
pub open spec fn dec_text_rec(n: nat) -> Seq<char>
    decreases n,
{
    if n == 0 {
        Seq::empty()
    } else {
        dec_text_rec(n / 10) + digit_text(n % 10)
    }
}

/// Decimal text of `n`; zero prints as "0".
pub open spec fn dec_text(n: nat) -> Seq<char> {
    if n == 0 {
        "0"@
    } else {
        dec_text_rec(n)
    }
}

/// A 16-bit word as exactly four upper-case hexadecimal digits.
pub open spec fn hex4_text(w: u16) -> Seq<char> {
    digit_text(((w >> 12) & 0xF) as nat) + digit_text(((w >> 8) & 0xF) as nat) + digit_text(
        ((w >> 4) & 0xF) as nat,
    ) + digit_text((w & 0xF) as nat)
}

fn digit_str(d: u64) -> (s: &'static str)
    requires
        d < 16,
    ensures
        s@ == digit_text(d as nat),
{
    if d == 0 {
        "0"
    } else if d == 1 {
        "1"
    } else if d == 2 {
        "2"
    } else if d == 3 {
        "3"
    } else if d == 4 {
        "4"
    } else if d == 5 {
        "5"
    } else if d == 6 {
        "6"
    } else if d == 7 {
        "7"
    } else if d == 8 {
        "8"
    } else if d == 9 {
        "9"
    } else if d == 10 {
        "A"
    } else if d == 11 {
        "B"
    } else if d == 12 {
        "C"
    } else if d == 13 {
        "D"
    } else if d == 14 {
        "E"
    } else {
        "F"
    }
}

fn to_hex_rec(n: u64) -> (s: String)
    ensures
        s@ == hex_text_rec(n as nat),
    decreases n,
{
    if n == 0 {
        let s = String::new();
        assert(s@ =~= hex_text_rec(0));
        s
    } else {
        let mut s = to_hex_rec(n / 16);
        s.append(digit_str(n % 16));
        s
    }
}

/// Upper-case hexadecimal rendering of `n`, no leading zeros.
pub fn to_hex(n: u64) -> (s: String)
    ensures
        s@ == hex_text(n as nat),
{
    if n == 0 {
        String::from_str("0")
    } else {
        to_hex_rec(n)
    }
}

fn to_dec_rec(n: u64) -> (s: String)
    ensures
        s@ == dec_text_rec(n as nat),
    decreases n,
{
    if n == 0 {
        let s = String::new();
        assert(s@ =~= dec_text_rec(0));
        s
    } else {
        let mut s = to_dec_rec(n / 10);
        s.append(digit_str(n % 10));
        s
    }
}

/// Decimal rendering of `n`.
pub fn to_dec(n: u64) -> (s: String)
    ensures
        s@ == dec_text(n as nat),
{
    if n == 0 {
        String::from_str("0")
    } else {
        to_dec_rec(n)
    }
}

/// A 16-bit word rendered as exactly four upper-case hexadecimal digits.
pub fn to_hex4(w: u16) -> (s: String)
    ensures
        s@ == hex4_text(w),
{
    assert((w >> 12) & 0xF < 16 && (w >> 8) & 0xF < 16 && (w >> 4) & 0xF < 16 && w & 0xF < 16)
        by (bit_vector);
    let mut s = String::from_str(digit_str((((w >> 12) & 0xF)) as u64));
    s.append(digit_str(((w >> 8) & 0xF) as u64));
    s.append(digit_str(((w >> 4) & 0xF) as u64));
    s.append(digit_str((w & 0xF) as u64));
    s
}

} // verus!
