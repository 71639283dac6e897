//! Static disassembler for CHIP-8 ROM images.
//!
//! The disassembler recovers an approximate control-flow graph from a ROM by
//! following jumps, calls, returns and conditional skips from the entry point,
//! decodes every visited instruction into mnemonic text, and groups the
//! instructions into labeled straight-line code groups for inspection.

pub mod chip8;
pub mod decode;
pub mod disassemble;
pub mod model;
pub mod text;
