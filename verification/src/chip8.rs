//! The bytecode-execution collaborator: a bare machine state that can
//! take a ROM image into its memory window.
//!
//! The machine holds the 4096-byte memory, a sixteen-entry stack, the
//! sixteen data registers, the index register, the program counter and
//! the stack pointer.  Loading a ROM copies it into memory at the base
//! address and points the program counter there; no instruction-execution
//! step is defined here.

use vstd::prelude::*;
use crate::disassemble::DisasmError;
use crate::model::{MAX_ROM_LEN, ROM_START};

verus! {

/// Bytes of addressable machine memory.
pub const MEM_SIZE: usize = 4096;

/// Entries in the call stack.
pub const STACK_COUNT: usize = 16;

/// Number of data registers.
pub const REG_COUNT: usize = 16;

fn zero_bytes(n: usize) -> (v: Vec<u8>)
    ensures
        v@.len() == n,
        forall|i: int| 0 <= i < n ==> v@[i] == 0,
{
    let mut v: Vec<u8> = Vec::new();
    let mut k: usize = 0;
    while k < n
        invariant
            k <= n,
            v@.len() == k,
            forall|i: int| 0 <= i < k ==> v@[i] == 0,
        decreases n - k,
    {
        v.push(0);
        k = k + 1;
    }
    v
}

/// The machine state.
pub struct Chip8 {
    pub mem: Vec<u8>,
    pub stack: Vec<u8>,
    pub v: Vec<u8>,
    pub i: u16,
    pub pc: u16,
    pub sp: u8,
}

impl Chip8 {
    /// The fixed shapes of the machine's storage.
    pub open spec fn wf(&self) -> bool {
        &&& self.mem@.len() == MEM_SIZE
        &&& self.stack@.len() == STACK_COUNT
        &&& self.v@.len() == REG_COUNT
    }

    /// A machine with cleared memory, stack and registers.
    pub fn new() -> (c: Chip8)
        ensures
            c.wf(),
            forall|i: int| 0 <= i < MEM_SIZE ==> c.mem@[i] == 0,
            forall|i: int| 0 <= i < STACK_COUNT ==> c.stack@[i] == 0,
            forall|i: int| 0 <= i < REG_COUNT ==> c.v@[i] == 0,
            c.i == 0,
            c.pc == 0,
            c.sp == 0,
    {
        Chip8 {
            mem: zero_bytes(MEM_SIZE),
            stack: zero_bytes(STACK_COUNT),
            v: zero_bytes(REG_COUNT),
            i: 0,
            pc: 0,
            sp: 0,
        }
    }

    /// Copies a ROM image into memory at the base address and points the
    /// program counter there.  An image larger than the memory window is
    /// rejected and the machine is left unchanged.
    #[verifier::loop_isolation(false)]
    pub fn load_rom(&mut self, rom: Vec<u8>) -> (r: Result<(), DisasmError>)
        requires
            old(self).wf(),
        ensures
            final(self).wf(),
            match r {
                Ok(()) => {
                    &&& rom@.len() <= MAX_ROM_LEN
                    &&& forall|k: int|
                        0 <= k < rom@.len() ==> final(self).mem@[ROM_START + k] == rom@[k]
                    &&& forall|k: int|
                        0 <= k < MEM_SIZE && !(ROM_START + rom@.len() > k >= ROM_START)
                            ==> final(self).mem@[k] == old(self).mem@[k]
                    &&& final(self).pc == ROM_START
                    &&& final(self).stack == old(self).stack
                    &&& final(self).v == old(self).v
                    &&& final(self).i == old(self).i
                    &&& final(self).sp == old(self).sp
                },
                Err(e) => {
                    &&& e == DisasmError::RomTooLarge
                    &&& rom@.len() > MAX_ROM_LEN
                    &&& *final(self) == *old(self)
                },
            },
    {
        if rom.len() > MAX_ROM_LEN {
            return Err(DisasmError::RomTooLarge);
        }
        let base = ROM_START as usize;
        let mut k: usize = 0;
        while k < rom.len()
            invariant
                k <= rom@.len(),
                rom@.len() <= MAX_ROM_LEN,
                self.wf(),
                forall|j: int| 0 <= j < k ==> self.mem@[base + j] == rom@[j],
                forall|j: int|
                    0 <= j < MEM_SIZE && !(base + k > j >= base) ==> self.mem@[j] == old(self).mem@[
                        j],
                self.stack == old(self).stack,
                self.v == old(self).v,
                self.i == old(self).i,
                self.pc == old(self).pc,
                self.sp == old(self).sp,
            decreases rom.len() - k,
        {
            self.mem[base + k] = rom[k];
            k = k + 1;
        }
        self.pc = ROM_START;
        Ok(())
    }
}

} // verus!
