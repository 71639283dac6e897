use chip8_disasm::chip8::Chip8;
use chip8_disasm::disassemble::DisasmError;

#[test]
fn new_machine_is_cleared() {
    let c = Chip8::new();
    assert_eq!(c.mem.len(), 4096);
    assert_eq!(c.stack.len(), 16);
    assert_eq!(c.v.len(), 16);
    assert!(c.mem.iter().all(|&b| b == 0));
    assert!(c.stack.iter().all(|&b| b == 0));
    assert!(c.v.iter().all(|&b| b == 0));
    assert_eq!(c.i, 0);
    assert_eq!(c.pc, 0);
    assert_eq!(c.sp, 0);
}

#[test]
fn load_rom_copies_into_window_and_sets_pc() {
    let mut c = Chip8::new();
    let rom = vec![0x12, 0x34, 0x56];
    assert!(c.load_rom(rom).is_ok());
    assert_eq!(c.mem[0x200], 0x12);
    assert_eq!(c.mem[0x201], 0x34);
    assert_eq!(c.mem[0x202], 0x56);
    assert_eq!(c.mem[0x1FF], 0);
    assert_eq!(c.mem[0x203], 0);
    assert_eq!(c.pc, 0x200);
}

#[test]
fn load_rom_rejects_oversized_rom() {
    let mut c = Chip8::new();
    let r = c.load_rom(vec![0xFF; 3585]);
    assert_eq!(r, Err(DisasmError::RomTooLarge));
    assert_eq!(c.pc, 0);
    assert!(c.mem.iter().all(|&b| b == 0));
}

#[test]
fn load_rom_accepts_rom_filling_the_window() {
    let mut c = Chip8::new();
    assert!(c.load_rom(vec![0xAB; 3584]).is_ok());
    assert_eq!(c.mem[0x200], 0xAB);
    assert_eq!(c.mem[4095], 0xAB);
}
