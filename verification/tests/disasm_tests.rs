use chip8_disasm::disassemble::{CodeGroup, Disassembler, DisasmError};

fn run(rom: Vec<u8>) -> Disassembler {
    let mut d = Disassembler::new();
    d.load(rom).unwrap();
    d.dissassemble();
    d
}

fn count(v: &Vec<u16>, x: u16) -> usize {
    v.iter().filter(|&&e| e == x).count()
}

#[test]
fn empty_rom_gives_no_groups() {
    let mut d = Disassembler::new();
    d.load(Vec::new()).unwrap();
    let report = d.dissassemble();
    assert_eq!(d.code_groups.len(), 0);
    assert_eq!(report, "Rom Size 0 (0)\nCode Groups: 0\n\n");
}

#[test]
fn self_jump_terminates_with_one_group() {
    let d = run(vec![0x12, 0x00]);
    assert_eq!(d.code_groups.len(), 1);
    let g = &d.code_groups[0];
    assert_eq!(g.label, "loc_200:");
    assert_eq!(g.addrs, vec![0x200]);
    assert_eq!(g.opcodes, vec![0x1200]);
    assert_eq!(g.mnemonics, vec![String::from("JP 0x200")]);
}

#[test]
fn self_jump_report() {
    let mut d = Disassembler::new();
    d.load(vec![0x12, 0x00]).unwrap();
    let report = d.dissassemble();
    assert_eq!(
        report,
        "Rom Size 2 (2)\nCode Groups: 1\n\nloc_200:\n0x200 | 1200 | JP 0x200\n\n"
    );
}

#[test]
fn call_return_pairing() {
    // CALL 0x204 at 0x200; RET at 0x202; CLS at 0x204.  The call jumps
    // over the return, the landed-on path runs to ROM end, and the
    // return is never reached: the call site stays pending.
    let d = run(vec![0x22, 0x04, 0x00, 0xEE, 0x00, 0xE0]);
    assert_eq!(d.code_groups.len(), 2);
    let g0 = &d.code_groups[0];
    assert_eq!(g0.label, "loc_200:");
    assert_eq!(g0.addrs, vec![0x200]);
    assert_eq!(g0.opcodes, vec![0x2204]);
    assert_eq!(g0.mnemonics, vec![String::from("CALL 0x204")]);
    let g1 = &d.code_groups[1];
    assert_eq!(g1.label, "loc_204:");
    assert_eq!(g1.addrs, vec![0x204]);
    assert_eq!(g1.opcodes, vec![0x00E0]);
    assert_eq!(g1.mnemonics, vec![String::from("CLS")]);
    assert_eq!(count(&d.visited_addrs, 0x2), 0);
    assert_eq!(d.call_stack, vec![0x0]);
}

#[test]
fn call_return_resume_after_pop() {
    // CALL 0x204 at 0x200; CLS at 0x202; RET at 0x204.  The return pops
    // the call site and resumes at 0x202, whose CLS is decoded; that
    // path then runs into the already-visited 0x204 and the engine's
    // drop-on-revisit policy discards the partial group.
    let d = run(vec![0x22, 0x04, 0x00, 0xE0, 0x00, 0xEE]);
    assert_eq!(d.code_groups.len(), 2);
    let g0 = &d.code_groups[0];
    assert_eq!(g0.addrs, vec![0x200]);
    assert_eq!(g0.mnemonics, vec![String::from("CALL 0x204")]);
    let g1 = &d.code_groups[1];
    assert_eq!(g1.label, "loc_204:");
    assert_eq!(g1.addrs, vec![0x204]);
    assert_eq!(g1.opcodes, vec![0x00EE]);
    assert_eq!(g1.mnemonics, vec![String::from("RET")]);
    // the pop really resumed at 0x202: its internal address was visited
    assert_eq!(count(&d.visited_addrs, 0x2), 1);
    // and the call stack was fully unwound
    assert_eq!(d.call_stack.len(), 0);
}

#[test]
fn skip_visits_both_successors_once() {
    // SE V0, 0x12 at 0x200, then CLS at 0x202 and CLS at 0x204.
    let d = run(vec![0x30, 0x12, 0x00, 0xE0, 0x00, 0xE0]);
    assert_eq!(count(&d.visited_addrs, 0x2), 1);
    assert_eq!(count(&d.visited_addrs, 0x4), 1);
    assert_eq!(count(&d.visited_addrs, 0x0), 1);
}

#[test]
fn skip_landing_beyond_rom_end_is_no_fault() {
    let d = run(vec![0x30, 0x12]);
    assert_eq!(d.code_groups.len(), 1);
    assert_eq!(d.code_groups[0].addrs, vec![0x200]);
}

#[test]
fn jump_target_below_base_ends_the_path() {
    let d = run(vec![0x11, 0x00]);
    assert_eq!(d.code_groups.len(), 1);
    assert_eq!(d.code_groups[0].mnemonics, vec![String::from("JP 0x100")]);
}

#[test]
fn return_with_empty_call_stack_ends_silently() {
    let d = run(vec![0x00, 0xEE]);
    assert_eq!(d.code_groups.len(), 1);
    assert_eq!(d.code_groups[0].mnemonics, vec![String::from("RET")]);
}

#[test]
fn dangling_final_byte_is_not_decoded() {
    // CLS, then a lone byte that cannot form an instruction word.
    let d = run(vec![0x00, 0xE0, 0xAA]);
    assert_eq!(d.code_groups.len(), 1);
    assert_eq!(d.code_groups[0].addrs, vec![0x200]);
    assert_eq!(count(&d.visited_addrs, 0x2), 0);
}

#[test]
fn rom_end_commits_group_in_progress() {
    let d = run(vec![0x00, 0xE0, 0x60, 0x05]);
    assert_eq!(d.code_groups.len(), 1);
    assert_eq!(d.code_groups[0].addrs, vec![0x200, 0x202]);
    assert_eq!(
        d.code_groups[0].mnemonics,
        vec![String::from("CLS"), String::from("LD V0, 5")]
    );
}

#[test]
fn backward_jump_group_order_is_discovery_order() {
    // CLS at 0x200, JP 0x200 at 0x202: the jump lands on a visited
    // address, so exactly one group is committed.
    let d = run(vec![0x00, 0xE0, 0x12, 0x00]);
    assert_eq!(d.code_groups.len(), 1);
    assert_eq!(d.code_groups[0].addrs, vec![0x200, 0x202]);
}

#[test]
fn forward_jump_produces_two_groups() {
    // JP 0x204 at 0x200, CLS at 0x202 (never reached), CLS at 0x204.
    let d = run(vec![0x12, 0x04, 0x00, 0xE0, 0x00, 0xE0]);
    assert_eq!(d.code_groups.len(), 2);
    assert_eq!(d.code_groups[0].label, "loc_200:");
    assert_eq!(d.code_groups[1].label, "loc_204:");
    assert_eq!(d.code_groups[1].addrs, vec![0x204]);
    assert_eq!(count(&d.visited_addrs, 0x2), 0);
}

#[test]
fn two_runs_over_same_bytes_agree() {
    let rom = vec![0x22, 0x06, 0x30, 0x01, 0x12, 0x00, 0x00, 0xEE];
    let mut d1 = Disassembler::new();
    d1.load(rom.clone()).unwrap();
    let r1 = d1.dissassemble();
    let mut d2 = Disassembler::new();
    d2.load(rom).unwrap();
    let r2 = d2.dissassemble();
    assert_eq!(r1, r2);
    assert_eq!(d1.code_groups.len(), d2.code_groups.len());
    for k in 0..d1.code_groups.len() {
        let a: &CodeGroup = &d1.code_groups[k];
        let b: &CodeGroup = &d2.code_groups[k];
        assert_eq!(a.label, b.label);
        assert_eq!(a.addrs, b.addrs);
        assert_eq!(a.opcodes, b.opcodes);
        assert_eq!(a.mnemonics, b.mnemonics);
    }
    assert_eq!(d1.visited_addrs, d2.visited_addrs);
}

#[test]
fn no_address_in_two_groups() {
    let rom = vec![0x22, 0x06, 0x30, 0x01, 0x12, 0x00, 0x00, 0xEE];
    let d = run(rom);
    let mut seen: Vec<u16> = Vec::new();
    for g in &d.code_groups {
        for &a in &g.addrs {
            assert!(!seen.contains(&a));
            seen.push(a);
        }
    }
}

#[test]
fn load_rejects_oversized_rom() {
    let mut d = Disassembler::new();
    let r = d.load(vec![0u8; 3585]);
    assert_eq!(r, Err(DisasmError::RomTooLarge));
    assert_eq!(d.bytes.len(), 0);
}

#[test]
fn load_accepts_rom_filling_the_window() {
    let mut d = Disassembler::new();
    assert!(d.load(vec![0u8; 3584]).is_ok());
    assert_eq!(d.bytes.len(), 3584);
}
