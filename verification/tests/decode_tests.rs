use chip8_disasm::decode::{classify, decode_opcode, op_n, op_nn, op_nnn, op_x, op_y, Classification};
use chip8_disasm::disassemble::Disassembler;

fn mnemonic(op: u16) -> String {
    decode_opcode(op)
}

#[test]
fn base0_cls_ret_sys() {
    assert_eq!(mnemonic(0x00E0), "CLS");
    assert_eq!(mnemonic(0x00EE), "RET");
    assert_eq!(mnemonic(0x0123), "SYS 0x123");
    assert_eq!(mnemonic(0x0000), "SYS 0x0");
    // the split goes by the low byte alone
    assert_eq!(mnemonic(0x01E0), "CLS");
    assert_eq!(mnemonic(0x01EE), "RET");
}

#[test]
fn base1_to_base7() {
    assert_eq!(mnemonic(0x1234), "JP 0x234");
    assert_eq!(mnemonic(0x2345), "CALL 0x345");
    assert_eq!(mnemonic(0x3A2F), "SE V10, 2F");
    assert_eq!(mnemonic(0x4B05), "SNE V11, 5");
    assert_eq!(mnemonic(0x5120), "SE V1, V2");
    assert_eq!(mnemonic(0x6A0F), "LD VA, 15");
    assert_eq!(mnemonic(0x7B1A), "ADD V11, 1A");
}

#[test]
fn base8_alu_variants() {
    assert_eq!(mnemonic(0x8120), "LD V1, V2");
    assert_eq!(mnemonic(0x8121), "OR V1, V2");
    assert_eq!(mnemonic(0x8122), "AND V1, V2");
    assert_eq!(mnemonic(0x8123), "XOR V1, V2");
    assert_eq!(mnemonic(0x8124), "ADD V1, V2");
    assert_eq!(mnemonic(0x8125), "SUB V1, V2");
    assert_eq!(mnemonic(0x8126), "SHR V1, V2");
    assert_eq!(mnemonic(0x8127), "SUBN V1, V2");
    assert_eq!(mnemonic(0x812E), "SHL V1, V2");
    assert_eq!(mnemonic(0x8128), "Could not Parse 8128");
}

#[test]
fn base9_to_base_d() {
    assert_eq!(mnemonic(0x9120), "SNE V1, V2");
    assert_eq!(mnemonic(0xA123), "LD I, 0x123");
    assert_eq!(mnemonic(0xB123), "JP V0, 0x123");
    assert_eq!(mnemonic(0xC10F), "RND V1, 15");
    assert_eq!(mnemonic(0xD123), "DRW V1, V2, 3");
}

#[test]
fn base_e_keyboard_skips() {
    assert_eq!(mnemonic(0xE19E), "SKP V1");
    assert_eq!(mnemonic(0xE1A1), "SKNP V1");
    assert_eq!(mnemonic(0xE1AB), "Could not Parse E1AB");
}

#[test]
fn base_f_variants() {
    assert_eq!(mnemonic(0xF107), "LD V1, DT");
    assert_eq!(mnemonic(0xF10A), "LD V1, K");
    assert_eq!(mnemonic(0xF115), "LD DT, V1");
    assert_eq!(mnemonic(0xF118), "LD ST, V1");
    assert_eq!(mnemonic(0xF11E), "ADD I, V1");
    assert_eq!(mnemonic(0xF129), "LD F, V1");
    assert_eq!(mnemonic(0xF133), "LD B, V1");
    assert_eq!(mnemonic(0xF155), "LD I, V1");
    assert_eq!(mnemonic(0xF165), "LD V1, I");
    assert_eq!(mnemonic(0xF1FF), "Could not Parse F1FF");
}

#[test]
fn field_extraction() {
    assert_eq!(op_nnn(0xABCD), 0xBCD);
    assert_eq!(op_nn(0xABCD), 0xCD);
    assert_eq!(op_n(0xABCD), 0xD);
    assert_eq!(op_x(0xABCD), 0xB);
    assert_eq!(op_y(0xABCD), 0xC);
    assert_eq!(op_nnn(0x0000), 0);
    assert_eq!(op_nn(0xFFFF), 0xFF);
    assert_eq!(op_n(0xFFF0), 0x0);
    assert_eq!(op_x(0xF0FF), 0x0);
    assert_eq!(op_y(0xFF0F), 0x0);
}

#[test]
fn classification_table() {
    assert_eq!(classify(0x00EE), Classification::Return);
    assert_eq!(classify(0x1234), Classification::UnconditionalJump(0x234));
    assert_eq!(classify(0x2345), Classification::Call(0x345));
    assert_eq!(classify(0x3A2F), Classification::ConditionalSkip);
    assert_eq!(classify(0x4B05), Classification::ConditionalSkip);
    assert_eq!(classify(0x5120), Classification::ConditionalSkip);
    assert_eq!(classify(0x9120), Classification::ConditionalSkip);
    assert_eq!(classify(0xE19E), Classification::ConditionalSkip);
    assert_eq!(classify(0xE1A1), Classification::ConditionalSkip);
    // a near miss in the keyboard group falls through
    assert_eq!(classify(0xE1AB), Classification::Fallthrough);
    // a RET-looking low byte with a nonzero x falls through
    assert_eq!(classify(0x01EE), Classification::Fallthrough);
    assert_eq!(classify(0x00E0), Classification::Fallthrough);
    assert_eq!(classify(0x6A0F), Classification::Fallthrough);
    assert_eq!(classify(0xB123), Classification::Fallthrough);
}

#[test]
fn classifier_predicates() {
    assert!(Disassembler::is_ret(0x00EE));
    assert!(!Disassembler::is_ret(0x01EE));
    assert!(Disassembler::is_jmp(0x1000));
    assert!(!Disassembler::is_jmp(0x2000));
    assert!(Disassembler::is_call(0x2FFF));
    assert!(!Disassembler::is_call(0x1FFF));
    assert!(Disassembler::is_instr_skip(0x3000));
    assert!(Disassembler::is_instr_skip(0x4111));
    assert!(Disassembler::is_instr_skip(0x5678));
    assert!(Disassembler::is_instr_skip(0x9ABC));
    assert!(Disassembler::is_instr_skip(0xE09E));
    assert!(Disassembler::is_instr_skip(0xE0A1));
    assert!(!Disassembler::is_instr_skip(0xE0AB));
    assert!(!Disassembler::is_instr_skip(0x6000));
}

#[test]
fn branch_counts() {
    assert_eq!(Disassembler::instr_branch_cnt(0x00EE), 1);
    assert_eq!(Disassembler::instr_branch_cnt(0x1234), 1);
    assert_eq!(Disassembler::instr_branch_cnt(0x2345), 1);
    assert_eq!(Disassembler::instr_branch_cnt(0x3000), 2);
    assert_eq!(Disassembler::instr_branch_cnt(0x4000), 2);
    assert_eq!(Disassembler::instr_branch_cnt(0x5000), 2);
    assert_eq!(Disassembler::instr_branch_cnt(0x9000), 2);
    assert_eq!(Disassembler::instr_branch_cnt(0xE09E), 2);
    assert_eq!(Disassembler::instr_branch_cnt(0xE000), 2);
    assert_eq!(Disassembler::instr_branch_cnt(0x6000), 0);
    assert_eq!(Disassembler::instr_branch_cnt(0xB123), 0);
}

#[test]
fn classification_consistent_for_every_word() {
    for op in 0..=0xFFFFu16 {
        let c = classify(op);
        // the classification agrees with the predicates, which agree
        // with the documented bit patterns
        match c {
            Classification::Return => {
                assert!(Disassembler::is_ret(op));
                assert_eq!(op, 0x00EE);
            }
            Classification::UnconditionalJump(t) => {
                assert!(Disassembler::is_jmp(op));
                assert_eq!(op & 0xF000, 0x1000);
                assert_eq!(t, op & 0x0FFF);
            }
            Classification::Call(t) => {
                assert!(Disassembler::is_call(op));
                assert_eq!(op & 0xF000, 0x2000);
                assert_eq!(t, op & 0x0FFF);
            }
            Classification::ConditionalSkip => {
                assert!(Disassembler::is_instr_skip(op));
                assert!(
                    matches!(op & 0xF000, 0x3000 | 0x4000 | 0x5000 | 0x9000)
                        || matches!(op & 0xF0FF, 0xE09E | 0xE0A1)
                );
            }
            Classification::Fallthrough => {
                assert!(!Disassembler::is_ret(op));
                assert!(!Disassembler::is_jmp(op));
                assert!(!Disassembler::is_call(op));
                assert!(!Disassembler::is_instr_skip(op));
            }
        }
        // the branch count follows the classification, except that the
        // keyboard group counts two successors for every low byte
        let cnt = Disassembler::instr_branch_cnt(op);
        match c {
            Classification::Return
            | Classification::UnconditionalJump(_)
            | Classification::Call(_) => assert_eq!(cnt, 1),
            Classification::ConditionalSkip => assert_eq!(cnt, 2),
            Classification::Fallthrough => {
                if op & 0xF000 == 0xE000 {
                    assert_eq!(cnt, 2);
                } else {
                    assert_eq!(cnt, 0);
                }
            }
        }
        // every word decodes to some mnemonic text, unknown patterns to
        // the explicit marker
        let m = decode_opcode(op);
        assert!(!m.is_empty());
    }
}

#[test]
fn decode_instruction_reads_big_endian() {
    let mut d = Disassembler::new();
    d.load(vec![0x12, 0x34, 0x00, 0xE0]).unwrap();
    assert_eq!(d.decode_instruction(0), "JP 0x234");
    assert_eq!(d.decode_instruction(2), "CLS");
}
