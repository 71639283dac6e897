//! The disassembler: the CFG traversal engine and the report renderer.
//!
//! `recursive_traversal` walks the ROM from an entry address, decoding and
//! classifying each instruction, and is proved to compute exactly the
//! `explore` model.  `dissassemble` runs a whole run from internal address
//! zero and renders the committed code groups as the textual report.

use vstd::prelude::*;
use vstd::string::StringExecFns;
use crate::decode::{
    decode_opcode,
    mnemonic_text,
    spec_is_call,
    spec_is_jmp,
    spec_is_ret,
    spec_is_skip,
    word_at,
};
use crate::model::{
    commit_group,
    context_wf,
    ContextModel,
    disasm_groups,
    empty_group,
    explore,
    fuel_for,
    group_extend,
    group_wf,
    GroupModel,
    init_context,
    label_text,
    lemma_explore_fuel,
    lemma_explore_wf,
    lemma_no_overlap_run,
    lemma_visited_bounded,
    no_overlap,
    MAX_ROM_LEN,
    ROM_START,
};
use crate::text::{dec_text, hex4_text, hex_text, to_dec, to_hex, to_hex4};

verus! {

/// Length in bytes of every CHIP-8 instruction.
pub const INSTR_LEN: u8 = 0x2;

/// The error a disassembly run can fail with.
#[derive(PartialEq, Eq, Structural, Clone, Copy, Debug)]
pub enum DisasmError {
    /// The ROM does not fit in the memory window above the base address.
    RomTooLarge,
}

/// One maximal straight-line run of instructions: a label derived from the
/// entry's logical address and, per instruction, its logical address, its
/// raw opcode and its mnemonic text.
pub struct CodeGroup {
    pub label: String,
    pub addrs: Vec<u16>,
    pub opcodes: Vec<u16>,
    pub mnemonics: Vec<String>,
}

impl View for CodeGroup {
    type V = GroupModel;

    open spec fn view(&self) -> GroupModel {
        GroupModel {
            label: self.label@,
            addrs: self.addrs@,
            ops: self.opcodes@,
            mnemonics: self.mnemonics@.map_values(|m: String| m@),
        }
    }
}

impl CodeGroup {
    /// A new group with no instructions and an empty label.
    pub fn new() -> (g: CodeGroup)
        ensures
            g@.label.len() == 0,
            g@.addrs.len() == 0,
            g@.ops.len() == 0,
            g@.mnemonics.len() == 0,
    {
        CodeGroup {
            label: String::new(),
            addrs: Vec::new(),
            opcodes: Vec::new(),
            mnemonics: Vec::new(),
        }
    }
}

fn make_label(addr: u16) -> (s: String)
    ensures
        s@ == label_text(addr as int),
{
    let mut s = String::from_str("loc_");
    let logical: u64 = addr as u64 + ROM_START as u64;
    assert(logical as nat == (addr as int + ROM_START) as nat);
    s.append(to_hex(logical).as_str());
    s.append(":");
    s
}

fn contains_addr(v: &Vec<u16>, x: u16) -> (b: bool)
    ensures
        b == v@.contains(x),
{
    let mut i: usize = 0;
    while i < v.len()
        invariant
            i <= v.len(),
            forall|k: int| 0 <= k < i ==> v@[k] != x,
        decreases v.len() - i,
    {
        if v[i] == x {
            return true;
        }
        i = i + 1;
    }
    false
}

/// The per-instruction report line: logical address, raw opcode as four
/// hexadecimal digits, and the mnemonic text.
pub open spec fn instr_line(g: GroupModel, i: int) -> Seq<char> {
    "0x"@ + hex_text(g.addrs[i] as nat) + " | "@ + hex4_text(g.ops[i]) + " | "@ + g.mnemonics[i]
        + "\n"@
}

/// The first `j` report lines of a group.
pub open spec fn instr_lines_front(g: GroupModel, j: int) -> Seq<char>
    decreases j,
{
    if j <= 0 {
        Seq::empty()
    } else {
        instr_lines_front(g, j - 1) + instr_line(g, j - 1)
    }
}

/// A group's report block: label line, instruction lines, a blank line.
pub open spec fn group_text(g: GroupModel) -> Seq<char> {
    g.label + "\n"@ + instr_lines_front(g, g.addrs.len() as int) + "\n"@
}

/// The report blocks of the first `k` groups.
pub open spec fn groups_text_front(gs: Seq<GroupModel>, k: int) -> Seq<char>
    decreases k,
{
    if k <= 0 {
        Seq::empty()
    } else {
        groups_text_front(gs, k - 1) + group_text(gs[k - 1])
    }
}

/// The whole report: ROM size, group count, then each group's block in
/// discovery order.
pub open spec fn full_report_text(rom_len: nat, gs: Seq<GroupModel>) -> Seq<char> {
    "Rom Size "@ + hex_text(rom_len) + " ("@ + dec_text(rom_len) + ")\n"@ + "Code Groups: "@
        + dec_text(gs.len()) + "\n\n"@ + groups_text_front(gs, gs.len() as int)
}

/// The report a whole run over `bytes` produces.
pub open spec fn report_text(bytes: Seq<u8>) -> Seq<char> {
    full_report_text(bytes.len(), disasm_groups(bytes))
}

fn append_instr_line(r: &mut String, cg: &CodeGroup, j: usize)
    requires
        group_wf(cg@),
        j < cg@.addrs.len(),
    ensures
        final(r)@ == old(r)@ + instr_line(cg@, j as int),
{
    proof {
        assert(cg.mnemonics@.map_values(|m: String| m@)[j as int] == cg.mnemonics@[j as int]@);
    }
    r.append("0x");
    r.append(to_hex(cg.addrs[j] as u64).as_str());
    r.append(" | ");
    r.append(to_hex4(cg.opcodes[j]).as_str());
    r.append(" | ");
    r.append(cg.mnemonics[j].as_str());
    r.append("\n");
    proof {
        assert(r@ =~= old(r)@ + instr_line(cg@, j as int));
    }
}

#[verifier::loop_isolation(false)]
fn append_group_text(r: &mut String, cg: &CodeGroup)
    requires
        group_wf(cg@),
    ensures
        final(r)@ == old(r)@ + group_text(cg@),
{
    let ghost gm = cg@;
    r.append(cg.label.as_str());
    r.append("\n");
    let ghost base = r@;
    let mut j: usize = 0;
    while j < cg.addrs.len()
        invariant
            j <= cg.addrs.len(),
            r@ == base + instr_lines_front(gm, j as int),
        decreases cg.addrs.len() - j,
    {
        append_instr_line(r, cg, j);
        proof {
            assert(r@ =~= base + instr_lines_front(gm, j as int + 1));
        }
        j = j + 1;
    }
    r.append("\n");
    proof {
        assert(base =~= old(r)@ + (gm.label + "\n"@));
        assert(r@ =~= old(r)@ + group_text(gm));
    }
}

/// How many successor paths an instruction opens: one for a return, a
/// jump or a call, two for a conditional skip, none for plain fallthrough.
pub open spec fn spec_branch_cnt(op: u16) -> u8 {
    if op == 0x00EE {
        1
    } else {
        let base = op & 0xF000;
        if base == 0x1000 {
            1
        } else if base == 0x2000 {
            1
        } else if base == 0x3000 || base == 0x4000 || base == 0x5000 || base == 0x9000 || base
            == 0xE000 {
            2
        } else {
            0
        }
    }
}

/// The static disassembler: the loaded ROM bytes and the traversal
/// context of the current run.
pub struct Disassembler {
    pub bytes: Vec<u8>,
    pub visited_addrs: Vec<u16>,
    pub code_groups: Vec<CodeGroup>,
    pub call_stack: Vec<u16>,
}

impl Disassembler {
    /// The traversal context this value holds, as its model.
    pub open spec fn ctx(&self) -> ContextModel {
        ContextModel {
            visited: self.visited_addrs@,
            stack: self.call_stack@,
            groups: self.code_groups@.map_values(|g: CodeGroup| g@),
        }
    }

    /// The ROM fits the memory window and the context is well formed.
    pub open spec fn wf(&self) -> bool {
        &&& self.bytes@.len() <= MAX_ROM_LEN
        &&& context_wf(self.bytes@, self.ctx())
    }

    /// A disassembler with no ROM and a fresh traversal context.
    pub fn new() -> (d: Disassembler)
        ensures
            d.wf(),
            d.bytes@.len() == 0,
            d.ctx() == init_context(),
    {
        let d = Disassembler {
            bytes: Vec::new(),
            visited_addrs: Vec::new(),
            code_groups: Vec::new(),
            call_stack: Vec::new(),
        };
        proof {
            assert(d.ctx() =~~= init_context());
        }
        d
    }

    /// Takes a ROM image in and starts a fresh run, rejecting an image
    /// larger than the memory window above the base address.
    pub fn load(&mut self, rom: Vec<u8>) -> (r: Result<(), DisasmError>)
        ensures
            match r {
                Ok(()) => {
                    &&& rom@.len() <= MAX_ROM_LEN
                    &&& final(self).bytes@ == rom@
                    &&& final(self).ctx() == init_context()
                    &&& final(self).wf()
                },
                Err(e) => {
                    &&& e == DisasmError::RomTooLarge
                    &&& rom@.len() > MAX_ROM_LEN
                    &&& *final(self) == *old(self)
                },
            },
    {
        if rom.len() > MAX_ROM_LEN {
            return Err(DisasmError::RomTooLarge);
        }
        self.bytes = rom;
        self.visited_addrs = Vec::new();
        self.code_groups = Vec::new();
        self.call_stack = Vec::new();
        proof {
            assert(self.ctx() =~~= init_context());
        }
        Ok(())
    }

    /// Whether the word returns from a subroutine.
    pub fn is_ret(opcode: u16) -> (r: bool)
        ensures
            r == spec_is_ret(opcode),
    {
        if opcode == 0x00EE {
            return true;
        }
        return false;
    }

    /// Whether the word is an unconditional jump.
    pub fn is_jmp(opcode: u16) -> (r: bool)
        ensures
            r == spec_is_jmp(opcode),
    {
        if opcode & 0xF000 == 0x1000 {
            return true;
        }
        return false;
    }

    /// Whether the word calls a subroutine.
    pub fn is_call(opcode: u16) -> (r: bool)
        ensures
            r == spec_is_call(opcode),
    {
        if opcode & 0xF000 == 0x2000 {
            return true;
        }
        return false;
    }

    /// Whether the word conditionally skips the next instruction.
    pub fn is_instr_skip(opcode: u16) -> (r: bool)
        ensures
            r == spec_is_skip(opcode),
    {
        if opcode & 0xF000 == 0x3000 {
            return true;
        } else if opcode & 0xF000 == 0x4000 {
            return true;
        } else if opcode & 0xF000 == 0x5000 {
            return true;
        } else if opcode & 0xF000 == 0x9000 {
            return true;
        } else if opcode & 0xF0FF == 0xE09E {
            return true;
        } else if opcode & 0xF0FF == 0xE0A1 {
            return true;
        } else {
            return false;
        }
    }

    /// How many successor paths the word opens.
    pub fn instr_branch_cnt(opcode: u16) -> (r: u8)
        ensures
            r == spec_branch_cnt(opcode),
    {
        if opcode == 0x00EE {
            return 1;
        }
        let base = opcode & 0xF000;
        if base == 0x1000 {
            1
        } else if base == 0x2000 {
            1
        } else if base == 0x3000 || base == 0x4000 || base == 0x5000 || base == 0x9000 || base
            == 0xE000 {
            2
        } else {
            0
        }
    }

    /// Decodes the instruction at internal address `address` into its
    /// mnemonic text.
    pub fn decode_instruction(&self, address: u16) -> (s: String)
        requires
            address as int + 1 < self.bytes@.len(),
        ensures
            s@ == mnemonic_text(word_at(self.bytes@, address as int)),
    {
        let a = address as usize;
        let opcode: u16 = ((self.bytes[a] as u16) << 8) | (self.bytes[a + 1] as u16);
        decode_opcode(opcode)
    }

    /// Explores one path from internal address `addr`, committing code
    /// groups as control transfers are met, exactly as the `explore`
    /// model walks it.  An already-visited address abandons the path and
    /// discards the group in progress; a path reaching ROM end commits
    /// whatever is in progress.
    #[verifier::loop_isolation(false)]
    pub fn recursive_traversal(&mut self, addr: u16)
        requires
            old(self).wf(),
        ensures
            final(self).wf(),
            final(self).bytes@ == old(self).bytes@,
            final(self).visited_addrs@.len() >= old(self).visited_addrs@.len(),
            final(self).ctx() == explore(
                old(self).bytes@,
                old(self).ctx(),
                addr as int,
                empty_group(addr as int),
                fuel_for(old(self).bytes@),
            ),
        decreases old(self).bytes@.len() - old(self).visited_addrs@.len(),
    {
        let ghost bytes0 = self.bytes@;
        let ghost ctx0 = self.ctx();
        let ghost addr0 = addr;
        let mut code_group = CodeGroup::new();
        code_group.label = make_label(addr);
        proof {
            assert(code_group@ =~~= empty_group(addr0 as int));
        }
        let mut addr = addr;
        while (addr as usize) + 1 < self.bytes.len()
            invariant
                self.wf(),
                self.bytes@ == bytes0,
                group_wf(code_group@),
                self.visited_addrs@.len() >= ctx0.visited.len(),
                explore(bytes0, ctx0, addr0 as int, empty_group(addr0 as int), fuel_for(bytes0))
                    == explore(bytes0, self.ctx(), addr as int, code_group@, fuel_for(bytes0)),
            decreases bytes0.len() - addr as int,
        {
            let ghost ctx_i = self.ctx();
            let ghost g_i = code_group@;
            let ghost fl = fuel_for(bytes0);

            if contains_addr(&self.visited_addrs, addr) {
                proof {
                    assert(explore(bytes0, ctx_i, addr as int, g_i, fl) == ctx_i);
                }
                return ;
            }
            let a = addr as usize;
            let hi = self.bytes[a];
            let lo = self.bytes[a + 1];
            let opcode: u16 = ((hi as u16) << 8) | (lo as u16);
            proof {
                assert(opcode == word_at(bytes0, addr as int));
            }
            let mnem = self.decode_instruction(addr);
            self.visited_addrs.push(addr);
            code_group.addrs.push(addr + ROM_START);
            code_group.opcodes.push(opcode);
            code_group.mnemonics.push(mnem);

            let ghost ctx1 = ContextModel {
                visited: ctx_i.visited.push(addr),
                stack: ctx_i.stack,
                groups: ctx_i.groups,
            };
            let ghost g1 = group_extend(g_i, addr as int, opcode);
            proof {
                assert(self.ctx() =~~= ctx1);
                assert(code_group@ =~~= g1);
                assert(ctx1.visited.no_duplicates()) by {
                    assert(forall|i: int|
                        0 <= i < ctx_i.visited.len() ==> ctx_i.visited[i] != addr);
                }
                assert(context_wf(bytes0, ctx1));
            }

            if Disassembler::is_ret(opcode) {
                self.code_groups.push(code_group);
                proof {
                    assert(self.ctx() =~~= commit_group(ctx1, g1));
                }
                if self.call_stack.len() > 0 {
                    let ret_addr = self.call_stack[self.call_stack.len() - 1];
                    self.call_stack.pop();
                    let ghost pre = self.ctx();
                    proof {
                        assert(pre =~~= ContextModel {
                            visited: ctx1.visited,
                            stack: ctx1.stack.drop_last(),
                            groups: commit_group(ctx1, g1).groups,
                        });
                        assert(context_wf(bytes0, pre));
                        lemma_visited_bounded(bytes0, pre);
                    }
                    self.recursive_traversal(ret_addr + INSTR_LEN as u16);
                    proof {
                        lemma_explore_fuel(
                            bytes0,
                            pre,
                            ret_addr as int + 2,
                            empty_group(ret_addr as int + 2),
                            (fl - 1) as nat,
                            fl,
                        );
                        assert(explore(bytes0, ctx_i, addr as int, g_i, fl) == explore(
                            bytes0,
                            pre,
                            ret_addr as int + 2,
                            empty_group(ret_addr as int + 2),
                            (fl - 1) as nat,
                        ));
                    }
                    return ;
                } else {
                    proof {
                        assert(explore(bytes0, ctx_i, addr as int, g_i, fl) == self.ctx());
                    }
                    return ;
                }
            } else if Disassembler::is_jmp(opcode) {
                self.code_groups.push(code_group);
                proof {
                    assert(self.ctx() =~~= commit_group(ctx1, g1));
                }
                let target = opcode & 0x0FFF;
                if target >= ROM_START {
                    let jmp_addr = target - ROM_START;
                    let ghost pre = self.ctx();
                    proof {
                        lemma_visited_bounded(bytes0, pre);
                    }
                    self.recursive_traversal(jmp_addr);
                    proof {
                        lemma_explore_fuel(
                            bytes0,
                            pre,
                            jmp_addr as int,
                            empty_group(jmp_addr as int),
                            (fl - 1) as nat,
                            fl,
                        );
                        assert(explore(bytes0, ctx_i, addr as int, g_i, fl) == explore(
                            bytes0,
                            pre,
                            jmp_addr as int,
                            empty_group(jmp_addr as int),
                            (fl - 1) as nat,
                        ));
                    }
                } else {
                    proof {
                        assert(explore(bytes0, ctx_i, addr as int, g_i, fl) == self.ctx());
                    }
                }
                return ;
            } else if Disassembler::is_call(opcode) {
                self.code_groups.push(code_group);
                proof {
                    assert(self.ctx() =~~= commit_group(ctx1, g1));
                }
                let target = opcode & 0x0FFF;
                if target >= ROM_START {
                    let call_addr = target - ROM_START;
                    self.call_stack.push(addr);
                    let ghost pre = self.ctx();
                    proof {
                        assert(pre =~~= ContextModel {
                            visited: ctx1.visited,
                            stack: ctx1.stack.push(addr),
                            groups: commit_group(ctx1, g1).groups,
                        });
                        assert(context_wf(bytes0, pre));
                        lemma_visited_bounded(bytes0, pre);
                    }
                    self.recursive_traversal(call_addr);
                    proof {
                        lemma_explore_fuel(
                            bytes0,
                            pre,
                            call_addr as int,
                            empty_group(call_addr as int),
                            (fl - 1) as nat,
                            fl,
                        );
                        assert(explore(bytes0, ctx_i, addr as int, g_i, fl) == explore(
                            bytes0,
                            pre,
                            call_addr as int,
                            empty_group(call_addr as int),
                            (fl - 1) as nat,
                        ));
                    }
                } else {
                    proof {
                        assert(explore(bytes0, ctx_i, addr as int, g_i, fl) == self.ctx());
                    }
                }
                return ;
            } else if Disassembler::is_instr_skip(opcode) {
                addr = addr + INSTR_LEN as u16;
                let ghost pre = self.ctx();
                proof {
                    lemma_visited_bounded(bytes0, pre);
                }
                self.recursive_traversal(addr + 2);
                proof {
                    lemma_explore_fuel(
                        bytes0,
                        pre,
                        addr as int + 2,
                        empty_group(addr as int + 2),
                        (fl - 1) as nat,
                        fl,
                    );
                    let st_taken = explore(
                        bytes0,
                        pre,
                        addr as int + 2,
                        empty_group(addr as int + 2),
                        (fl - 1) as nat,
                    );
                    assert(self.ctx() == st_taken);
                    lemma_explore_wf(
                        bytes0,
                        pre,
                        addr as int + 2,
                        empty_group(addr as int + 2),
                        (fl - 1) as nat,
                    );
                    assert(explore(bytes0, ctx_i, (addr - 2) as int, g_i, fl) == explore(
                        bytes0,
                        st_taken,
                        addr as int,
                        g1,
                        (fl - 1) as nat,
                    ));
                    lemma_explore_fuel(bytes0, st_taken, addr as int, g1, (fl - 1) as nat, fl);
                }
            } else {
                addr = addr + INSTR_LEN as u16;
                proof {
                    assert(explore(bytes0, ctx_i, (addr - 2) as int, g_i, fl) == explore(
                        bytes0,
                        ctx1,
                        addr as int,
                        g1,
                        (fl - 1) as nat,
                    ));
                    lemma_explore_fuel(bytes0, ctx1, addr as int, g1, (fl - 1) as nat, fl);
                }
            }
        }
        let ghost ctx_end = self.ctx();
        let ghost g_end = code_group@;
        if code_group.addrs.len() > 0 {
            self.code_groups.push(code_group);
        }
        proof {
            assert(explore(bytes0, ctx_end, addr as int, g_end, fuel_for(bytes0)) == commit_group(
                ctx_end,
                g_end,
            ));
            assert(self.ctx() =~~= commit_group(ctx_end, g_end));
        }
    }

    /// Renders the committed groups of the current run as the report.
    #[verifier::loop_isolation(false)]
    fn render(&self) -> (r: String)
        requires
            self.wf(),
        ensures
            r@ == full_report_text(self.bytes@.len(), self.ctx().groups),
    {
        let ghost gs = self.ctx().groups;
        let rom_len = self.bytes.len();
        let mut r = String::from_str("Rom Size ");
        r.append(to_hex(rom_len as u64).as_str());
        r.append(" (");
        r.append(to_dec(rom_len as u64).as_str());
        r.append(")\n");
        r.append("Code Groups: ");
        r.append(to_dec(self.code_groups.len() as u64).as_str());
        r.append("\n\n");
        let ghost header = r@;
        let mut k: usize = 0;
        while k < self.code_groups.len()
            invariant
                k <= self.code_groups.len(),
                r@ == header + groups_text_front(gs, k as int),
            decreases self.code_groups.len() - k,
        {
            let ghost gm = gs[k as int];
            proof {
                assert(self.code_groups@[k as int]@ == gm);
                assert(group_wf(gm));
            }
            append_group_text(&mut r, &self.code_groups[k]);
            proof {
                assert(r@ =~= header + groups_text_front(gs, k as int + 1));
            }
            k = k + 1;
        }
        r
    }

    /// Runs the whole disassembly from internal address zero and returns
    /// the rendered report.
    pub fn dissassemble(&mut self) -> (report: String)
        requires
            old(self).wf(),
            old(self).ctx() == init_context(),
        ensures
            final(self).wf(),
            final(self).bytes@ == old(self).bytes@,
            final(self).ctx().groups == disasm_groups(old(self).bytes@),
            no_overlap(final(self).ctx().groups),
            report@ == report_text(old(self).bytes@),
    {
        self.recursive_traversal(0x0);
        proof {
            lemma_no_overlap_run(self.bytes@);
        }
        self.render()
    }
}

} // verus!
