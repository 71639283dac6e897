//! Mathematical model of a disassembly run.
//!
//! `explore` is the specification of the traversal engine: a recursive
//! function over the ROM bytes and the traversal context (visited set,
//! call stack, committed groups).  The executable engine is proved to
//! compute exactly `explore`, and the laws about a run (determinism,
//! the no-overlap invariant) are proved of `explore` here.
//!
//! `explore` takes a fuel argument so that it is well defined for every
//! context; `lemma_explore_fuel` shows that any fuel of at least
//! `fuel_for` the ROM gives the same result, so the fuel is no part of
//! the meaning.

use vstd::prelude::*;
use crate::decode::{
    mnemonic_text,
    spec_is_call,
    spec_is_jmp,
    spec_is_ret,
    spec_is_skip,
    spec_nnn,
    word_at,
};
use crate::text::hex_text;

verus! {

/// Logical base address the ROM is mapped at.
pub const ROM_START: u16 = 0x200;

/// Bytes of addressable memory left above the base for a ROM.
pub const MAX_ROM_LEN: usize = 3584;

/// The label a code group entered at internal address `entry` carries.
pub open spec fn label_text(entry: int) -> Seq<char> {
    "loc_"@ + hex_text((entry + ROM_START) as nat) + ":"@
}

/// One committed code group: a label and, per instruction, the logical
/// address, the raw opcode and the mnemonic text.
#[verifier::ext_equal]
pub ghost struct GroupModel {
    pub label: Seq<char>,
    pub addrs: Seq<u16>,
    pub ops: Seq<u16>,
    pub mnemonics: Seq<Seq<char>>,
}

/// The traversal context: internal addresses already visited, the call
/// sites whose returns are still pending, and the committed groups in
/// discovery order.
#[verifier::ext_equal]
pub ghost struct ContextModel {
    pub visited: Seq<u16>,
    pub stack: Seq<u16>,
    pub groups: Seq<GroupModel>,
}

/// A freshly started, empty group for internal address `entry`.
pub open spec fn empty_group(entry: int) -> GroupModel {
    GroupModel { label: label_text(entry), addrs: Seq::empty(), ops: Seq::empty(), mnemonics: Seq::empty() }
}

/// The group `g` grown by the instruction `op` at internal address `addr`.
pub open spec fn group_extend(g: GroupModel, addr: int, op: u16) -> GroupModel {
    GroupModel {
        label: g.label,
        addrs: g.addrs.push((addr + ROM_START) as u16),
        ops: g.ops.push(op),
        mnemonics: g.mnemonics.push(mnemonic_text(op)),
    }
}

/// Commits `g`, unless it is empty: an exploration that decoded nothing
/// leaves no group behind.
pub open spec fn commit_group(st: ContextModel, g: GroupModel) -> ContextModel {
    if g.addrs.len() > 0 {
        ContextModel { visited: st.visited, stack: st.stack, groups: st.groups.push(g) }
    } else {
        st
    }
}

/// The context before any exploration.
pub open spec fn init_context() -> ContextModel {
    ContextModel { visited: Seq::empty(), stack: Seq::empty(), groups: Seq::empty() }
}

/// One exploration path from internal address `addr`, growing the group
/// `g`, exactly as the engine walks it:
///
/// - fewer than two bytes left: the path ends at ROM end and whatever is
///   in progress is committed;
/// - an already-visited address: the path is abandoned and the group in
///   progress is discarded (the engine's deliberate drop-on-revisit policy);
/// - a return commits the group and resumes after the most recent call
///   site, or ends silently when no call is pending;
/// - a jump or call commits the group and continues at the target, after
///   a bounds check that the logical target lies at or above the base;
/// - a conditional skip explores the skip-taken successor as a new group,
///   then continues in place with the group in progress;
/// - anything else falls through to the next instruction.
pub open spec fn explore(bytes: Seq<u8>, st: ContextModel, addr: int, g: GroupModel, fuel: nat) -> ContextModel
    decreases fuel,
{
    if fuel == 0 {
        st
    } else if !(0 <= addr && addr + 1 < bytes.len()) {
        commit_group(st, g)
    } else if st.visited.contains(addr as u16) {
        st
    } else {
        let op = word_at(bytes, addr);
        let st1 = ContextModel { visited: st.visited.push(addr as u16), stack: st.stack, groups: st.groups };
        let g1 = group_extend(g, addr, op);
        if spec_is_ret(op) {
            let st2 = commit_group(st1, g1);
            if st2.stack.len() > 0 {
                let site = st2.stack.last() as int;
                let st3 = ContextModel { visited: st2.visited, stack: st2.stack.drop_last(), groups: st2.groups };
                explore(bytes, st3, site + 2, empty_group(site + 2), (fuel - 1) as nat)
            } else {
                st2
            }
        } else if spec_is_jmp(op) {
            let st2 = commit_group(st1, g1);
            let target = spec_nnn(op) as int;
            if target >= ROM_START {
                explore(bytes, st2, target - ROM_START, empty_group(target - ROM_START), (fuel - 1) as nat)
            } else {
                st2
            }
        } else if spec_is_call(op) {
            let st2 = commit_group(st1, g1);
            let target = spec_nnn(op) as int;
            if target >= ROM_START {
                let st3 = ContextModel { visited: st2.visited, stack: st2.stack.push(addr as u16), groups: st2.groups };
                explore(bytes, st3, target - ROM_START, empty_group(target - ROM_START), (fuel - 1) as nat)
            } else {
                st2
            }
        } else if spec_is_skip(op) {
            let st_taken = explore(bytes, st1, addr + 4, empty_group(addr + 4), (fuel - 1) as nat);
            explore(bytes, st_taken, addr + 2, g1, (fuel - 1) as nat)
        } else {
            explore(bytes, st1, addr + 2, g1, (fuel - 1) as nat)
        }
    }
}

/// Fuel with which `explore` always runs to the end of the walk.
pub open spec fn fuel_for(bytes: Seq<u8>) -> nat {
    bytes.len() + 2
}

/// The committed groups of a whole run, entered at internal address zero.
pub open spec fn disasm_groups(bytes: Seq<u8>) -> Seq<GroupModel> {
    explore(bytes, init_context(), 0, empty_group(0), fuel_for(bytes)).groups
}

/// The three per-instruction columns of a group line up.
pub open spec fn group_wf(g: GroupModel) -> bool {
    g.ops.len() == g.addrs.len() && g.mnemonics.len() == g.addrs.len()
}

/// Well-formedness of a context against its ROM: visited addresses are
/// distinct starts of whole instructions, pending call sites are such
/// starts too, and every committed group lines up.
pub open spec fn context_wf(bytes: Seq<u8>, st: ContextModel) -> bool {
    &&& st.visited.no_duplicates()
    &&& forall|i: int| 0 <= i < st.visited.len() ==> (#[trigger] st.visited[i]) as int + 1 < bytes.len()
    &&& forall|i: int| 0 <= i < st.stack.len() ==> (#[trigger] st.stack[i]) as int + 1 < bytes.len()
    &&& forall|i: int| 0 <= i < st.groups.len() ==> group_wf(#[trigger] st.groups[i])
}

/// Distinct values below a bound cannot outnumber the bound.
pub proof fn lemma_distinct_bounded(s: Seq<u16>, n: int)
    requires
        s.no_duplicates(),
        n >= 0,
        forall|i: int| 0 <= i < s.len() ==> (((#[trigger] s[i]) as int) < n),
    ensures
        s.len() <= n,
    decreases n,
{
    if s.len() == 0 {
    } else if n == 0 {
        assert(((s[0]) as int) < 0);
    } else {
        if exists|i: int| 0 <= i < s.len() && (#[trigger] s[i]) as int == n - 1 {
            let i = choose|i: int| 0 <= i < s.len() && (#[trigger] s[i]) as int == n - 1;
            let s2 = s.remove(i);
            assert forall|j1: int, j2: int|
                0 <= j1 < s2.len() && 0 <= j2 < s2.len() && j1 != j2 implies s2[j1] != s2[j2] by {
                let k1: int = if j1 < i { j1 } else { j1 + 1 };
                let k2: int = if j2 < i { j2 } else { j2 + 1 };
                assert(s2[j1] == s[k1]);
                assert(s2[j2] == s[k2]);
            }
            assert forall|j: int| 0 <= j < s2.len() implies (((#[trigger] s2[j]) as int) < n - 1) by {
                let k: int = if j < i { j } else { j + 1 };
                assert(s2[j] == s[k]);
                assert(k != i ==> s[k] != s[i]);
            }
            lemma_distinct_bounded(s2, n - 1);
        } else {
            assert forall|j: int| 0 <= j < s.len() implies (((#[trigger] s[j]) as int) < n - 1) by {
                assert(!((s[j]) as int == n - 1));
            }
            lemma_distinct_bounded(s, n - 1);
        }
    }
}

/// A well-formed visited set fits inside the ROM.
pub proof fn lemma_visited_bounded(bytes: Seq<u8>, st: ContextModel)
    requires
        context_wf(bytes, st),
    ensures
        st.visited.len() <= bytes.len(),
{
    lemma_distinct_bounded(st.visited, bytes.len() as int);
}

/// Exploration preserves well-formedness, only appends to the visited
/// set and to the committed groups, and never forgets a visited address.
pub proof fn lemma_explore_wf(bytes: Seq<u8>, st: ContextModel, addr: int, g: GroupModel, fuel: nat)
    requires
        context_wf(bytes, st),
        group_wf(g),
    ensures
        context_wf(bytes, explore(bytes, st, addr, g, fuel)),
        explore(bytes, st, addr, g, fuel).visited.len() >= st.visited.len(),
        st.groups.is_prefix_of(explore(bytes, st, addr, g, fuel).groups),
        forall|x: u16|
            st.visited.contains(x) ==> #[trigger] explore(bytes, st, addr, g, fuel).visited.contains(x),
    decreases fuel,
{
    let r = explore(bytes, st, addr, g, fuel);
    if fuel == 0 {
        assert(st.groups.is_prefix_of(st.groups));
    } else if !(0 <= addr && addr + 1 < bytes.len()) {
        assert(commit_group(st, g).groups =~= if g.addrs.len() > 0 { st.groups.push(g) } else { st.groups });
        assert(st.groups.is_prefix_of(r.groups));
    } else if st.visited.contains(addr as u16) {
        assert(st.groups.is_prefix_of(st.groups));
    } else {
        let op = word_at(bytes, addr);
        let st1 = ContextModel { visited: st.visited.push(addr as u16), stack: st.stack, groups: st.groups };
        let g1 = group_extend(g, addr, op);
        assert(st1.visited.no_duplicates()) by {
            assert(forall|i: int| 0 <= i < st.visited.len() ==> st.visited[i] != addr as u16);
        }
        assert(context_wf(bytes, st1));
        assert(group_wf(g1));
        assert(forall|x: u16| st.visited.contains(x) ==> #[trigger] st1.visited.contains(x)) by {
            assert forall|x: u16| st.visited.contains(x) implies #[trigger] st1.visited.contains(x) by {
                let i = choose|i: int| 0 <= i < st.visited.len() && st.visited[i] == x;
                assert(st1.visited[i] == x);
            }
        }
        assert(st1.visited.contains(addr as u16)) by {
            assert(st1.visited[st.visited.len() as int] == addr as u16);
        }
        if spec_is_ret(op) {
            let st2 = commit_group(st1, g1);
            assert(context_wf(bytes, st2));
            assert(st.groups.is_prefix_of(st2.groups));
            if st2.stack.len() > 0 {
                let site = st2.stack.last() as int;
                let st3 = ContextModel { visited: st2.visited, stack: st2.stack.drop_last(), groups: st2.groups };
                assert(context_wf(bytes, st3)) by {
                    assert(forall|i: int|
                        0 <= i < st3.stack.len() ==> (#[trigger] st3.stack[i]) as int + 1 < bytes.len());
                }
                lemma_explore_wf(bytes, st3, site + 2, empty_group(site + 2), (fuel - 1) as nat);
                assert(st.groups.is_prefix_of(r.groups)) by {
                    assert(st3.groups.is_prefix_of(r.groups));
                    assert(r.groups.subrange(0, st.groups.len() as int)
                        =~= st3.groups.subrange(0, st.groups.len() as int));
                }
            }
        } else if spec_is_jmp(op) {
            let st2 = commit_group(st1, g1);
            assert(context_wf(bytes, st2));
            let target = spec_nnn(op) as int;
            if target >= ROM_START {
                lemma_explore_wf(bytes, st2, target - ROM_START, empty_group(target - ROM_START), (fuel - 1) as nat);
                assert(st.groups.is_prefix_of(r.groups)) by {
                    assert(st2.groups.is_prefix_of(r.groups));
                    assert(r.groups.subrange(0, st.groups.len() as int)
                        =~= st2.groups.subrange(0, st.groups.len() as int));
                }
            } else {
                assert(st.groups.is_prefix_of(st2.groups));
            }
        } else if spec_is_call(op) {
            let st2 = commit_group(st1, g1);
            let target = spec_nnn(op) as int;
            if target >= ROM_START {
                let st3 = ContextModel { visited: st2.visited, stack: st2.stack.push(addr as u16), groups: st2.groups };
                assert(context_wf(bytes, st3)) by {
                    assert(forall|i: int|
                        0 <= i < st3.stack.len() ==> (#[trigger] st3.stack[i]) as int + 1 < bytes.len());
                }
                lemma_explore_wf(bytes, st3, target - ROM_START, empty_group(target - ROM_START), (fuel - 1) as nat);
                assert(st.groups.is_prefix_of(r.groups)) by {
                    assert(st3.groups.is_prefix_of(r.groups));
                    assert(r.groups.subrange(0, st.groups.len() as int)
                        =~= st3.groups.subrange(0, st.groups.len() as int));
                }
            } else {
                assert(st.groups.is_prefix_of(commit_group(st1, g1).groups));
            }
        } else if spec_is_skip(op) {
            let st_taken = explore(bytes, st1, addr + 4, empty_group(addr + 4), (fuel - 1) as nat);
            lemma_explore_wf(bytes, st1, addr + 4, empty_group(addr + 4), (fuel - 1) as nat);
            lemma_explore_wf(bytes, st_taken, addr + 2, g1, (fuel - 1) as nat);
            assert(st.groups.is_prefix_of(r.groups)) by {
                assert(st1.groups.is_prefix_of(st_taken.groups));
                assert(st_taken.groups.is_prefix_of(r.groups));
                assert(r.groups.subrange(0, st.groups.len() as int)
                    =~= st_taken.groups.subrange(0, st.groups.len() as int));
            }
        } else {
            lemma_explore_wf(bytes, st1, addr + 2, g1, (fuel - 1) as nat);
        }
    }
}

/// Any two fuels that let the walk run to its end give the same result:
/// the fuel argument is a technical device, not part of the meaning.
pub proof fn lemma_explore_fuel(bytes: Seq<u8>, st: ContextModel, addr: int, g: GroupModel, f1: nat, f2: nat)
    requires
        context_wf(bytes, st),
        group_wf(g),
        f1 + st.visited.len() > bytes.len(),
        f2 + st.visited.len() > bytes.len(),
    ensures
        explore(bytes, st, addr, g, f1) == explore(bytes, st, addr, g, f2),
    decreases f1 + f2,
{
    lemma_visited_bounded(bytes, st);
    if !(0 <= addr && addr + 1 < bytes.len()) {
    } else if st.visited.contains(addr as u16) {
    } else {
        let op = word_at(bytes, addr);
        let st1 = ContextModel { visited: st.visited.push(addr as u16), stack: st.stack, groups: st.groups };
        let g1 = group_extend(g, addr, op);
        assert(st1.visited.no_duplicates()) by {
            assert(forall|i: int| 0 <= i < st.visited.len() ==> st.visited[i] != addr as u16);
        }
        assert(context_wf(bytes, st1));
        if spec_is_ret(op) {
            let st2 = commit_group(st1, g1);
            if st2.stack.len() > 0 {
                let site = st2.stack.last() as int;
                let st3 = ContextModel { visited: st2.visited, stack: st2.stack.drop_last(), groups: st2.groups };
                assert(context_wf(bytes, st3)) by {
                    assert(forall|i: int|
                        0 <= i < st3.stack.len() ==> (#[trigger] st3.stack[i]) as int + 1 < bytes.len());
                }
                lemma_explore_fuel(bytes, st3, site + 2, empty_group(site + 2), (f1 - 1) as nat, (f2 - 1) as nat);
            }
        } else if spec_is_jmp(op) {
            let st2 = commit_group(st1, g1);
            let target = spec_nnn(op) as int;
            if target >= ROM_START {
                lemma_explore_fuel(bytes, st2, target - ROM_START, empty_group(target - ROM_START),
                    (f1 - 1) as nat, (f2 - 1) as nat);
            }
        } else if spec_is_call(op) {
            let st2 = commit_group(st1, g1);
            let target = spec_nnn(op) as int;
            if target >= ROM_START {
                let st3 = ContextModel { visited: st2.visited, stack: st2.stack.push(addr as u16), groups: st2.groups };
                assert(context_wf(bytes, st3)) by {
                    assert(forall|i: int|
                        0 <= i < st3.stack.len() ==> (#[trigger] st3.stack[i]) as int + 1 < bytes.len());
                }
                lemma_explore_fuel(bytes, st3, target - ROM_START, empty_group(target - ROM_START),
                    (f1 - 1) as nat, (f2 - 1) as nat);
            }
        } else if spec_is_skip(op) {
            lemma_explore_fuel(bytes, st1, addr + 4, empty_group(addr + 4), (f1 - 1) as nat, (f2 - 1) as nat);
            let st_taken = explore(bytes, st1, addr + 4, empty_group(addr + 4), (f1 - 1) as nat);
            lemma_explore_wf(bytes, st1, addr + 4, empty_group(addr + 4), (f1 - 1) as nat);
            lemma_explore_fuel(bytes, st_taken, addr + 2, g1, (f1 - 1) as nat, (f2 - 1) as nat);
        } else {
            lemma_explore_fuel(bytes, st1, addr + 2, g1, (f1 - 1) as nat, (f2 - 1) as nat);
        }
    }
}

/// A logical address whose internal form has been visited.
pub open spec fn addr_ok(visited: Seq<u16>, l: u16) -> bool {
    &&& l >= ROM_START
    &&& visited.contains((l - ROM_START) as u16)
}

/// Every address of every group has been visited.
pub open spec fn all_covered(visited: Seq<u16>, gs: Seq<GroupModel>) -> bool {
    forall|k: int, i: int|
        0 <= k < gs.len() && 0 <= i < gs[k].addrs.len() ==> addr_ok(
            visited,
            #[trigger] gs[k].addrs[i],
        )
}

/// Every address of the group in progress has been visited.
pub open spec fn group_covered(visited: Seq<u16>, g: GroupModel) -> bool {
    forall|i: int| 0 <= i < g.addrs.len() ==> addr_ok(visited, #[trigger] g.addrs[i])
}

/// The group's own addresses are pairwise distinct.
pub open spec fn distinct_within(g: GroupModel) -> bool {
    forall|i1: int, i2: int|
        0 <= i1 < g.addrs.len() && 0 <= i2 < g.addrs.len() && i1 != i2 ==> #[trigger] g.addrs[i1]
            != #[trigger] g.addrs[i2]
}

/// The group in progress shares no address with any committed group.
pub open spec fn apart(gs: Seq<GroupModel>, g: GroupModel) -> bool {
    forall|k: int, i: int, j: int|
        0 <= k < gs.len() && 0 <= i < gs[k].addrs.len() && 0 <= j < g.addrs.len()
            ==> #[trigger] gs[k].addrs[i] != #[trigger] g.addrs[j]
}

/// No address appears twice across the committed groups: neither in two
/// groups nor twice in one.
pub open spec fn no_overlap(gs: Seq<GroupModel>) -> bool {
    forall|k1: int, i1: int, k2: int, i2: int|
        0 <= k1 < gs.len() && 0 <= i1 < gs[k1].addrs.len() && 0 <= k2 < gs.len() && 0 <= i2
            < gs[k2].addrs.len() && (k1 != k2 || i1 != i2) ==> #[trigger] gs[k1].addrs[i1]
            != #[trigger] gs[k2].addrs[i2]
}

/// The address `l` stands in some committed group.
pub open spec fn appears(gs: Seq<GroupModel>, l: u16) -> bool {
    exists|k: int, i: int|
        0 <= k < gs.len() && 0 <= i < gs[k].addrs.len() && #[trigger] gs[k].addrs[i] == l
}

/// The invariant the traversal keeps: committed groups own their
/// addresses exclusively, and everything committed or in progress has
/// been visited.
pub open spec fn run_inv(st: ContextModel, g: GroupModel) -> bool {
    &&& no_overlap(st.groups)
    &&& all_covered(st.visited, st.groups)
    &&& group_covered(st.visited, g)
    &&& distinct_within(g)
    &&& apart(st.groups, g)
}

proof fn lemma_contains_push(s: Seq<u16>, x: u16, y: u16)
    ensures
        s.contains(y) ==> s.push(x).contains(y),
{
    if s.contains(y) {
        let i = choose|i: int| 0 <= i < s.len() && s[i] == y;
        assert(s.push(x)[i] == y);
    }
}

proof fn lemma_push_no_overlap(gs: Seq<GroupModel>, g: GroupModel)
    requires
        no_overlap(gs),
        distinct_within(g),
        apart(gs, g),
    ensures
        no_overlap(gs.push(g)),
{
    let gs2 = gs.push(g);
    assert forall|k1: int, i1: int, k2: int, i2: int|
        0 <= k1 < gs2.len() && 0 <= i1 < gs2[k1].addrs.len() && 0 <= k2 < gs2.len() && 0 <= i2
            < gs2[k2].addrs.len() && (k1 != k2 || i1 != i2) implies #[trigger] gs2[k1].addrs[i1]
        != #[trigger] gs2[k2].addrs[i2] by {
        if k1 < gs.len() && k2 < gs.len() {
            assert(gs2[k1] == gs[k1] && gs2[k2] == gs[k2]);
        } else if k1 < gs.len() && k2 == gs.len() {
            assert(gs2[k1] == gs[k1] && gs2[k2] == g);
        } else if k1 == gs.len() && k2 < gs.len() {
            assert(gs2[k1] == g && gs2[k2] == gs[k2]);
        } else {
            assert(gs2[k1] == g && gs2[k2] == g);
        }
    }
}

proof fn lemma_push_covered(visited: Seq<u16>, gs: Seq<GroupModel>, g: GroupModel)
    requires
        all_covered(visited, gs),
        group_covered(visited, g),
    ensures
        all_covered(visited, gs.push(g)),
{
    let gs2 = gs.push(g);
    assert forall|k: int, i: int|
        0 <= k < gs2.len() && 0 <= i < gs2[k].addrs.len() implies addr_ok(
        visited,
        #[trigger] gs2[k].addrs[i],
    ) by {
        if k < gs.len() {
            assert(gs2[k] == gs[k]);
        } else {
            assert(gs2[k] == g);
        }
    }
}

/// Every address of every group handed back was committed in the groups
/// already present, in the group in progress, or at an address not yet
/// visited when the walk began.
pub open spec fn news_ok(st: ContextModel, g: GroupModel, rgs: Seq<GroupModel>) -> bool {
    forall|k: int, i: int|
        0 <= k < rgs.len() && 0 <= i < rgs[k].addrs.len() ==> appears(
            st.groups,
            #[trigger] rgs[k].addrs[i],
        ) || g.addrs.contains(rgs[k].addrs[i]) || !st.visited.contains(
            (rgs[k].addrs[i] - ROM_START) as u16,
        )
}

proof fn lemma_appears_push(gs: Seq<GroupModel>, g: GroupModel, l: u16)
    requires
        appears(gs.push(g), l),
    ensures
        appears(gs, l) || g.addrs.contains(l),
{
    let (k, i) = choose|k: int, i: int|
        0 <= k < gs.push(g).len() && 0 <= i < gs.push(g)[k].addrs.len() && #[trigger] gs.push(
            g,
        )[k].addrs[i] == l;
    if k < gs.len() {
        assert(gs[k].addrs[i] == l);
    } else {
        assert(gs.push(g)[k] == g);
        assert(g.addrs[i] == l);
    }
}

proof fn lemma_extend_contains(g: GroupModel, addr: int, op: u16, l: u16)
    requires
        group_extend(g, addr, op).addrs.contains(l),
    ensures
        g.addrs.contains(l) || l == ((addr + ROM_START) as u16),
{
    let g1 = group_extend(g, addr, op);
    let i = choose|i: int| 0 <= i < g1.addrs.len() && g1.addrs[i] == l;
    if i < g.addrs.len() {
        assert(g.addrs[i] == l);
    }
}

/// The step invariant after visiting the fresh address `addr` and
/// extending the group in progress by its instruction.
proof fn lemma_step_inv(st: ContextModel, g: GroupModel, addr: int, op: u16)
    requires
        0 <= addr,
        addr + ROM_START < 0x10000,
        !st.visited.contains(addr as u16),
        run_inv(st, g),
    ensures
        ({
            let st1 = ContextModel {
                visited: st.visited.push(addr as u16),
                stack: st.stack,
                groups: st.groups,
            };
            let g1 = group_extend(g, addr, op);
            run_inv(st1, g1)
        }),
{
    let av = addr as u16;
    let l0 = (addr + ROM_START) as u16;
    assert(l0 as int == addr + ROM_START);
    assert((l0 - ROM_START) as u16 == av);
    let st1 = ContextModel {
        visited: st.visited.push(av),
        stack: st.stack,
        groups: st.groups,
    };
    let g1 = group_extend(g, addr, op);
    assert(st1.visited[st.visited.len() as int] == av);
    assert(st1.visited.contains(av));
    assert forall|i: int| 0 <= i < g1.addrs.len() implies addr_ok(
        st1.visited,
        #[trigger] g1.addrs[i],
    ) by {
        if i < g.addrs.len() {
            assert(g1.addrs[i] == g.addrs[i]);
            assert(addr_ok(st.visited, g.addrs[i]));
            lemma_contains_push(st.visited, av, (g.addrs[i] - ROM_START) as u16);
        } else {
            assert(g1.addrs[i] == l0);
        }
    }
    assert forall|i1: int, i2: int|
        0 <= i1 < g1.addrs.len() && 0 <= i2 < g1.addrs.len() && i1 != i2 implies #[trigger] g1
        .addrs[i1] != #[trigger] g1.addrs[i2] by {
        if i1 < g.addrs.len() && i2 < g.addrs.len() {
            assert(g1.addrs[i1] == g.addrs[i1] && g1.addrs[i2] == g.addrs[i2]);
        } else if i1 < g.addrs.len() {
            assert(g1.addrs[i2] == l0 && g1.addrs[i1] == g.addrs[i1]);
            assert(addr_ok(st.visited, g.addrs[i1]));
            if g.addrs[i1] == l0 {
                assert(st.visited.contains(av));
            }
        } else {
            assert(g1.addrs[i1] == l0 && g1.addrs[i2] == g.addrs[i2]);
            assert(addr_ok(st.visited, g.addrs[i2]));
            if g.addrs[i2] == l0 {
                assert(st.visited.contains(av));
            }
        }
    }
    assert forall|k: int, i: int, j: int|
        0 <= k < st1.groups.len() && 0 <= i < st1.groups[k].addrs.len() && 0 <= j
            < g1.addrs.len() implies #[trigger] st1.groups[k].addrs[i] != #[trigger] g1.addrs[j] by {
        assert(addr_ok(st.visited, st.groups[k].addrs[i]));
        if j < g.addrs.len() {
            assert(g1.addrs[j] == g.addrs[j]);
        } else {
            assert(g1.addrs[j] == l0);
            if st.groups[k].addrs[i] == l0 {
                assert(st.visited.contains(av));
            }
        }
    }
    assert forall|k: int, i: int|
        0 <= k < st1.groups.len() && 0 <= i < st1.groups[k].addrs.len() implies addr_ok(
        st1.visited,
        #[trigger] st1.groups[k].addrs[i],
    ) by {
        assert(addr_ok(st.visited, st.groups[k].addrs[i]));
        lemma_contains_push(st.visited, av, (st.groups[k].addrs[i] - ROM_START) as u16);
    }
}

/// Carries `news_ok` back over one visit step: what held relative to the
/// stepped state holds relative to the state before it.
proof fn lemma_news_translate(
    st: ContextModel,
    g: GroupModel,
    addr: int,
    op: u16,
    committed: bool,
    mid: ContextModel,
    midg: GroupModel,
    rgs: Seq<GroupModel>,
)
    requires
        0 <= addr,
        addr + ROM_START < 0x10000,
        !st.visited.contains(addr as u16),
        mid.visited == st.visited.push(addr as u16),
        mid.groups == if committed {
            st.groups.push(group_extend(g, addr, op))
        } else {
            st.groups
        },
        if committed {
            midg.addrs.len() == 0
        } else {
            midg == group_extend(g, addr, op)
        },
        news_ok(mid, midg, rgs),
    ensures
        news_ok(st, g, rgs),
{
    let av = addr as u16;
    let l0 = (addr + ROM_START) as u16;
    assert(l0 as int == addr + ROM_START);
    assert((l0 - ROM_START) as u16 == av);
    let g1 = group_extend(g, addr, op);
    assert forall|k: int, i: int|
        0 <= k < rgs.len() && 0 <= i < rgs[k].addrs.len() implies appears(
        st.groups,
        #[trigger] rgs[k].addrs[i],
    ) || g.addrs.contains(rgs[k].addrs[i]) || !st.visited.contains(
        (rgs[k].addrs[i] - ROM_START) as u16,
    ) by {
        let l = rgs[k].addrs[i];
        assert(appears(mid.groups, l) || midg.addrs.contains(l) || !mid.visited.contains(
            (l - ROM_START) as u16,
        ));
        if appears(mid.groups, l) {
            if committed {
                lemma_appears_push(st.groups, g1, l);
                if g1.addrs.contains(l) {
                    lemma_extend_contains(g, addr, op, l);
                    if l == l0 {
                        assert(!st.visited.contains((l - ROM_START) as u16));
                    }
                }
            }
        } else if midg.addrs.contains(l) {
            assert(midg == g1);
            lemma_extend_contains(g, addr, op, l);
            if l == l0 {
                assert(!st.visited.contains((l - ROM_START) as u16));
            }
        } else {
            lemma_contains_push(st.visited, av, (l - ROM_START) as u16);
        }
    }
}

/// The walk commits no address into two groups: the invariant holds of
/// everything it hands back.
proof fn lemma_explore_no_overlap(bytes: Seq<u8>, st: ContextModel, addr: int, g: GroupModel, fuel: nat)
    requires
        bytes.len() <= MAX_ROM_LEN,
        run_inv(st, g),
    ensures
        no_overlap(explore(bytes, st, addr, g, fuel).groups),
        all_covered(
            explore(bytes, st, addr, g, fuel).visited,
            explore(bytes, st, addr, g, fuel).groups,
        ),
        news_ok(st, g, explore(bytes, st, addr, g, fuel).groups),
        forall|x: u16|
            st.visited.contains(x) ==> #[trigger] explore(
                bytes,
                st,
                addr,
                g,
                fuel,
            ).visited.contains(x),
    decreases fuel,
{
    let r = explore(bytes, st, addr, g, fuel);
    if fuel == 0 {
        assert(news_ok(st, g, st.groups));
    } else if !(0 <= addr && addr + 1 < bytes.len()) {
        if g.addrs.len() > 0 {
            lemma_push_no_overlap(st.groups, g);
            lemma_push_covered(st.visited, st.groups, g);
            assert forall|k: int, i: int|
                0 <= k < r.groups.len() && 0 <= i < r.groups[k].addrs.len() implies appears(
                st.groups,
                #[trigger] r.groups[k].addrs[i],
            ) || g.addrs.contains(r.groups[k].addrs[i]) || !st.visited.contains(
                (r.groups[k].addrs[i] - ROM_START) as u16,
            ) by {
                if k < st.groups.len() {
                    assert(r.groups[k] == st.groups[k]);
                    assert(appears(st.groups, st.groups[k].addrs[i]));
                } else {
                    assert(r.groups[k] == g);
                }
            }
        } else {
            assert(news_ok(st, g, st.groups));
        }
    } else if st.visited.contains(addr as u16) {
        assert(news_ok(st, g, st.groups));
    } else {
        let av = addr as u16;
        let op = word_at(bytes, addr);
        let st1 = ContextModel {
            visited: st.visited.push(av),
            stack: st.stack,
            groups: st.groups,
        };
        let g1 = group_extend(g, addr, op);
        lemma_step_inv(st, g, addr, op);
        assert(st1.visited[st.visited.len() as int] == av);
        assert(st1.visited.contains(av));
        assert(forall|x: u16|
            st.visited.contains(x) ==> #[trigger] st1.visited.contains(x)) by {
            assert forall|x: u16| st.visited.contains(x) implies #[trigger] st1.visited.contains(
                x,
            ) by {
                lemma_contains_push(st.visited, av, x);
            }
        }
        if spec_is_ret(op) || spec_is_jmp(op) || spec_is_call(op) {
            let st2 = commit_group(st1, g1);
            assert(st2.groups == st1.groups.push(g1));
            lemma_push_no_overlap(st1.groups, g1);
            lemma_push_covered(st1.visited, st1.groups, g1);
            let next: ContextModel = if spec_is_ret(op) {
                if st2.stack.len() > 0 {
                    ContextModel {
                        visited: st2.visited,
                        stack: st2.stack.drop_last(),
                        groups: st2.groups,
                    }
                } else {
                    st2
                }
            } else if spec_is_call(op) && spec_nnn(op) as int >= ROM_START {
                ContextModel { visited: st2.visited, stack: st2.stack.push(av), groups: st2.groups }
            } else {
                st2
            };
            assert(next.visited == st2.visited && next.groups == st2.groups);
            let recursing: bool = if spec_is_ret(op) {
                st2.stack.len() > 0
            } else {
                spec_nnn(op) as int >= ROM_START
            };
            let target: int = if spec_is_ret(op) {
                st2.stack.last() as int + 2
            } else {
                spec_nnn(op) as int - ROM_START
            };
            if recursing {
                let eg = empty_group(target);
                assert(run_inv(next, eg));
                lemma_explore_no_overlap(bytes, next, target, eg, (fuel - 1) as nat);
                assert(r == explore(bytes, next, target, eg, (fuel - 1) as nat));
                lemma_news_translate(st, g, addr, op, true, next, eg, r.groups);
            } else {
                assert(r == next);
                assert forall|k: int, i: int|
                    0 <= k < r.groups.len() && 0 <= i < r.groups[k].addrs.len() implies appears(
                    st.groups,
                    #[trigger] r.groups[k].addrs[i],
                ) || g.addrs.contains(r.groups[k].addrs[i]) || !st.visited.contains(
                    (r.groups[k].addrs[i] - ROM_START) as u16,
                ) by {
                    let l = r.groups[k].addrs[i];
                    if k < st.groups.len() {
                        assert(r.groups[k] == st.groups[k]);
                        assert(appears(st.groups, l));
                    } else {
                        assert(r.groups[k] == g1);
                        lemma_extend_contains(g, addr, op, l);
                        if l == (addr + ROM_START) as u16 {
                            assert(((addr + ROM_START) as u16 - ROM_START) as u16 == av);
                        }
                    }
                }
            }
        } else if spec_is_skip(op) {
            let ega = empty_group(addr + 4);
            assert(run_inv(st1, ega));
            lemma_explore_no_overlap(bytes, st1, addr + 4, ega, (fuel - 1) as nat);
            let st_taken = explore(bytes, st1, addr + 4, ega, (fuel - 1) as nat);
            assert(run_inv(st_taken, g1)) by {
                assert forall|i: int| 0 <= i < g1.addrs.len() implies addr_ok(
                    st_taken.visited,
                    #[trigger] g1.addrs[i],
                ) by {
                    assert(addr_ok(st1.visited, g1.addrs[i]));
                }
                assert forall|k: int, i: int, j: int|
                    0 <= k < st_taken.groups.len() && 0 <= i < st_taken.groups[k].addrs.len() && 0
                        <= j < g1.addrs.len() implies #[trigger] st_taken.groups[k].addrs[i]
                    != #[trigger] g1.addrs[j] by {
                    let lp = st_taken.groups[k].addrs[i];
                    let l = g1.addrs[j];
                    assert(appears(st1.groups, lp) || ega.addrs.contains(lp)
                        || !st1.visited.contains((lp - ROM_START) as u16));
                    if appears(st1.groups, lp) {
                        let (k0, i0) = choose|k0: int, i0: int|
                            0 <= k0 < st1.groups.len() && 0 <= i0 < st1.groups[k0].addrs.len()
                                && #[trigger] st1.groups[k0].addrs[i0] == lp;
                        assert(st1.groups[k0].addrs[i0] != g1.addrs[j]);
                    } else {
                        assert(!st1.visited.contains((lp - ROM_START) as u16));
                        assert(addr_ok(st1.visited, l));
                        if lp == l {
                            assert(st1.visited.contains((l - ROM_START) as u16));
                        }
                    }
                }
            }
            lemma_explore_no_overlap(bytes, st_taken, addr + 2, g1, (fuel - 1) as nat);
            assert(r == explore(bytes, st_taken, addr + 2, g1, (fuel - 1) as nat));
            assert(news_ok(st1, g1, r.groups)) by {
                assert forall|k: int, i: int|
                    0 <= k < r.groups.len() && 0 <= i < r.groups[k].addrs.len() implies appears(
                    st1.groups,
                    #[trigger] r.groups[k].addrs[i],
                ) || g1.addrs.contains(r.groups[k].addrs[i]) || !st1.visited.contains(
                    (r.groups[k].addrs[i] - ROM_START) as u16,
                ) by {
                    let l = r.groups[k].addrs[i];
                    assert(appears(st_taken.groups, l) || g1.addrs.contains(l)
                        || !st_taken.visited.contains((l - ROM_START) as u16));
                    if appears(st_taken.groups, l) {
                        let (k0, i0) = choose|k0: int, i0: int|
                            0 <= k0 < st_taken.groups.len() && 0 <= i0
                                < st_taken.groups[k0].addrs.len() && #[trigger] st_taken.groups[
                                k0].addrs[i0] == l;
                        assert(appears(st1.groups, l) || ega.addrs.contains(l)
                            || !st1.visited.contains((l - ROM_START) as u16));
                    } else if g1.addrs.contains(l) {
                    } else {
                        assert(!st_taken.visited.contains((l - ROM_START) as u16));
                    }
                }
            }
            lemma_news_translate(st, g, addr, op, false, st1, g1, r.groups);
        } else {
            assert(run_inv(st1, g1));
            lemma_explore_no_overlap(bytes, st1, addr + 2, g1, (fuel - 1) as nat);
            assert(r == explore(bytes, st1, addr + 2, g1, (fuel - 1) as nat));
            lemma_news_translate(st, g, addr, op, false, st1, g1, r.groups);
        }
    }
}

/// No internal address is ever committed into two different code groups
/// across a run, nor twice into one.
pub proof fn lemma_no_overlap_run(bytes: Seq<u8>)
    requires
        bytes.len() <= MAX_ROM_LEN,
    ensures
        no_overlap(disasm_groups(bytes)),
{
    lemma_explore_no_overlap(bytes, init_context(), 0, empty_group(0), fuel_for(bytes));
}

/// Two disassembly runs over identical ROM bytes produce identical,
/// order-preserving sequences of code groups: a run's outcome is a
/// function of the ROM bytes alone.
pub proof fn lemma_deterministic(b1: Seq<u8>, b2: Seq<u8>)
    requires
        b1 == b2,
    ensures
        disasm_groups(b1) == disasm_groups(b2),
{
}

} // verus!
