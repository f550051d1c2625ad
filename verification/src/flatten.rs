//! Control-flow lowering: from structured branches to labels and jumps.
//!
//! The assembler backend consumes a flat buffer. A [`crate::ir::Instr::Branch`]
//! becomes the classical diamond: a jump-if-zero to an else label, the
//! consequent, a jump to an end label, the alternative, the end label. A
//! label's identifier is its own position in the buffer, so label
//! identifiers are unique by construction, and [`flat_wf`] pins down what a
//! backend may rely on: every jump goes strictly forward to a label that
//! carries exactly the jumped-to position, and every slot index lies
//! inside the register pool.
//!
//! The pass is proved semantics-preserving: [`exec_flat`] gives the flat
//! form a meaning of its own, driven by a program counter and the jumps,
//! and [`lemma_flat_program_runs`] shows it agrees with the structured
//! buffer's meaning on every start state.

use vstd::prelude::*;
use crate::ast::{POOL_SIZE, TAG_CHAR};
use crate::ir::{Instr, code_slots_ok, instr_slots_ok};
use crate::codegen::Program;
use crate::semantics::{State, Machine, exec_code, exec_instr, low_byte};

verus! {

/// One instruction of the flat, label-based form. `Ret` ends the program.
#[derive(Clone, Copy, Debug, PartialEq, Eq)]
pub enum FlatInstr {
    MovImm { slot: usize, imm: i64 },
    SetTag { tag: u64 },
    GuardTag { tag: u64 },
    AddImm { slot: usize, imm: i64 },
    SelectZero { src: usize },
    SelectCharTag { slot: usize },
    Mov { dst: usize, src: usize },
    ReadByte,
    WriteByte,
    Fault,
    /// Jump to `target` when `slot` holds zero.
    JmpIfZero { slot: usize, target: usize },
    Jmp { target: usize },
    /// Jump target; `id` equals the label's own position in the buffer.
    Label { id: usize },
    Ret,
}

/// Slot bounds of a branch-free flat instruction.
pub open spec fn flat_slots_ok(f: FlatInstr) -> bool {
    match f {
        FlatInstr::MovImm { slot, .. } => slot < POOL_SIZE,
        FlatInstr::AddImm { slot, .. } => slot < POOL_SIZE,
        FlatInstr::SelectZero { src } => src < POOL_SIZE,
        FlatInstr::SelectCharTag { slot } => slot < POOL_SIZE,
        FlatInstr::Mov { dst, src } => dst < POOL_SIZE && src < POOL_SIZE,
        FlatInstr::JmpIfZero { .. } => false,
        FlatInstr::Jmp { .. } => false,
        FlatInstr::Label { .. } => false,
        _ => true,
    }
}

/// The flat image of a branch-free instruction.
pub open spec fn flat_of(i: Instr) -> FlatInstr {
    match i {
        Instr::MovImm { slot, imm } => FlatInstr::MovImm { slot, imm },
        Instr::SetTag { tag } => FlatInstr::SetTag { tag },
        Instr::GuardTag { tag } => FlatInstr::GuardTag { tag },
        Instr::AddImm { slot, imm } => FlatInstr::AddImm { slot, imm },
        Instr::SelectZero { src } => FlatInstr::SelectZero { src },
        Instr::SelectCharTag { slot } => FlatInstr::SelectCharTag { slot },
        Instr::Mov { dst, src } => FlatInstr::Mov { dst, src },
        Instr::ReadByte => FlatInstr::ReadByte,
        Instr::WriteByte => FlatInstr::WriteByte,
        _ => FlatInstr::Fault,
    }
}

/// What position `k` of the buffer may hold when every jump must land on a
/// self-indexed label strictly ahead of it and strictly below `hi`.
pub open spec fn seg_instr_ok(c: Seq<FlatInstr>, k: int, hi: int) -> bool {
    match c[k] {
        FlatInstr::JmpIfZero { slot, target } => {
            &&& slot < POOL_SIZE
            &&& k < target < hi
            &&& c[target as int] == (FlatInstr::Label { id: target })
        },
        FlatInstr::Jmp { target } => {
            &&& k < target < hi
            &&& c[target as int] == (FlatInstr::Label { id: target })
        },
        FlatInstr::Label { id } => id == k,
        f => flat_slots_ok(f),
    }
}

/// The half-open range `[lo, hi)` of the buffer is internally consistent:
/// jumps stay inside the range and land on self-indexed labels.
pub open spec fn seg_ok(c: Seq<FlatInstr>, lo: int, hi: int) -> bool {
    forall|k: int| lo <= k < hi ==> seg_instr_ok(c, k, hi)
}

/// A whole flat buffer is consistent.
pub open spec fn flat_wf(c: Seq<FlatInstr>) -> bool {
    seg_ok(c, 0, c.len() as int)
}

/// Consistency of a finished range survives growing the buffer and the
/// bound, as long as the range itself is untouched.
proof fn lemma_seg_entries_ok(c1: Seq<FlatInstr>, c2: Seq<FlatInstr>, lo: int, hi: int, hi2: int)
    requires
        seg_ok(c1, lo, hi),
        0 <= lo <= hi <= hi2,
        hi <= c1.len(),
        hi2 <= c2.len(),
        forall|k: int| lo <= k < hi ==> c2[k] == c1[k],
    ensures
        forall|k: int| lo <= k < hi ==> seg_instr_ok(c2, k, hi2),
{
    assert forall|k: int| lo <= k < hi implies seg_instr_ok(c2, k, hi2) by {
        assert(seg_instr_ok(c1, k, hi));
        assert(c2[k] == c1[k]);
        match c1[k] {
            FlatInstr::JmpIfZero { slot, target } => {
                assert(c2[target as int] == c1[target as int]);
            },
            FlatInstr::Jmp { target } => {
                assert(c2[target as int] == c1[target as int]);
            },
            _ => {},
        }
    }
}

/// Lower one structured buffer into `out`, appending only, and patching
/// only the jumps this call itself created. What comes out is the exact
/// image of `code`: consistent ([`seg_ok`]) and semantics-preserving
/// ([`flattens_to`], [`lemma_flat_simulation`]).
pub fn flatten_into(code: &Vec<Instr>, out: &mut Vec<FlatInstr>)
    requires
        code_slots_ok(code@),
    ensures
        final(out)@.len() == old(out)@.len() + flat_len_code(code@),
        final(out)@.len() >= old(out)@.len(),
        forall|j: int| 0 <= j < old(out)@.len() ==> final(out)@[j] == old(out)@[j],
        seg_ok(final(out)@, old(out)@.len() as int, final(out)@.len() as int),
        flattens_to(code@, final(out)@, old(out)@.len() as int),
    decreases code@,
{
    let ghost base = old(out)@.len() as int;
    proof {
        assert(code@.subrange(0, 0) =~= Seq::<Instr>::empty());
    }
    let mut k: usize = 0;
    while k < code.len()
        invariant
            base == old(out)@.len() as int,
            code_slots_ok(code@),
            k <= code.len(),
            out@.len() >= base,
            out@.len() == base + flat_len_code(code@.subrange(0, k as int)),
            forall|j: int| 0 <= j < base ==> out@[j] == old(out)@[j],
            seg_ok(out@, base, out@.len() as int),
            flattens_to(code@.subrange(0, k as int), out@, base),
        decreases code@.len() - k,
    {
        let ghost pre = out@;
        let ghost prefix = code@.subrange(0, k as int);
        proof {
            assert(instr_slots_ok(code@[k as int]));
            assert(code@.subrange(0, k + 1) =~= prefix.push(code@[k as int]));
            lemma_flat_len_code_snoc(prefix, code@[k as int]);
        }
        match &code[k] {
            Instr::Branch { cond, then_code, else_code } => {
                let jz_at = out.len();
                out.push(FlatInstr::JmpIfZero { slot: *cond, target: 0 });
                proof {
                    assert(decreases_to!(code@ => code@[k as int]));
                    assert(decreases_to!(code@[k as int] => then_code@));
                }
                let ghost pre_then = out@;
                flatten_into(then_code, out);
                let ghost post_then = out@;
                let jmp_at = out.len();
                out.push(FlatInstr::Jmp { target: 0 });
                let else_at = out.len();
                out.push(FlatInstr::Label { id: else_at });
                out.set(jz_at, FlatInstr::JmpIfZero { slot: *cond, target: else_at });
                proof {
                    assert(decreases_to!(code@ => code@[k as int]));
                    assert(decreases_to!(code@[k as int] => else_code@));
                }
                let ghost pre_else = out@;
                flatten_into(else_code, out);
                let ghost post_else = out@;
                let end_at = out.len();
                out.push(FlatInstr::Label { id: end_at });
                out.set(jmp_at, FlatInstr::Jmp { target: end_at });
                let fin_len = out.len();
                proof {
                    let cur = out@;
                    let hi = cur.len() as int;
                    assert(fin_len as int == end_at + 1);
                    // Positions at and before the segment's start are as
                    // they were, except the two patched jumps.
                    assert forall|j: int| 0 <= j < base implies cur[j] == old(out)@[j] by {
                        assert(cur[j] == pre[j]);
                    }
                    // The already-finished part of this call's segment.
                    lemma_seg_entries_ok(pre, cur, base, jz_at as int, hi);
                    // The consequent's inner segment.
                    lemma_seg_entries_ok(
                        post_then,
                        cur,
                        jz_at as int + 1,
                        jmp_at as int,
                        hi,
                    );
                    // The alternative's inner segment.
                    lemma_seg_entries_ok(
                        post_else,
                        cur,
                        else_at as int + 1,
                        end_at as int,
                        hi,
                    );
                    // The two jumps, the two labels.
                    assert(cur[jz_at as int] == (FlatInstr::JmpIfZero {
                        slot: *cond,
                        target: else_at,
                    }));
                    assert(cur[jmp_at as int] == (FlatInstr::Jmp { target: end_at }));
                    assert(cur[else_at as int] == (FlatInstr::Label { id: else_at }));
                    assert(cur[end_at as int] == (FlatInstr::Label { id: end_at }));
                    assert forall|j: int| base <= j < hi implies seg_instr_ok(cur, j, hi) by {
                        if j < jz_at as int {
                        } else if j == jz_at as int {
                        } else if j < jmp_at as int {
                        } else if j == jmp_at as int {
                        } else if j == else_at as int {
                        } else if j < end_at as int {
                        } else {
                        }
                    }
                    // The branch diamond is the image of this instruction.
                    let tl = flat_len_code(then_code@);
                    let el = flat_len_code(else_code@);
                    assert(jmp_at as int == jz_at + 1 + tl);
                    assert(end_at as int == jmp_at + 2 + el);
                    assert forall|j: int| jz_at + 1 <= j < jmp_at as int implies cur[j]
                        == post_then[j] by {}
                    assert forall|j: int| jmp_at + 2 <= j < end_at as int implies cur[j]
                        == post_else[j] by {}
                    lemma_flattens_to_stable(then_code@, post_then, cur, jz_at as int + 1);
                    lemma_flattens_to_stable(else_code@, post_else, cur, jmp_at as int + 2);
                    assert(instr_flattens_to(code@[k as int], cur, jz_at as int));
                    // The earlier images are untouched, and the new one
                    // joins them.
                    assert forall|j: int| base <= j < jz_at as int implies cur[j] == pre[j] by {}
                    lemma_flattens_to_stable(prefix, pre, cur, base);
                    lemma_flattens_to_snoc(prefix, code@[k as int], cur, base);
                    assert(flattens_to(code@.subrange(0, k + 1), cur, base));
                }
            },
            other => {
                let f = flatten_simple(other);
                out.push(f);
                let fin_len = out.len();
                proof {
                    let cur = out@;
                    let hi = cur.len() as int;
                    assert(fin_len as int == pre.len() + 1);
                    lemma_seg_entries_ok(pre, cur, base, pre.len() as int, hi);
                    assert(cur[pre.len() as int] == f);
                    assert forall|j: int| base <= j < hi implies seg_instr_ok(cur, j, hi) by {}
                    // The new entry is the image of this instruction, and
                    // it joins the earlier images.
                    assert(instr_flattens_to(code@[k as int], cur, pre.len() as int));
                    lemma_flattens_to_stable(prefix, pre, cur, base);
                    lemma_flattens_to_snoc(prefix, code@[k as int], cur, base);
                    assert(flattens_to(code@.subrange(0, k + 1), cur, base));
                }
            },
        }
        k = k + 1;
    }
    proof {
        assert(code@.subrange(0, k as int) =~= code@);
    }
}

/// Map one branch-free instruction to its flat image.
fn flatten_simple(i: &Instr) -> (r: FlatInstr)
    requires
        !(i matches Instr::Branch { .. }),
        instr_slots_ok(*i),
    ensures
        r == flat_of(*i),
        flat_slots_ok(r),
{
    match i {
        Instr::MovImm { slot, imm } => FlatInstr::MovImm { slot: *slot, imm: *imm },
        Instr::SetTag { tag } => FlatInstr::SetTag { tag: *tag },
        Instr::GuardTag { tag } => FlatInstr::GuardTag { tag: *tag },
        Instr::AddImm { slot, imm } => FlatInstr::AddImm { slot: *slot, imm: *imm },
        Instr::SelectZero { src } => FlatInstr::SelectZero { src: *src },
        Instr::SelectCharTag { slot } => FlatInstr::SelectCharTag { slot: *slot },
        Instr::Mov { dst, src } => FlatInstr::Mov { dst: *dst, src: *src },
        Instr::ReadByte => FlatInstr::ReadByte,
        Instr::WriteByte => FlatInstr::WriteByte,
        Instr::Fault => FlatInstr::Fault,
        Instr::Branch { .. } => {
            proof {
                assert(false);
            }
            FlatInstr::Fault
        },
    }
}

/// How many flat instructions the image of one structured instruction
/// occupies: one, or the whole branch diamond.
pub open spec fn flat_len(i: Instr) -> int
    decreases i,
{
    match i {
        Instr::Branch { then_code, else_code, .. } => 4 + flat_len_code(then_code@)
            + flat_len_code(else_code@),
        _ => 1,
    }
}

/// How many flat instructions the image of a structured buffer occupies.
pub open spec fn flat_len_code(c: Seq<Instr>) -> int
    decreases c,
{
    if c.len() == 0 {
        0
    } else {
        flat_len(c[0]) + flat_len_code(c.subrange(1, c.len() as int))
    }
}

/// Image lengths are positive.
proof fn lemma_flat_len_pos(i: Instr)
    ensures
        flat_len(i) >= 1,
    decreases i,
{
    match i {
        Instr::Branch { then_code, else_code, .. } => {
            lemma_flat_len_code_nonneg(then_code@);
            lemma_flat_len_code_nonneg(else_code@);
        },
        _ => {},
    }
}

/// Image lengths of buffers are nonnegative.
proof fn lemma_flat_len_code_nonneg(c: Seq<Instr>)
    ensures
        flat_len_code(c) >= 0,
    decreases c,
{
    if c.len() > 0 {
        lemma_flat_len_pos(c[0]);
        lemma_flat_len_code_nonneg(c.subrange(1, c.len() as int));
    }
}

/// The image length of a buffer grows by the appended instruction's.
proof fn lemma_flat_len_code_snoc(c: Seq<Instr>, i: Instr)
    ensures
        flat_len_code(c.push(i)) == flat_len_code(c) + flat_len(i),
    decreases c,
{
    let w = c.push(i);
    if c.len() == 0 {
        assert(w[0] == i);
        assert(w.subrange(1, w.len() as int) =~= Seq::<Instr>::empty());
        assert(flat_len_code(Seq::<Instr>::empty()) == 0);
    } else {
        assert(w[0] == c[0]);
        assert(w.subrange(1, w.len() as int) =~= c.subrange(1, c.len() as int).push(i));
        lemma_flat_len_code_snoc(c.subrange(1, c.len() as int), i);
    }
}

/// The flat instructions from `lo` on are the image of the structured
/// buffer `c`: one flat instruction per branch-free instruction, the jump
/// diamond for each branch, every position computed from the structure.
pub open spec fn flattens_to(c: Seq<Instr>, f: Seq<FlatInstr>, lo: int) -> bool
    decreases c,
{
    if c.len() == 0 {
        true
    } else {
        instr_flattens_to(c[0], f, lo) && flattens_to(
            c.subrange(1, c.len() as int),
            f,
            lo + flat_len(c[0]),
        )
    }
}

/// The flat instructions from `lo` on begin with the image of `i`.
pub open spec fn instr_flattens_to(i: Instr, f: Seq<FlatInstr>, lo: int) -> bool
    decreases i,
{
    match i {
        Instr::Branch { cond, then_code, else_code } => {
            let jmp_at = lo + 1 + flat_len_code(then_code@);
            let end_at = jmp_at + 2 + flat_len_code(else_code@);
            &&& 0 <= lo
            &&& end_at + 1 <= f.len()
            &&& f.len() <= usize::MAX
            &&& f[lo] == (FlatInstr::JmpIfZero { slot: cond, target: (jmp_at + 1) as usize })
            &&& f[jmp_at] == (FlatInstr::Jmp { target: end_at as usize })
            &&& f[jmp_at + 1] == (FlatInstr::Label { id: (jmp_at + 1) as usize })
            &&& f[end_at] == (FlatInstr::Label { id: end_at as usize })
            &&& flattens_to(then_code@, f, lo + 1)
            &&& flattens_to(else_code@, f, jmp_at + 2)
        },
        _ => {
            &&& 0 <= lo
            &&& lo + 1 <= f.len()
            &&& f[lo] == flat_of(i)
        },
    }
}

/// An image is untouched by changes to the buffer outside its range.
proof fn lemma_flattens_to_stable(c: Seq<Instr>, f1: Seq<FlatInstr>, f2: Seq<FlatInstr>, lo: int)
    requires
        flattens_to(c, f1, lo),
        lo + flat_len_code(c) <= f2.len(),
        f2.len() <= usize::MAX,
        forall|k: int| lo <= k < lo + flat_len_code(c) ==> f2[k] == f1[k],
    ensures
        flattens_to(c, f2, lo),
    decreases c,
{
    if c.len() > 0 {
        let rest = c.subrange(1, c.len() as int);
        lemma_flat_len_pos(c[0]);
        lemma_flat_len_code_nonneg(rest);
        lemma_instr_flattens_to_stable(c[0], f1, f2, lo);
        lemma_flattens_to_stable(rest, f1, f2, lo + flat_len(c[0]));
    }
}

/// One instruction's image is untouched by changes outside its range.
proof fn lemma_instr_flattens_to_stable(
    i: Instr,
    f1: Seq<FlatInstr>,
    f2: Seq<FlatInstr>,
    lo: int,
)
    requires
        instr_flattens_to(i, f1, lo),
        lo + flat_len(i) <= f2.len(),
        f2.len() <= usize::MAX,
        forall|k: int| lo <= k < lo + flat_len(i) ==> f2[k] == f1[k],
    ensures
        instr_flattens_to(i, f2, lo),
    decreases i,
{
    match i {
        Instr::Branch { cond, then_code, else_code } => {
            let jmp_at = lo + 1 + flat_len_code(then_code@);
            let end_at = jmp_at + 2 + flat_len_code(else_code@);
            lemma_flat_len_code_nonneg(then_code@);
            lemma_flat_len_code_nonneg(else_code@);
            lemma_flattens_to_stable(then_code@, f1, f2, lo + 1);
            lemma_flattens_to_stable(else_code@, f1, f2, jmp_at + 2);
            assert(f2[lo] == f1[lo]);
            assert(f2[jmp_at] == f1[jmp_at]);
            assert(f2[jmp_at + 1] == f1[jmp_at + 1]);
            assert(f2[end_at] == f1[end_at]);
        },
        _ => {
            assert(f2[lo] == f1[lo]);
        },
    }
}

/// Appending one image after a sequence image joins them.
proof fn lemma_flattens_to_snoc(c: Seq<Instr>, i: Instr, f: Seq<FlatInstr>, lo: int)
    requires
        flattens_to(c, f, lo),
        instr_flattens_to(i, f, lo + flat_len_code(c)),
    ensures
        flattens_to(c.push(i), f, lo),
    decreases c,
{
    let w = c.push(i);
    if c.len() == 0 {
        assert(w[0] == i);
        assert(w.subrange(1, w.len() as int) =~= Seq::<Instr>::empty());
        assert(flattens_to(w.subrange(1, w.len() as int), f, lo + flat_len(i)));
    } else {
        let rest = c.subrange(1, c.len() as int);
        assert(w[0] == c[0]);
        assert(w.subrange(1, w.len() as int) =~= rest.push(i));
        lemma_flat_len_code_snoc(rest, i);
        lemma_flattens_to_snoc(rest, i, f, lo + flat_len(c[0]));
    }
}

/// Meaning of the flat form: run from `pc`, following jumps, until the
/// buffer ends, a `Ret` is reached, or the program faults. Only consistent
/// buffers ([`flat_wf`]) have a meaning: their jumps go strictly forward,
/// so every run ends.
pub open spec fn exec_flat(f: Seq<FlatInstr>, pc: int, st: State) -> Option<State>
    decreases f.len() - pc
        when 0 <= pc <= f.len() && flat_wf(f)
{
    if pc == f.len() {
        Some(st)
    } else {
        proof {
            assert(seg_instr_ok(f, pc, f.len() as int));
        }
        match f[pc] {
            FlatInstr::MovImm { slot, imm } => exec_flat(
                f,
                pc + 1,
                State { regs: st.regs.update(slot as int, imm), ..st },
            ),
            FlatInstr::SetTag { tag } => exec_flat(f, pc + 1, State { tag, ..st }),
            FlatInstr::GuardTag { tag } => if st.tag == tag {
                exec_flat(f, pc + 1, st)
            } else {
                None
            },
            FlatInstr::AddImm { slot, imm } => exec_flat(
                f,
                pc + 1,
                State {
                    regs: st.regs.update(
                        slot as int,
                        vstd::wrapping::i64_specs::wrapping_add(st.regs[slot as int], imm),
                    ),
                    ..st
                },
            ),
            FlatInstr::SelectZero { src } => exec_flat(
                f,
                pc + 1,
                State {
                    regs: st.regs.update(0, if st.regs[src as int] == 0 { 1i64 } else { 0i64 }),
                    ..st
                },
            ),
            FlatInstr::SelectCharTag { slot } => exec_flat(
                f,
                pc + 1,
                State {
                    regs: st.regs.update(slot as int, if st.tag == TAG_CHAR { 1i64 } else { 0i64 }),
                    ..st
                },
            ),
            FlatInstr::Mov { dst, src } => exec_flat(
                f,
                pc + 1,
                State { regs: st.regs.update(dst as int, st.regs[src as int]), ..st },
            ),
            FlatInstr::ReadByte => exec_flat(
                f,
                pc + 1,
                State { regs: st.regs.update(0, st.next_byte()), pos: st.next_pos(), ..st },
            ),
            FlatInstr::WriteByte => exec_flat(
                f,
                pc + 1,
                State { output: st.output.push(low_byte(st.regs[0])), ..st },
            ),
            FlatInstr::Fault => None,
            FlatInstr::JmpIfZero { slot, target } => if st.regs[slot as int] == 0 {
                exec_flat(f, target as int, st)
            } else {
                exec_flat(f, pc + 1, st)
            },
            FlatInstr::Jmp { target } => exec_flat(f, target as int, st),
            FlatInstr::Label { .. } => exec_flat(f, pc + 1, st),
            FlatInstr::Ret => Some(st),
        }
    }
}

/// The simulation: running the flat image of `c` from `lo` is running `c`
/// and continuing after the image. Faults coincide exactly.
pub proof fn lemma_flat_simulation(c: Seq<Instr>, f: Seq<FlatInstr>, lo: int, st: State)
    requires
        flattens_to(c, f, lo),
        flat_wf(f),
        0 <= lo,
        lo + flat_len_code(c) <= f.len(),
    ensures
        exec_flat(f, lo, st) == match exec_code(c, st) {
            Some(st1) => exec_flat(f, lo + flat_len_code(c), st1),
            None => None,
        },
    decreases c,
{
    if c.len() == 0 {
    } else {
        let rest = c.subrange(1, c.len() as int);
        lemma_flat_len_pos(c[0]);
        lemma_flat_len_code_nonneg(rest);
        lemma_flat_simulation_instr(c[0], f, lo, st);
        match exec_instr(c[0], st) {
            Some(st1) => {
                lemma_flat_simulation(rest, f, lo + flat_len(c[0]), st1);
            },
            None => {},
        }
    }
}

/// The simulation for one structured instruction.
proof fn lemma_flat_simulation_instr(i: Instr, f: Seq<FlatInstr>, lo: int, st: State)
    requires
        instr_flattens_to(i, f, lo),
        flat_wf(f),
        0 <= lo,
        lo + flat_len(i) <= f.len(),
    ensures
        exec_flat(f, lo, st) == match exec_instr(i, st) {
            Some(st1) => exec_flat(f, lo + flat_len(i), st1),
            None => None,
        },
    decreases i,
{
    match i {
        Instr::Branch { cond, then_code, else_code } => {
            let jmp_at = lo + 1 + flat_len_code(then_code@);
            let end_at = jmp_at + 2 + flat_len_code(else_code@);
            lemma_flat_len_code_nonneg(then_code@);
            lemma_flat_len_code_nonneg(else_code@);
            if st.regs[cond as int] == 0 {
                assert(exec_flat(f, lo, st) == exec_flat(f, jmp_at + 1, st));
                assert(exec_flat(f, jmp_at + 1, st) == exec_flat(f, jmp_at + 2, st));
                lemma_flat_simulation(else_code@, f, jmp_at + 2, st);
                match exec_code(else_code@, st) {
                    Some(st2) => {
                        assert(exec_flat(f, end_at, st2) == exec_flat(f, end_at + 1, st2));
                    },
                    None => {},
                }
            } else {
                assert(exec_flat(f, lo, st) == exec_flat(f, lo + 1, st));
                lemma_flat_simulation(then_code@, f, lo + 1, st);
                match exec_code(then_code@, st) {
                    Some(st2) => {
                        assert(exec_flat(f, jmp_at, st2) == exec_flat(f, end_at, st2));
                        assert(exec_flat(f, end_at, st2) == exec_flat(f, end_at + 1, st2));
                    },
                    None => {},
                }
            }
        },
        _ => {
            assert(f[lo] == flat_of(i));
        },
    }
}

/// Lower a compiled program to the flat form and append the return
/// instruction that ends it. The result is consistent and, by
/// [`lemma_flat_program_runs`], runs exactly as the structured buffer
/// does.
pub fn flatten_program(prog: &Program) -> (r: Vec<FlatInstr>)
    requires
        prog.wf(),
    ensures
        r@.len() == flat_len_code(prog.code@) + 1,
        r@.len() >= 1,
        r@.last() == FlatInstr::Ret,
        seg_ok(r@, 0, r@.len() - 1),
        flat_wf(r@),
        flattens_to(prog.code@, r@, 0),
{
    let mut out: Vec<FlatInstr> = Vec::new();
    flatten_into(&prog.code, &mut out);
    let ghost pre = out@;
    out.push(FlatInstr::Ret);
    let fin_len = out.len();
    proof {
        let cur = out@;
        let hi = cur.len() as int;
        assert(fin_len as int == hi);
        lemma_seg_entries_ok(pre, cur, 0, pre.len() as int, hi - 1);
        lemma_seg_entries_ok(pre, cur, 0, pre.len() as int, hi);
        assert(cur[hi - 1] == FlatInstr::Ret);
        assert forall|j: int| 0 <= j < hi implies seg_instr_ok(cur, j, hi) by {}
        assert forall|j: int| 0 <= j < pre.len() as int implies cur[j] == pre[j] by {}
        lemma_flattens_to_stable(prog.code@, pre, cur, 0);
    }
    out
}

/// Running the flat form of a whole program is running its structured
/// buffer: same final state, same faults, from any start state.
pub proof fn lemma_flat_program_runs(code: Seq<Instr>, f: Seq<FlatInstr>, st: State)
    requires
        flattens_to(code, f, 0),
        flat_wf(f),
        f.len() == flat_len_code(code) + 1,
        f.last() == FlatInstr::Ret,
    ensures
        exec_flat(f, 0, st) == exec_code(code, st),
{
    lemma_flat_len_code_nonneg(code);
    lemma_flat_simulation(code, f, 0, st);
    match exec_code(code, st) {
        Some(st1) => {
            assert(exec_flat(f, flat_len_code(code), st1) == Some(st1));
        },
        None => {},
    }
}

/// Run a consistent flat buffer on the machine, following its jumps.
/// Returns `false` exactly when the program faults; on success the
/// machine lands in the state [`exec_flat`] prescribes.
pub fn run_flat(flat: &Vec<FlatInstr>, m: &mut Machine, input: &Vec<u8>) -> (ok: bool)
    requires
        old(m).wf(input@),
        flat_wf(flat@),
    ensures
        match exec_flat(flat@, 0, old(m).st(input@)) {
            Some(st1) => ok && final(m).wf(input@) && final(m).st(input@) == st1,
            None => !ok,
        },
{
    let ghost st0 = old(m).st(input@);
    let mut pc: usize = 0;
    while pc < flat.len()
        invariant
            st0 == old(m).st(input@),
            flat_wf(flat@),
            m.wf(input@),
            pc <= flat@.len(),
            exec_flat(flat@, 0, st0) == exec_flat(flat@, pc as int, m.st(input@)),
        decreases flat@.len() - pc,
    {
        let ghost pre = m.st(input@);
        proof {
            assert(seg_instr_ok(flat@, pc as int, flat@.len() as int));
        }
        match &flat[pc] {
            FlatInstr::MovImm { slot, imm } => {
                m.regs.set(*slot, *imm);
                pc = pc + 1;
            },
            FlatInstr::SetTag { tag } => {
                m.tag = *tag;
                pc = pc + 1;
            },
            FlatInstr::GuardTag { tag } => {
                if m.tag != *tag {
                    return false;
                }
                pc = pc + 1;
            },
            FlatInstr::AddImm { slot, imm } => {
                let cur = m.regs[*slot];
                m.regs.set(*slot, cur.wrapping_add(*imm));
                pc = pc + 1;
            },
            FlatInstr::SelectZero { src } => {
                let z: i64 = if m.regs[*src] == 0 {
                    1
                } else {
                    0
                };
                m.regs.set(0, z);
                pc = pc + 1;
            },
            FlatInstr::SelectCharTag { slot } => {
                let z: i64 = if m.tag == TAG_CHAR {
                    1
                } else {
                    0
                };
                m.regs.set(*slot, z);
                pc = pc + 1;
            },
            FlatInstr::Mov { dst, src } => {
                let v = m.regs[*src];
                m.regs.set(*dst, v);
                pc = pc + 1;
            },
            FlatInstr::ReadByte => {
                if m.pos < input.len() {
                    let b = input[m.pos];
                    m.regs.set(0, b as i64);
                    m.pos = m.pos + 1;
                } else {
                    m.regs.set(0, 0);
                }
                pc = pc + 1;
            },
            FlatInstr::WriteByte => {
                let r = m.regs[0];
                let b: u8 = #[verifier::truncate] (r as u8);
                m.output.push(b);
                pc = pc + 1;
            },
            FlatInstr::Fault => {
                return false;
            },
            FlatInstr::JmpIfZero { slot, target } => {
                if m.regs[*slot] == 0 {
                    pc = *target;
                } else {
                    pc = pc + 1;
                }
            },
            FlatInstr::Jmp { target } => {
                pc = *target;
            },
            FlatInstr::Label { .. } => {
                pc = pc + 1;
            },
            FlatInstr::Ret => {
                return true;
            },
        }
    }
    true
}

} // verus!