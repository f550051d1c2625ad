//! Register-machine instructions emitted by the code generator.
//!
//! An instruction operates on the fixed pool of [`crate::ast::POOL_SIZE`]
//! 64-bit slots, on the shared tag register, and on the byte streams of the
//! two runtime helpers. Control flow is still structured here: a
//! [`Instr::Branch`] carries its two arms as nested buffers. The
//! [`crate::flatten`] pass lowers it to labels and jumps.

use vstd::prelude::*;
use crate::ast::POOL_SIZE;

verus! {

/// One instruction of the register machine.
#[derive(Debug, PartialEq, Eq)]
pub enum Instr {
    /// Write an immediate 64-bit pattern into a pool slot.
    MovImm { slot: usize, imm: i64 },
    /// Set the shared tag register.
    SetTag { tag: u64 },
    /// Compare the tag register against `tag`; on mismatch the program
    /// faults (the native backend jumps to an invalid address).
    GuardTag { tag: u64 },
    /// Add `imm` to a pool slot in place, with wraparound.
    AddImm { slot: usize, imm: i64 },
    /// Branch-free compare-and-select: write 1 into the primary slot if
    /// `src` holds zero, else 0.
    SelectZero { src: usize },
    /// Write 1 into `slot` if the tag register holds the character code,
    /// else 0.
    SelectCharTag { slot: usize },
    /// Copy one pool slot into another.
    Mov { dst: usize, src: usize },
    /// Call the external single-byte reader; the byte lands in the primary
    /// slot (0 once the input is exhausted).
    ReadByte,
    /// Call the external single-byte writer with the low byte of the
    /// primary slot.
    WriteByte,
    /// Fault unconditionally.
    Fault,
    /// Test `cond` against the falsy encoding (zero) and run exactly one
    /// of the two arms.
    Branch { cond: usize, then_code: Vec<Instr>, else_code: Vec<Instr> },
}

/// Every slot index mentioned by the instruction lies inside the pool.
pub open spec fn instr_slots_ok(i: Instr) -> bool
    decreases i,
{
    match i {
        Instr::MovImm { slot, .. } => slot < POOL_SIZE,
        Instr::SetTag { .. } => true,
        Instr::GuardTag { .. } => true,
        Instr::AddImm { slot, .. } => slot < POOL_SIZE,
        Instr::SelectZero { src } => src < POOL_SIZE,
        Instr::SelectCharTag { slot } => slot < POOL_SIZE,
        Instr::Mov { dst, src } => dst < POOL_SIZE && src < POOL_SIZE,
        Instr::ReadByte => true,
        Instr::WriteByte => true,
        Instr::Fault => true,
        Instr::Branch { cond, then_code, else_code } => {
            &&& cond < POOL_SIZE
            &&& code_slots_ok(then_code@)
            &&& code_slots_ok(else_code@)
        },
    }
}

/// Every slot index mentioned anywhere in the buffer lies inside the pool.
pub open spec fn code_slots_ok(c: Seq<Instr>) -> bool
    decreases c,
{
    forall|k: int| 0 <= k < c.len() ==> instr_slots_ok(#[trigger] c[k])
}

/// Appending an in-bounds instruction keeps the whole buffer in bounds.
pub proof fn lemma_code_slots_ok_push(c: Seq<Instr>, i: Instr)
    requires
        code_slots_ok(c),
        instr_slots_ok(i),
    ensures
        code_slots_ok(c.push(i)),
{
    assert forall|k: int| 0 <= k < c.push(i).len() implies instr_slots_ok(
        #[trigger] c.push(i)[k],
    ) by {
        if k < c.len() {
            assert(c.push(i)[k] == c[k]);
        } else {
            assert(c.push(i)[k] == i);
        }
    }
}

} // verus!
