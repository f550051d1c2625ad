//! Formal semantics of the register machine, and a verified interpreter.
//!
//! [`exec_code`] gives every instruction buffer a meaning: a partial state
//! transformer over the pool, the tag register and the two byte streams.
//! `None` is the fault outcome — the running program jumped to an invalid
//! address and the process died; no further instruction runs.

use vstd::prelude::*;
use crate::ast::{POOL_SIZE, TAG_CHAR, TAG_NONE};
use crate::ir::{Instr, code_slots_ok, instr_slots_ok};

verus! {

/// The whole observable state of a running compiled program.
pub struct State {
    /// The register pool, indexed by allocation depth.
    pub regs: Seq<i64>,
    /// The shared tag register describing the most recent result.
    pub tag: u64,
    /// The bytes the single-byte reader will serve, in order.
    pub input: Seq<u8>,
    /// How many input bytes were consumed already.
    pub pos: int,
    /// The bytes handed to the single-byte writer so far.
    pub output: Seq<u8>,
}

impl State {
    /// The shape every reachable state keeps: a full pool and an input
    /// cursor inside the stream.
    pub open spec fn wf(self) -> bool {
        &&& self.regs.len() == POOL_SIZE
        &&& 0 <= self.pos <= self.input.len()
    }

    /// The state a compiled program starts in: cleared pool, reserved tag,
    /// untouched streams.
    pub open spec fn init(input: Seq<u8>) -> State {
        State {
            regs: Seq::new(POOL_SIZE as nat, |k: int| 0i64),
            tag: TAG_NONE,
            input,
            pos: 0,
            output: Seq::empty(),
        }
    }

    /// The byte the reader helper returns next: the next input byte, or 0
    /// once the stream is exhausted.
    pub open spec fn next_byte(self) -> i64 {
        if self.pos < self.input.len() {
            self.input[self.pos] as i64
        } else {
            0
        }
    }

    /// The input cursor after one call of the reader helper.
    pub open spec fn next_pos(self) -> int {
        if self.pos < self.input.len() {
            self.pos + 1
        } else {
            self.pos
        }
    }
}

/// The low byte of a 64-bit pattern, as the writer helper sees it.
pub open spec fn low_byte(x: i64) -> u8 {
    x as u8
}

/// Meaning of one instruction: the next state, or `None` for a fault.
pub open spec fn exec_instr(i: Instr, st: State) -> Option<State>
    decreases i,
{
    match i {
        Instr::MovImm { slot, imm } => Some(State { regs: st.regs.update(slot as int, imm), ..st }),
        Instr::SetTag { tag } => Some(State { tag, ..st }),
        Instr::GuardTag { tag } => if st.tag == tag {
            Some(st)
        } else {
            None
        },
        Instr::AddImm { slot, imm } => Some(
            State {
                regs: st.regs.update(
                    slot as int,
                    vstd::wrapping::i64_specs::wrapping_add(st.regs[slot as int], imm),
                ),
                ..st
            },
        ),
        Instr::SelectZero { src } => Some(
            State {
                regs: st.regs.update(0, if st.regs[src as int] == 0 { 1i64 } else { 0i64 }),
                ..st
            },
        ),
        Instr::SelectCharTag { slot } => Some(
            State {
                regs: st.regs.update(slot as int, if st.tag == TAG_CHAR { 1i64 } else { 0i64 }),
                ..st
            },
        ),
        Instr::Mov { dst, src } => Some(
            State { regs: st.regs.update(dst as int, st.regs[src as int]), ..st },
        ),
        Instr::ReadByte => Some(
            State { regs: st.regs.update(0, st.next_byte()), pos: st.next_pos(), ..st },
        ),
        Instr::WriteByte => Some(State { output: st.output.push(low_byte(st.regs[0])), ..st }),
        Instr::Fault => None,
        Instr::Branch { cond, then_code, else_code } => if st.regs[cond as int] == 0 {
            exec_code(else_code@, st)
        } else {
            exec_code(then_code@, st)
        },
    }
}

/// Meaning of a buffer: run the instructions in order; a fault stops
/// everything.
pub open spec fn exec_code(c: Seq<Instr>, st: State) -> Option<State>
    decreases c,
{
    if c.len() == 0 {
        Some(st)
    } else {
        match exec_instr(c[0], st) {
            Some(st1) => exec_code(c.subrange(1, c.len() as int), st1),
            None => None,
        }
    }
}

/// The observable outcome of a whole program: the bits in its result slot
/// and everything it wrote, or `None` if it faulted.
pub open spec fn program_result(code: Seq<Instr>, slot: int, input: Seq<u8>) -> Option<
    (i64, Seq<u8>),
> {
    match exec_code(code, State::init(input)) {
        Some(st) => Some((st.regs[slot], st.output)),
        None => None,
    }
}

/// Running a concatenation is running the two halves in sequence.
pub proof fn lemma_exec_code_app(c1: Seq<Instr>, c2: Seq<Instr>, st: State)
    ensures
        exec_code(c1 + c2, st) == match exec_code(c1, st) {
            Some(st1) => exec_code(c2, st1),
            None => None,
        },
    decreases c1,
{
    if c1.len() == 0 {
        assert(c1 + c2 =~= c2);
    } else {
        let c = c1 + c2;
        assert(c[0] == c1[0]);
        match exec_instr(c1[0], st) {
            Some(st1) => {
                assert(c.subrange(1, c.len() as int) =~= c1.subrange(1, c1.len() as int) + c2);
                lemma_exec_code_app(c1.subrange(1, c1.len() as int), c2, st1);
            },
            None => {},
        }
    }
}

/// Running a single instruction as a buffer is just the instruction.
pub proof fn lemma_exec_code_one(i: Instr, st: State)
    ensures
        exec_code(seq![i], st) == exec_instr(i, st),
{
    let c = seq![i];
    assert(c[0] == i);
    assert(c.subrange(1, 1) =~= Seq::<Instr>::empty());
    match exec_instr(i, st) {
        Some(st1) => {
            assert(exec_code(c.subrange(1, 1), st1) == Some(st1));
        },
        None => {},
    }
}

/// Execution never shrinks or grows the pool, never rewinds the input and
/// only appends to the output.
pub proof fn lemma_exec_preserves_wf(c: Seq<Instr>, st: State)
    requires
        st.wf(),
        code_slots_ok(c),
    ensures
        match exec_code(c, st) {
            Some(st1) => st1.wf() && st1.input == st.input && st.pos <= st1.pos,
            None => true,
        },
    decreases c,
{
    if c.len() > 0 {
        assert(instr_slots_ok(c[0]));
        match exec_instr_wf(c[0], st) {
            Some(st1) => {
                let rest = c.subrange(1, c.len() as int);
                assert forall|k: int| 0 <= k < rest.len() implies instr_slots_ok(
                    #[trigger] rest[k],
                ) by {
                    assert(rest[k] == c[k + 1]);
                }
                lemma_exec_preserves_wf(rest, st1);
            },
            None => {},
        }
    }
}

/// The executable machine the verified interpreter runs: the register
/// pool, the tag register, the input cursor and the output built so far.
pub struct Machine {
    pub regs: Vec<i64>,
    pub tag: u64,
    pub pos: usize,
    pub output: Vec<u8>,
}

impl Machine {
    /// The abstract state this machine is in, against a given input
    /// stream.
    pub open spec fn st(self, input: Seq<u8>) -> State {
        State {
            regs: self.regs@,
            tag: self.tag,
            input,
            pos: self.pos as int,
            output: self.output@,
        }
    }

    /// Machine-level well-formedness.
    pub open spec fn wf(self, input: Seq<u8>) -> bool {
        self.st(input).wf()
    }
}

/// Run a buffer on the machine. Returns `false` exactly when the program
/// faults; on success the machine lands in the state the semantics
/// prescribes.
pub fn run_code(code: &Vec<Instr>, m: &mut Machine, input: &Vec<u8>) -> (ok: bool)
    requires
        old(m).wf(input@),
        code_slots_ok(code@),
    ensures
        match exec_code(code@, old(m).st(input@)) {
            Some(st1) => ok && final(m).wf(input@) && final(m).st(input@) == st1,
            None => !ok,
        },
    decreases code@,
{
    let ghost st0 = old(m).st(input@);
    proof {
        assert(code@.subrange(0, code@.len() as int) =~= code@);
    }
    let mut k: usize = 0;
    while k < code.len()
        invariant
            st0 == old(m).st(input@),
            k <= code.len(),
            code_slots_ok(code@),
            m.wf(input@),
            exec_code(code@, st0) == exec_code(
                code@.subrange(k as int, code@.len() as int),
                m.st(input@),
            ),
        decreases code@.len() - k,
    {
        let ghost pre = m.st(input@);
        let ghost rest = code@.subrange(k as int, code@.len() as int);
        proof {
            assert(instr_slots_ok(code@[k as int]));
            assert(rest[0] == code@[k as int]);
            assert(rest.subrange(1, rest.len() as int) =~= code@.subrange(
                k + 1,
                code@.len() as int,
            ));
        }
        match &code[k] {
            Instr::MovImm { slot, imm } => {
                m.regs.set(*slot, *imm);
            },
            Instr::SetTag { tag } => {
                m.tag = *tag;
            },
            Instr::GuardTag { tag } => {
                if m.tag != *tag {
                    proof {
                        assert(exec_code(rest, pre) == None::<State>);
                    }
                    return false;
                }
            },
            Instr::AddImm { slot, imm } => {
                let cur = m.regs[*slot];
                m.regs.set(*slot, cur.wrapping_add(*imm));
            },
            Instr::SelectZero { src } => {
                let z: i64 = if m.regs[*src] == 0 {
                    1
                } else {
                    0
                };
                m.regs.set(0, z);
            },
            Instr::SelectCharTag { slot } => {
                let z: i64 = if m.tag == TAG_CHAR {
                    1
                } else {
                    0
                };
                m.regs.set(*slot, z);
            },
            Instr::Mov { dst, src } => {
                let v = m.regs[*src];
                m.regs.set(*dst, v);
            },
            Instr::ReadByte => {
                if m.pos < input.len() {
                    let b = input[m.pos];
                    m.regs.set(0, b as i64);
                    m.pos = m.pos + 1;
                } else {
                    m.regs.set(0, 0);
                }
            },
            Instr::WriteByte => {
                let r = m.regs[0];
                let b: u8 = #[verifier::truncate] (r as u8);
                m.output.push(b);
            },
            Instr::Fault => {
                proof {
                    assert(exec_code(rest, pre) == None::<State>);
                }
                return false;
            },
            Instr::Branch { cond, then_code, else_code } => {
                let taken_ok: bool;
                if m.regs[*cond] == 0 {
                    proof {
                        assert(decreases_to!(code@ => code@[k as int]));
                        assert(decreases_to!(code@[k as int] => else_code@));
                    }
                    taken_ok = run_code(else_code, m, input);
                } else {
                    proof {
                        assert(decreases_to!(code@ => code@[k as int]));
                        assert(decreases_to!(code@[k as int] => then_code@));
                    }
                    taken_ok = run_code(then_code, m, input);
                }
                if !taken_ok {
                    proof {
                        assert(exec_instr(code@[k as int], pre) is None);
                        assert(exec_code(rest, pre) == None::<State>);
                    }
                    return false;
                }
            },
        }
        proof {
            assert(exec_instr(code@[k as int], pre) == Some(m.st(input@)));
        }
        k = k + 1;
    }
    proof {
        assert(code@.subrange(k as int, code@.len() as int) =~= Seq::<Instr>::empty());
    }
    true
}

/// Helper for [`lemma_exec_preserves_wf`]: the one-instruction case, which
/// also hands the intermediate state back to the caller.
proof fn exec_instr_wf(i: Instr, st: State) -> (r: Option<State>)
    requires
        st.wf(),
        instr_slots_ok(i),
    ensures
        r == exec_instr(i, st),
        match r {
            Some(st1) => st1.wf() && st1.input == st.input && st.pos <= st1.pos,
            None => true,
        },
    decreases i,
{
    match i {
        Instr::Branch { cond, then_code, else_code } => {
            if st.regs[cond as int] == 0 {
                lemma_exec_preserves_wf(else_code@, st);
            } else {
                lemma_exec_preserves_wf(then_code@, st);
            }
        },
        _ => {},
    }
    exec_instr(i, st)
}

} // verus!
