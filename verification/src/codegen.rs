//! The code generator: recursive lowering of an expression tree into a
//! register-machine instruction buffer.
//!
//! `compile_expr(e, d)` lowers `e` with its result going to a pool slot
//! chosen by the allocation discipline: a node deposits at the current
//! allocation depth `d`, a unary primitive works in place on its operand's
//! slot, `zero?` and `read-byte` deposit in the primary slot, and both arms
//! of a conditional commit their result to the condition's slot. The
//! contract states, for every start state, that running the emitted buffer
//! is the same as evaluating the expression ([`eval`]).

use vstd::prelude::*;
use crate::ast::{Expr, Primitive, Value, enc, tag_of, encode_value, value_tag, POOL_SIZE, TAG_INT,
    TAG_BOOL, TAG_CHAR};
use crate::ir::{Instr, code_slots_ok, instr_slots_ok, lemma_code_slots_ok_push};
use crate::semantics::{State, Machine, exec_code, exec_instr, low_byte, program_result, run_code,
    lemma_exec_code_app, lemma_exec_code_one, lemma_exec_preserves_wf};

verus! {

/// Why a compilation was aborted. All three are fatal: no buffer is
/// produced.
#[derive(Clone, Copy, Debug, PartialEq, Eq)]
pub enum CompileError {
    /// An `Identifier` or `Application` node was reached; neither has a
    /// lowering.
    UnsupportedExpr,
    /// A primitive/arity combination absent from the lowering table was
    /// reached (`void`, `peek-byte`, or a wrong argument count).
    UnsupportedPrimitive,
    /// The allocation depth reached the end of the register pool.
    CapacityExceeded,
}

/// The integer payload of an integer literal, if the expression is one.
pub open spec fn int_lit_of(e: Expr) -> Option<i64> {
    match e {
        Expr::Lit { v: Value::IntV(n) } => Some(n),
        _ => None,
    }
}

/// The pool slot in which the lowered expression leaves its result.
pub open spec fn result_slot(e: Expr, d: int) -> int
    decreases e,
{
    match e {
        Expr::Lit { .. } => d,
        Expr::Identifier { .. } => d,
        Expr::App { .. } => d,
        Expr::PrimN { prim, args } => match prim {
            Primitive::Add1 | Primitive::Sub1 => if args@.len() == 1 {
                if int_lit_of(args@[0]) is Some {
                    d
                } else {
                    result_slot(args@[0], d)
                }
            } else {
                d
            },
            Primitive::IsChar | Primitive::IntToChar | Primitive::CharToInt => if args@.len()
                == 1 {
                result_slot(args@[0], d)
            } else {
                d
            },
            Primitive::IsZero | Primitive::ReadByte => 0,
            _ => d,
        },
        Expr::If { if_, .. } => result_slot(*if_, d),
    }
}

/// Exactly when, and with which error, lowering aborts. The traversal
/// checks capacity at each node before looking at the node itself, and
/// visits a conditional in source order: condition, consequent,
/// alternative. The argument of `write-byte` is never visited: the
/// lowering emits no code for it, so nothing inside it can be rejected.
pub open spec fn compile_err(e: Expr, d: int) -> Option<CompileError>
    decreases e,
{
    if d >= POOL_SIZE as int {
        Some(CompileError::CapacityExceeded)
    } else {
        match e {
            Expr::Lit { .. } => None,
            Expr::Identifier { .. } => Some(CompileError::UnsupportedExpr),
            Expr::App { .. } => Some(CompileError::UnsupportedExpr),
            Expr::PrimN { prim, args } => match prim {
                Primitive::Add1 | Primitive::Sub1 => if args@.len() != 1 {
                    Some(CompileError::UnsupportedPrimitive)
                } else if int_lit_of(args@[0]) is Some {
                    None
                } else {
                    compile_err(args@[0], d)
                },
                Primitive::IsZero | Primitive::IsChar | Primitive::IntToChar
                    | Primitive::CharToInt => if args@.len() != 1 {
                    Some(CompileError::UnsupportedPrimitive)
                } else {
                    compile_err(args@[0], d)
                },
                Primitive::ReadByte => if args@.len() == 0 {
                    None
                } else {
                    Some(CompileError::UnsupportedPrimitive)
                },
                Primitive::WriteByte => if args@.len() == 1 {
                    None
                } else {
                    Some(CompileError::UnsupportedPrimitive)
                },
                Primitive::Void | Primitive::PeekByte => Some(CompileError::UnsupportedPrimitive),
            },
            Expr::If { if_, then_, else_ } => match compile_err(*if_, d) {
                Some(er) => Some(er),
                None => {
                    let cs = result_slot(*if_, d);
                    match compile_err(*then_, cs) {
                        Some(er) => Some(er),
                        None => compile_err(*else_, cs),
                    }
                },
            },
        }
    }
}

/// Source-level meaning of a compilable expression, lowered at depth `d`:
/// the machine state after its code ran, or `None` for a runtime fault.
///
/// This is the generator's specification; it never mentions instructions.
pub open spec fn eval(e: Expr, d: int, st: State) -> Option<State>
    decreases e,
{
    match e {
        Expr::Lit { v } => Some(
            State { regs: st.regs.update(d, enc(v)), tag: tag_of(v), ..st },
        ),
        Expr::PrimN { prim, args } => match prim {
            Primitive::Add1 | Primitive::Sub1 => if args@.len() != 1 {
                None
            } else {
                let delta: i64 = if prim is Add1 { 1i64 } else { -1i64 };
                match int_lit_of(args@[0]) {
                    Some(n) => Some(
                        State {
                            regs: st.regs.update(
                                d,
                                vstd::wrapping::i64_specs::wrapping_add(n, delta),
                            ),
                            tag: TAG_INT,
                            ..st
                        },
                    ),
                    None => match eval(args@[0], d, st) {
                        Some(st1) => if st1.tag == TAG_INT {
                            let s = result_slot(args@[0], d);
                            Some(
                                State {
                                    regs: st1.regs.update(
                                        s,
                                        vstd::wrapping::i64_specs::wrapping_add(
                                            st1.regs[s],
                                            delta,
                                        ),
                                    ),
                                    ..st1
                                },
                            )
                        } else {
                            None
                        },
                        None => None,
                    },
                }
            },
            Primitive::IsZero => if args@.len() != 1 {
                None
            } else {
                match eval(args@[0], d, st) {
                Some(st1) => if st1.tag == TAG_INT {
                    let s = result_slot(args@[0], d);
                    Some(
                        State {
                            regs: st1.regs.update(
                                0,
                                if st1.regs[s] == 0 { 1i64 } else { 0i64 },
                            ),
                            tag: TAG_BOOL,
                            ..st1
                        },
                    )
                    } else {
                        None
                    },
                    None => None,
                }
            },
            Primitive::IsChar => if args@.len() != 1 {
                None
            } else {
                match eval(args@[0], d, st) {
                    Some(st1) => {
                        let s = result_slot(args@[0], d);
                        Some(
                            State {
                                regs: st1.regs.update(
                                    s,
                                    if st1.tag == TAG_CHAR { 1i64 } else { 0i64 },
                                ),
                                tag: TAG_BOOL,
                                ..st1
                            },
                        )
                    },
                    None => None,
                }
            },
            Primitive::IntToChar => if args@.len() != 1 {
                None
            } else {
                match eval(args@[0], d, st) {
                    Some(st1) => Some(State { tag: TAG_CHAR, ..st1 }),
                    None => None,
                }
            },
            Primitive::CharToInt => if args@.len() != 1 {
                None
            } else {
                match eval(args@[0], d, st) {
                    Some(st1) => Some(State { tag: TAG_INT, ..st1 }),
                    None => None,
                }
            },
            Primitive::ReadByte => Some(
                State {
                    regs: st.regs.update(0, st.next_byte()),
                    pos: st.next_pos(),
                    tag: TAG_INT,
                    ..st
                },
            ),
            Primitive::WriteByte => Some(
                State { output: st.output.push(low_byte(st.regs[0])), ..st },
            ),
            Primitive::Void | Primitive::PeekByte => None,
        },
        Expr::If { if_, then_, else_ } => match eval(*if_, d, st) {
            Some(st1) => {
                let cs = result_slot(*if_, d);
                if st1.regs[cs] != 0 {
                    match eval(*then_, cs, st1) {
                        Some(st2) => {
                            let ts = result_slot(*then_, cs);
                            if ts == cs {
                                Some(st2)
                            } else {
                                Some(State { regs: st2.regs.update(cs, st2.regs[ts]), ..st2 })
                            }
                        },
                        None => None,
                    }
                } else {
                    match eval(*else_, cs, st1) {
                        Some(st2) => {
                            let es = result_slot(*else_, cs);
                            if es == cs {
                                Some(st2)
                            } else {
                                Some(State { regs: st2.regs.update(cs, st2.regs[es]), ..st2 })
                            }
                        },
                        None => None,
                    }
                }
            },
            None => None,
        },
        _ => None,
    }
}

/// Everything the generator promises of a successful lowering.
pub open spec fn lowering_ok(e: Expr, d: int, code: Seq<Instr>, s: int) -> bool {
    &&& compile_err(e, d) is None
    &&& s == result_slot(e, d)
    &&& 0 <= s < POOL_SIZE as int
    &&& code_slots_ok(code)
    &&& forall|st: State| st.wf() ==> exec_code(code, st) == eval(e, d, st)
}

/// Running one more pushed instruction after a buffer.
proof fn lemma_exec_code_snoc(c: Seq<Instr>, i: Instr, st: State)
    ensures
        exec_code(c.push(i), st) == match exec_code(c, st) {
            Some(st1) => exec_instr(i, st1),
            None => None,
        },
{
    assert(c.push(i) =~= c + seq![i]);
    lemma_exec_code_app(c, seq![i], st);
    match exec_code(c, st) {
        Some(st1) => {
            lemma_exec_code_one(i, st1);
        },
        None => {},
    }
}

/// Lower `expr` at allocation depth `offset`, returning the emitted buffer
/// and the slot holding the result, or the error that aborts compilation.
pub fn compile_expr(expr: &Expr, offset: usize) -> (r: Result<(Vec<Instr>, usize), CompileError>)
    ensures
        match r {
            Ok(p) => lowering_ok(*expr, offset as int, p.0@, p.1 as int),
            Err(er) => compile_err(*expr, offset as int) == Some(er),
        },
    decreases *expr,
{
    if offset >= POOL_SIZE {
        return Err(CompileError::CapacityExceeded);
    }
    match expr {
        Expr::Lit { v } => {
            let t = value_tag(v);
            let imm = encode_value(v);
            let mut code: Vec<Instr> = Vec::new();
            code.push(Instr::SetTag { tag: t });
            code.push(Instr::MovImm { slot: offset, imm });
            proof {
                let c1 = Seq::<Instr>::empty().push(Instr::SetTag { tag: t });
                lemma_code_slots_ok_push(Seq::<Instr>::empty(), Instr::SetTag { tag: t });
                lemma_code_slots_ok_push(c1, Instr::MovImm { slot: offset, imm });
                assert forall|st: State| st.wf() implies exec_code(code@, st) == eval(
                    *expr,
                    offset as int,
                    st,
                ) by {
                    lemma_exec_code_snoc(c1, Instr::MovImm { slot: offset, imm }, st);
                    lemma_exec_code_snoc(Seq::<Instr>::empty(), Instr::SetTag { tag: t }, st);
                }
            }
            Ok((code, offset))
        },
        Expr::Identifier { .. } => Err(CompileError::UnsupportedExpr),
        Expr::App { .. } => Err(CompileError::UnsupportedExpr),
        Expr::PrimN { prim, args } => match prim {
            Primitive::Add1 | Primitive::Sub1 => {
                let delta: i64 = if matches!(prim, Primitive::Add1) { 1 } else { -1 };
                if args.len() != 1 {
                    return Err(CompileError::UnsupportedPrimitive);
                }
                let arg = &args[0];
                match arg {
                    Expr::Lit { v: Value::IntV(n) } => {
                        // Constant folding: emit the adjusted literal
                        // directly, with no runtime check.
                        let mut code: Vec<Instr> = Vec::new();
                        code.push(Instr::SetTag { tag: TAG_INT });
                        code.push(Instr::MovImm { slot: offset, imm: n.wrapping_add(delta) });
                        proof {
                            let c1 = Seq::<Instr>::empty().push(Instr::SetTag { tag: TAG_INT });
                            let m = Instr::MovImm {
                                slot: offset,
                                imm: vstd::wrapping::i64_specs::wrapping_add(*n, delta),
                            };
                            lemma_code_slots_ok_push(
                                Seq::<Instr>::empty(),
                                Instr::SetTag { tag: TAG_INT },
                            );
                            lemma_code_slots_ok_push(c1, m);
                            assert forall|st: State| st.wf() implies exec_code(code@, st) == eval(
                                *expr,
                                offset as int,
                                st,
                            ) by {
                                lemma_exec_code_snoc(c1, m, st);
                                lemma_exec_code_snoc(
                                    Seq::<Instr>::empty(),
                                    Instr::SetTag { tag: TAG_INT },
                                    st,
                                );
                            }
                        }
                        Ok((code, offset))
                    },
                    _ => {
                        let (mut code, s) = match compile_expr(arg, offset) {
                            Ok(p) => p,
                            Err(er) => {
                                return Err(er);
                            },
                        };
                        let ghost c0 = code@;
                        code.push(Instr::GuardTag { tag: TAG_INT });
                        code.push(Instr::AddImm { slot: s, imm: delta });
                        proof {
                            let g = Instr::GuardTag { tag: TAG_INT };
                            let a = Instr::AddImm { slot: s, imm: delta };
                            lemma_code_slots_ok_push(c0, g);
                            lemma_code_slots_ok_push(c0.push(g), a);
                            assert forall|st: State| st.wf() implies exec_code(code@, st) == eval(
                                *expr,
                                offset as int,
                                st,
                            ) by {
                                lemma_exec_code_snoc(c0.push(g), a, st);
                                lemma_exec_code_snoc(c0, g, st);
                            }
                        }
                        Ok((code, s))
                    },
                }
            },
            Primitive::IsZero => {
                if args.len() != 1 {
                    return Err(CompileError::UnsupportedPrimitive);
                }
                let (mut code, s) = match compile_expr(&args[0], offset) {
                    Ok(p) => p,
                    Err(er) => {
                        return Err(er);
                    },
                };
                let ghost c0 = code@;
                code.push(Instr::GuardTag { tag: TAG_INT });
                code.push(Instr::SelectZero { src: s });
                code.push(Instr::SetTag { tag: TAG_BOOL });
                proof {
                    let g = Instr::GuardTag { tag: TAG_INT };
                    let z = Instr::SelectZero { src: s };
                    let t = Instr::SetTag { tag: TAG_BOOL };
                    lemma_code_slots_ok_push(c0, g);
                    lemma_code_slots_ok_push(c0.push(g), z);
                    lemma_code_slots_ok_push(c0.push(g).push(z), t);
                    assert forall|st: State| st.wf() implies exec_code(code@, st) == eval(
                        *expr,
                        offset as int,
                        st,
                    ) by {
                        lemma_exec_code_snoc(c0.push(g).push(z), t, st);
                        lemma_exec_code_snoc(c0.push(g), z, st);
                        lemma_exec_code_snoc(c0, g, st);
                    }
                }
                Ok((code, 0))
            },
            Primitive::IsChar => {
                if args.len() != 1 {
                    return Err(CompileError::UnsupportedPrimitive);
                }
                let (mut code, s) = match compile_expr(&args[0], offset) {
                    Ok(p) => p,
                    Err(er) => {
                        return Err(er);
                    },
                };
                let ghost c0 = code@;
                code.push(Instr::SelectCharTag { slot: s });
                code.push(Instr::SetTag { tag: TAG_BOOL });
                proof {
                    let z = Instr::SelectCharTag { slot: s };
                    let t = Instr::SetTag { tag: TAG_BOOL };
                    lemma_code_slots_ok_push(c0, z);
                    lemma_code_slots_ok_push(c0.push(z), t);
                    assert forall|st: State| st.wf() implies exec_code(code@, st) == eval(
                        *expr,
                        offset as int,
                        st,
                    ) by {
                        lemma_exec_code_snoc(c0.push(z), t, st);
                        lemma_exec_code_snoc(c0, z, st);
                    }
                }
                Ok((code, s))
            },
            Primitive::IntToChar | Primitive::CharToInt => {
                let retag: u64 = if matches!(prim, Primitive::IntToChar) {
                    TAG_CHAR
                } else {
                    TAG_INT
                };
                if args.len() != 1 {
                    return Err(CompileError::UnsupportedPrimitive);
                }
                let (mut code, s) = match compile_expr(&args[0], offset) {
                    Ok(p) => p,
                    Err(er) => {
                        return Err(er);
                    },
                };
                let ghost c0 = code@;
                code.push(Instr::SetTag { tag: retag });
                proof {
                    lemma_code_slots_ok_push(c0, Instr::SetTag { tag: retag });
                    assert forall|st: State| st.wf() implies exec_code(code@, st) == eval(
                        *expr,
                        offset as int,
                        st,
                    ) by {
                        lemma_exec_code_snoc(c0, Instr::SetTag { tag: retag }, st);
                    }
                }
                Ok((code, s))
            },
            Primitive::ReadByte => {
                if args.len() != 0 {
                    return Err(CompileError::UnsupportedPrimitive);
                }
                let mut code: Vec<Instr> = Vec::new();
                code.push(Instr::ReadByte);
                code.push(Instr::SetTag { tag: TAG_INT });
                proof {
                    let c1 = Seq::<Instr>::empty().push(Instr::ReadByte);
                    lemma_code_slots_ok_push(Seq::<Instr>::empty(), Instr::ReadByte);
                    lemma_code_slots_ok_push(c1, Instr::SetTag { tag: TAG_INT });
                    assert forall|st: State| st.wf() implies exec_code(code@, st) == eval(
                        *expr,
                        offset as int,
                        st,
                    ) by {
                        lemma_exec_code_snoc(c1, Instr::SetTag { tag: TAG_INT }, st);
                        lemma_exec_code_snoc(Seq::<Instr>::empty(), Instr::ReadByte, st);
                    }
                }
                Ok((code, 0))
            },
            Primitive::WriteByte => {
                // The operand is parsed but never lowered: the call takes
                // whatever the primary slot currently holds.
                if args.len() != 1 {
                    return Err(CompileError::UnsupportedPrimitive);
                }
                let mut code: Vec<Instr> = Vec::new();
                code.push(Instr::WriteByte);
                proof {
                    lemma_code_slots_ok_push(Seq::<Instr>::empty(), Instr::WriteByte);
                    assert forall|st: State| st.wf() implies exec_code(code@, st) == eval(
                        *expr,
                        offset as int,
                        st,
                    ) by {
                        lemma_exec_code_snoc(Seq::<Instr>::empty(), Instr::WriteByte, st);
                    }
                }
                Ok((code, offset))
            },
            Primitive::Void | Primitive::PeekByte => Err(CompileError::UnsupportedPrimitive),
        },
        Expr::If { if_, then_, else_ } => {
            let (mut code, cs) = match compile_expr(if_, offset) {
                Ok(p) => p,
                Err(er) => {
                    return Err(er);
                },
            };
            let (mut tcode, ts) = match compile_expr(then_, cs) {
                Ok(p) => p,
                Err(er) => {
                    return Err(er);
                },
            };
            let (mut ecode, es) = match compile_expr(else_, cs) {
                Ok(p) => p,
                Err(er) => {
                    return Err(er);
                },
            };
            let ghost t0 = tcode@;
            let ghost e0 = ecode@;
            // Both arms must deposit their result in the condition's slot,
            // so the caller reads one fixed location whichever arm ran.
            if ts != cs {
                tcode.push(Instr::Mov { dst: cs, src: ts });
            }
            if es != cs {
                ecode.push(Instr::Mov { dst: cs, src: es });
            }
            let ghost tc = tcode@;
            let ghost ec = ecode@;
            let ghost c0 = code@;
            code.push(Instr::Branch { cond: cs, then_code: tcode, else_code: ecode });
            proof {
                let b = code@.last();
                assert(code@ == c0.push(b));
                assert(b->then_code@ == tc);
                assert(b->else_code@ == ec);
                if ts != cs {
                    lemma_code_slots_ok_push(t0, Instr::Mov { dst: cs, src: ts });
                }
                if es != cs {
                    lemma_code_slots_ok_push(e0, Instr::Mov { dst: cs, src: es });
                }
                assert(instr_slots_ok(b));
                lemma_code_slots_ok_push(c0, b);
                assert forall|st: State| st.wf() implies exec_code(code@, st) == eval(
                    *expr,
                    offset as int,
                    st,
                ) by {
                    lemma_exec_code_snoc(c0, b, st);
                    match exec_code(c0, st) {
                        Some(st1) => {
                            lemma_exec_preserves_wf(c0, st);
                            assert(st1.wf());
                            if st1.regs[cs as int] != 0 {
                                if ts != cs {
                                    lemma_exec_code_snoc(t0, Instr::Mov { dst: cs, src: ts }, st1);
                                }
                            } else {
                                if es != cs {
                                    lemma_exec_code_snoc(e0, Instr::Mov { dst: cs, src: es }, st1);
                                }
                            }
                        },
                        None => {},
                    }
                }
            }
            Ok((code, cs))
        },
    }
}

/// A lowered program: the instruction buffer and the slot that holds the
/// final result.
#[derive(Debug)]
pub struct Program {
    pub code: Vec<Instr>,
    pub slot: usize,
}

impl Program {
    /// The shape every compiled program has.
    pub open spec fn wf(self) -> bool {
        &&& code_slots_ok(self.code@)
        &&& self.slot < POOL_SIZE
    }
}

/// Compile a whole program: lower the expression starting at allocation
/// depth 0. Compilation either aborts with the definite error or yields a
/// buffer whose execution agrees with [`eval`] from every start state.
pub fn compile(expr: &Expr) -> (r: Result<Program, CompileError>)
    ensures
        match r {
            Ok(p) => {
                &&& p.wf()
                &&& lowering_ok(*expr, 0, p.code@, p.slot as int)
            },
            Err(er) => compile_err(*expr, 0) == Some(er),
        },
{
    match compile_expr(expr, 0) {
        Ok((code, slot)) => Ok(Program { code, slot }),
        Err(er) => Err(er),
    }
}

/// How a finished run is reported: the raw 64-bit pattern of the result
/// slot is echoed, or the program faulted. This crate fixes the
/// echo-raw-integer convention for mapping a program's return value.
#[derive(Clone, Copy, Debug, PartialEq, Eq)]
pub enum Outcome {
    Value(i64),
    Fault,
}

/// Run a compiled program on the verified interpreter, feeding it `input`
/// as its byte stream; returns the outcome and everything it wrote.
pub fn run_program(prog: &Program, input: &Vec<u8>) -> (r: (Outcome, Vec<u8>))
    requires
        prog.wf(),
    ensures
        match program_result(prog.code@, prog.slot as int, input@) {
            Some(p) => r.0 == Outcome::Value(p.0) && r.1@ == p.1,
            None => r.0 == Outcome::Fault,
        },
{
    let mut regs: Vec<i64> = Vec::new();
    let mut j: usize = 0;
    while j < POOL_SIZE
        invariant
            j <= POOL_SIZE,
            regs@ == Seq::new(j as nat, |x: int| 0i64),
        decreases POOL_SIZE - j,
    {
        regs.push(0);
        proof {
            assert(regs@ =~= Seq::new((j + 1) as nat, |x: int| 0i64));
        }
        j = j + 1;
    }
    let mut m = Machine { regs, tag: crate::ast::TAG_NONE, pos: 0, output: Vec::new() };
    proof {
        assert(m.st(input@) =~= State::init(input@));
    }
    let ok = run_code(&prog.code, &mut m, input);
    if ok {
        let v = m.regs[prog.slot];
        (Outcome::Value(v), m.output)
    } else {
        (Outcome::Fault, m.output)
    }
}

} // verus!
