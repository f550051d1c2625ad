//! The laws of the compiler, proved once and for all inputs.
//!
//! Each proof function here states a property of the source language's
//! meaning ([`eval`]) or of the compilation judgment ([`compile_err`]).
//! Together with the contract of [`crate::codegen::compile_expr`] — which
//! ties the emitted buffer's execution to [`eval`] on every start state —
//! each law carries over to the code the generator actually emits.

use vstd::prelude::*;
use crate::ast::{Expr, Primitive, Value, enc, tag_of, POOL_SIZE, TAG_INT, TAG_BOOL, TAG_CHAR};
use crate::ir::Instr;
use crate::semantics::{State, program_result};
use crate::codegen::{eval, compile_err, result_slot, int_lit_of, lowering_ok, CompileError};

verus! {

/// Wherever compilation succeeds at a depth inside the pool, the result
/// slot lies inside the pool too.
pub proof fn lemma_result_slot_in_pool(e: Expr, d: int)
    requires
        0 <= d,
        compile_err(e, d) is None,
    ensures
        0 <= result_slot(e, d) < POOL_SIZE as int,
    decreases e,
{
    match e {
        Expr::PrimN { prim, args } => match prim {
            Primitive::Add1 | Primitive::Sub1 => {
                if args@.len() == 1 && int_lit_of(args@[0]) is None {
                    lemma_result_slot_in_pool(args@[0], d);
                }
            },
            Primitive::IsChar | Primitive::IntToChar | Primitive::CharToInt => {
                if args@.len() == 1 {
                    lemma_result_slot_in_pool(args@[0], d);
                }
            },
            _ => {},
        },
        Expr::If { if_, .. } => {
            lemma_result_slot_in_pool(*if_, d);
        },
        _ => {},
    }
}

/// A literal leaves exactly its bit encoding in its slot, sets the tag
/// register to its type code, and touches nothing else.
pub proof fn lemma_literal_result(v: Value, d: int, st: State)
    requires
        st.wf(),
        0 <= d < POOL_SIZE as int,
    ensures
        match eval(Expr::Lit { v }, d, st) {
            Some(st1) => {
                &&& st1.regs[d] == enc(v)
                &&& st1.tag == tag_of(v)
                &&& st1.regs.len() == st.regs.len()
                &&& forall|k: int| 0 <= k < st.regs.len() && k != d ==> st1.regs[k] == st.regs[k]
                &&& st1.output == st.output
                &&& st1.pos == st.pos
            },
            None => false,
        },
{
}

/// A whole program consisting of one literal computes the literal's bit
/// encoding and writes nothing, whatever the input stream holds.
pub proof fn lemma_literal_program(v: Value, code: Seq<Instr>, s: int, input: Seq<u8>)
    requires
        lowering_ok(Expr::Lit { v }, 0, code, s),
    ensures
        program_result(code, s, input) == Some((enc(v), Seq::<u8>::empty())),
{
    let st = State::init(input);
    assert(st.regs.len() == POOL_SIZE);
    assert(st.wf());
    assert(exec_code_is_eval(code, Expr::Lit { v }, 0, st));
}

/// Helper naming one instantiation of the generator's semantic guarantee.
spec fn exec_code_is_eval(code: Seq<Instr>, e: Expr, d: int, st: State) -> bool {
    crate::semantics::exec_code(code, st) == eval(e, d, st)
}

/// Constant folding of `add1` is sound: applied to an integer literal it
/// means exactly what the adjusted literal means, in every state.
pub proof fn lemma_constant_fold_add1(e: Expr, n: i64, d: int, st: State)
    requires
        e matches Expr::PrimN { prim: Primitive::Add1, args } && args@.len() == 1 && args@[0]
            == (Expr::Lit { v: Value::IntV(n) }),
    ensures
        eval(e, d, st) == eval(
            Expr::Lit { v: Value::IntV(vstd::wrapping::i64_specs::wrapping_add(n, 1)) },
            d,
            st,
        ),
{
}

/// Constant folding of `sub1` is sound in the same way.
pub proof fn lemma_constant_fold_sub1(e: Expr, n: i64, d: int, st: State)
    requires
        e matches Expr::PrimN { prim: Primitive::Sub1, args } && args@.len() == 1 && args@[0]
            == (Expr::Lit { v: Value::IntV(n) }),
    ensures
        eval(e, d, st) == eval(
            Expr::Lit { v: Value::IntV(vstd::wrapping::i64_specs::wrapping_add(n, -1i64)) },
            d,
            st,
        ),
{
}

/// Two lowerings of a folded `add1` and of the adjusted literal itself are
/// observably identical as whole programs.
pub proof fn lemma_fold_same_program(
    e: Expr,
    n: i64,
    code1: Seq<Instr>,
    s1: int,
    code2: Seq<Instr>,
    s2: int,
    input: Seq<u8>,
)
    requires
        e matches Expr::PrimN { prim: Primitive::Add1, args } && args@.len() == 1 && args@[0]
            == (Expr::Lit { v: Value::IntV(n) }),
        lowering_ok(e, 0, code1, s1),
        lowering_ok(
            Expr::Lit { v: Value::IntV(vstd::wrapping::i64_specs::wrapping_add(n, 1)) },
            0,
            code2,
            s2,
        ),
    ensures
        program_result(code1, s1, input) == program_result(code2, s2, input),
{
    let st = State::init(input);
    assert(st.wf());
    lemma_constant_fold_add1(e, n, 0, st);
    assert(exec_code_is_eval(code1, e, 0, st));
    assert(exec_code_is_eval(
        code2,
        Expr::Lit { v: Value::IntV(vstd::wrapping::i64_specs::wrapping_add(n, 1)) },
        0,
        st,
    ));
}

/// The runtime integer check of `add1`, `sub1` and `zero?` is really
/// performed on a non-literal operand: if the operand's dynamic type is
/// not integer, the whole expression faults.
pub proof fn lemma_unary_int_guard(e: Expr, d: int, st: State, st1: State)
    requires
        st.wf(),
        e matches Expr::PrimN { prim, args } && (prim is Add1 || prim is Sub1 || prim is IsZero)
            && args@.len() == 1 && int_lit_of(args@[0]) is None && eval(args@[0], d, st) == Some(
            st1,
        ),
        st1.tag != TAG_INT,
    ensures
        eval(e, d, st) is None,
{
}

/// What `zero?` produces when its operand really is an integer: 1 in the
/// primary slot for zero, 0 otherwise, tagged boolean.
pub proof fn lemma_zero_test(e: Expr, d: int, st: State, st1: State)
    requires
        st.wf(),
        e matches Expr::PrimN { prim: Primitive::IsZero, args } && args@.len() == 1 && eval(
            args@[0],
            d,
            st,
        ) == Some(st1),
        st1.tag == TAG_INT,
    ensures
        e matches Expr::PrimN { prim: Primitive::IsZero, args } ==> eval(e, d, st) == Some(
            State {
                regs: st1.regs.update(
                    0,
                    if st1.regs[result_slot(args@[0], d)] == 0 { 1i64 } else { 0i64 },
                ),
                tag: TAG_BOOL,
                ..st1
            },
        ),
{
}

/// `char?` is total: it never adds a fault of its own, answers 1 exactly
/// when the operand's dynamic type is character, and tags the answer
/// boolean.
pub proof fn lemma_char_test_total(e: Expr, d: int, st: State, st1: State)
    requires
        st.wf(),
        e matches Expr::PrimN { prim: Primitive::IsChar, args } && args@.len() == 1 && eval(
            args@[0],
            d,
            st,
        ) == Some(st1),
    ensures
        e matches Expr::PrimN { prim: Primitive::IsChar, args } ==> eval(e, d, st) == Some(
            State {
                regs: st1.regs.update(
                    result_slot(args@[0], d),
                    if st1.tag == TAG_CHAR { 1i64 } else { 0i64 },
                ),
                tag: TAG_BOOL,
                ..st1
            },
        ),
{
}

/// `integer->char` around `char->int` only rewrites the tag register: the
/// payload bits, the streams and every pool slot come through unchanged,
/// and the tag ends up back at the character code.
pub proof fn lemma_tag_round_trip(e: Expr, m: Expr, a: Expr, d: int, st: State)
    requires
        st.wf(),
        e matches Expr::PrimN { prim: Primitive::IntToChar, args } && args@.len() == 1 && args@[0]
            == m,
        m matches Expr::PrimN { prim: Primitive::CharToInt, args } && args@.len() == 1 && args@[0]
            == a,
    ensures
        match eval(a, d, st) {
            Some(st1) => eval(e, d, st) == Some(State { tag: TAG_CHAR, ..st1 }),
            None => eval(e, d, st) is None,
        },
{
    match eval(a, d, st) {
        Some(st1) => {
            assert(eval(m, d, st) == Some(State { tag: TAG_INT, ..st1 }));
        },
        None => {
            assert(eval(m, d, st) is None);
        },
    }
}

/// Conditionals select on the truthiness of the condition's numeric
/// encoding — zero picks the alternative, anything else the consequent —
/// with no type check, and both arms deposit in the condition's slot.
pub proof fn lemma_if_on_truthiness(e: Expr, d: int, st: State, st1: State)
    requires
        st.wf(),
        e matches Expr::If { if_, then_, else_ } && eval(*if_, d, st) == Some(st1),
    ensures
        e matches Expr::If { if_, then_, else_ } ==> ({
            let cs = result_slot(*if_, d);
            &&& st1.regs[cs] != 0 ==> eval(e, d, st) == branch_merge(
                eval(*then_, cs, st1),
                cs,
                result_slot(*then_, cs),
            )
            &&& st1.regs[cs] == 0 ==> eval(e, d, st) == branch_merge(
                eval(*else_, cs, st1),
                cs,
                result_slot(*else_, cs),
            )
        }),
{
}

/// How a finished arm commits its result to the shared slot of the
/// conditional.
pub open spec fn branch_merge(r: Option<State>, cs: int, s: int) -> Option<State> {
    match r {
        Some(st2) => if s == cs {
            Some(st2)
        } else {
            Some(State { regs: st2.regs.update(cs, st2.regs[s]), ..st2 })
        },
        None => None,
    }
}

/// Compiling an application fails deterministically, before anything runs.
pub proof fn lemma_application_rejected(e: Expr, d: int)
    requires
        0 <= d < POOL_SIZE as int,
        e matches Expr::App { .. } || e matches Expr::Identifier { .. },
    ensures
        compile_err(e, d) == Some(CompileError::UnsupportedExpr),
{
}

/// Asking for a slot beyond the pool's capacity fails compilation with
/// the definite capacity error — for every expression.
pub proof fn lemma_capacity_guard(e: Expr, d: int)
    requires
        d >= POOL_SIZE as int,
    ensures
        compile_err(e, d) == Some(CompileError::CapacityExceeded),
{
}

} // verus!
