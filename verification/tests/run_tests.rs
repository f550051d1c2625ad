use exprjit::ast::Expr;
use exprjit::codegen::{compile, compile_expr, run_program, CompileError, Outcome};
use exprjit::flatten::{flatten_program, run_flat, FlatInstr};
use exprjit::parser::parse_expr;
use exprjit::semantics::Machine;

fn parse(s: &str) -> Expr {
    let chars: Vec<char> = s.chars().collect();
    parse_expr(&chars).unwrap()
}

fn run(s: &str, input: &[u8]) -> (Outcome, Vec<u8>) {
    let prog = compile(&parse(s)).unwrap();
    run_program(&prog, &input.to_vec())
}

fn result_of(s: &str) -> Outcome {
    run(s, &[]).0
}

fn compile_error_of(s: &str) -> CompileError {
    compile(&parse(s)).unwrap_err()
}

#[test]
fn literal_programs_echo_their_encoding() {
    assert_eq!(result_of("5"), Outcome::Value(5));
    assert_eq!(result_of("true"), Outcome::Value(1));
    assert_eq!(result_of("false"), Outcome::Value(0));
    assert_eq!(result_of("#\\a"), Outcome::Value(97));
}

#[test]
fn constant_folding_matches_the_literal() {
    assert_eq!(result_of("(add1 5)"), Outcome::Value(6));
    assert_eq!(result_of("(add1 5)"), result_of("6"));
    assert_eq!(result_of("(sub1 5)"), Outcome::Value(4));
    assert_eq!(result_of("(sub1 5)"), result_of("4"));
}

#[test]
fn folded_increment_wraps_like_the_machine() {
    assert_eq!(
        result_of("(add1 9223372036854775807)"),
        Outcome::Value(i64::MIN)
    );
}

#[test]
fn add1_on_a_boolean_faults() {
    assert_eq!(result_of("(add1 true)"), Outcome::Fault);
    assert_eq!(result_of("(sub1 #\\a)"), Outcome::Fault);
}

#[test]
fn add1_checks_nonliteral_operands_at_runtime() {
    // an operand the fold cannot see: tagged integer, so it passes
    assert_eq!(result_of("(add1 (char->int #\\a))"), Outcome::Value(98));
    // tagged character, so the emitted check faults
    assert_eq!(result_of("(add1 (integer->char 5))"), Outcome::Fault);
}

#[test]
fn zero_test_on_integers() {
    assert_eq!(result_of("(zero? 0)"), Outcome::Value(1));
    assert_eq!(result_of("(zero? 1)"), Outcome::Value(0));
}

#[test]
fn zero_test_on_a_boolean_faults() {
    assert_eq!(result_of("(zero? true)"), Outcome::Fault);
}

#[test]
fn conditionals_select_on_truthiness() {
    assert_eq!(result_of("(if 1 10 20)"), Outcome::Value(10));
    assert_eq!(result_of("(if 0 10 20)"), Outcome::Value(20));
    // any nonzero encoding is truthy, not just integers
    assert_eq!(result_of("(if true 10 20)"), Outcome::Value(10));
    assert_eq!(result_of("(if false 10 20)"), Outcome::Value(20));
}

#[test]
fn char_test_is_total() {
    assert_eq!(result_of("(char? #\\a)"), Outcome::Value(1));
    assert_eq!(result_of("(char? 5)"), Outcome::Value(0));
    assert_eq!(result_of("(char? true)"), Outcome::Value(0));
}

#[test]
fn tag_round_trip_preserves_the_payload() {
    assert_eq!(
        result_of("(integer->char (char->int #\\a))"),
        Outcome::Value(97)
    );
    assert_eq!(
        result_of("(char? (integer->char (char->int #\\a)))"),
        Outcome::Value(1)
    );
}

#[test]
fn reinterpretation_is_unchecked() {
    // integer->char never validates the bits it retags
    assert_eq!(result_of("(char? (integer->char 5))"), Outcome::Value(1));
}

#[test]
fn applications_fail_to_compile() {
    assert_eq!(compile_error_of("(f 1 2)"), CompileError::UnsupportedExpr);
    assert_eq!(compile_error_of("x"), CompileError::UnsupportedExpr);
}

#[test]
fn unlowered_primitives_fail_to_compile() {
    assert_eq!(compile_error_of("(void)"), CompileError::UnsupportedPrimitive);
    assert_eq!(
        compile_error_of("(peek-byte)"),
        CompileError::UnsupportedPrimitive
    );
}

#[test]
fn wrong_arity_fails_to_compile() {
    assert_eq!(compile_error_of("(add1)"), CompileError::UnsupportedPrimitive);
    assert_eq!(
        compile_error_of("(add1 1 2)"),
        CompileError::UnsupportedPrimitive
    );
    assert_eq!(
        compile_error_of("(zero?)"),
        CompileError::UnsupportedPrimitive
    );
    assert_eq!(
        compile_error_of("(read-byte 1)"),
        CompileError::UnsupportedPrimitive
    );
    assert_eq!(
        compile_error_of("(write-byte)"),
        CompileError::UnsupportedPrimitive
    );
}

#[test]
fn lowering_beyond_the_pool_reports_capacity() {
    let e = parse("5");
    assert!(compile_expr(&e, 8).is_ok());
    assert_eq!(
        compile_expr(&e, 9).unwrap_err(),
        CompileError::CapacityExceeded
    );
    assert_eq!(
        compile_expr(&e, 1000).unwrap_err(),
        CompileError::CapacityExceeded
    );
}

#[test]
fn deep_nesting_reuses_slots_and_compiles() {
    let mut s = String::from("0");
    for _ in 0..64 {
        s = format!("(add1 {})", s);
    }
    // every level works in place on the operand's slot
    assert_eq!(result_of(&s), Outcome::Value(64));
}

#[test]
fn read_byte_reads_one_byte() {
    assert_eq!(run("(read-byte)", &[7]).0, Outcome::Value(7));
    assert_eq!(run("(add1 (read-byte))", &[41]).0, Outcome::Value(42));
    assert_eq!(run("(zero? (read-byte))", &[0]).0, Outcome::Value(1));
}

#[test]
fn read_byte_at_end_of_input_yields_zero() {
    assert_eq!(run("(read-byte)", &[]).0, Outcome::Value(0));
}

#[test]
fn write_byte_sends_the_primary_slot() {
    // the operand is parsed but never lowered; the helper takes whatever
    // the primary slot holds, which is still zero at entry
    let (outcome, output) = run("(write-byte 65)", &[]);
    assert_eq!(outcome, Outcome::Value(0));
    assert_eq!(output, vec![0u8]);
}

#[test]
fn write_byte_echoes_a_read_byte_through_the_primary_slot() {
    // the condition's byte lands in the primary slot, and that is what
    // the writer helper is handed inside the chosen arm
    let (outcome, output) = run("(if (read-byte) (write-byte 1) (write-byte 2))", &[65]);
    assert_eq!(outcome, Outcome::Value(65));
    assert_eq!(output, vec![65u8]);
}

#[test]
fn flat_form_ends_with_ret_and_jumps_go_forward_to_their_labels() {
    let prog = compile(&parse("(if (zero? (read-byte)) (add1 1) (sub1 1))")).unwrap();
    let flat = flatten_program(&prog);
    assert!(matches!(flat.last(), Some(FlatInstr::Ret)));
    let mut saw_jump = false;
    for (k, fi) in flat.iter().enumerate() {
        match fi {
            FlatInstr::Jmp { target } | FlatInstr::JmpIfZero { target, .. } => {
                saw_jump = true;
                assert!(*target > k);
                assert!(matches!(flat[*target], FlatInstr::Label { id } if id == *target));
            },
            FlatInstr::Label { id } => assert_eq!(*id, k),
            _ => {},
        }
    }
    assert!(saw_jump);
}

#[test]
fn flat_form_of_straight_line_code_has_no_labels() {
    let prog = compile(&parse("(add1 (char->int #\\a))")).unwrap();
    let flat = flatten_program(&prog);
    for fi in flat.iter() {
        assert!(!matches!(
            fi,
            FlatInstr::Jmp { .. } | FlatInstr::JmpIfZero { .. } | FlatInstr::Label { .. }
        ));
    }
}

fn run_flattened(s: &str, input: &[u8]) -> (Outcome, Vec<u8>) {
    let prog = compile(&parse(s)).unwrap();
    let flat = flatten_program(&prog);
    let mut m = Machine { regs: vec![0i64; 9], tag: 0, pos: 0, output: Vec::new() };
    let ok = run_flat(&flat, &mut m, &input.to_vec());
    if ok {
        (Outcome::Value(m.regs[prog.slot]), m.output)
    } else {
        (Outcome::Fault, m.output)
    }
}

#[test]
fn flat_form_runs_like_the_structured_form() {
    let cases: [(&str, &[u8]); 6] = [
        ("(if (zero? (read-byte)) (add1 1) (sub1 (char->int #\\a)))", &[0]),
        ("(if (zero? (read-byte)) (add1 1) (sub1 (char->int #\\a)))", &[5]),
        ("(if 1 (if 0 1 2) 3)", &[]),
        ("(add1 true)", &[]),
        ("(if (read-byte) (write-byte 1) (write-byte 2))", &[65]),
        ("(char? (integer->char (char->int #\\a)))", &[]),
    ];
    for (src, input) in cases {
        assert_eq!(run_flattened(src, input), run(src, input), "for {}", src);
    }
}

#[test]
fn flat_form_of_a_conditional_takes_the_right_arm() {
    assert_eq!(run_flattened("(if 0 10 20)", &[]).0, Outcome::Value(20));
    assert_eq!(run_flattened("(if 7 10 20)", &[]).0, Outcome::Value(10));
}

#[test]
fn nested_conditionals_run_correctly() {
    assert_eq!(
        result_of("(if (zero? 0) (if 0 1 2) (if 1 3 4))"),
        Outcome::Value(2)
    );
    assert_eq!(
        result_of("(if (zero? 5) (if 0 1 2) (if 1 3 4))"),
        Outcome::Value(3)
    );
}

#[test]
fn faults_propagate_out_of_subexpressions() {
    assert_eq!(result_of("(zero? (add1 true))"), Outcome::Fault);
    assert_eq!(result_of("(if (add1 true) 1 2)"), Outcome::Fault);
}
