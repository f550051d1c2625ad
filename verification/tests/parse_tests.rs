use exprjit::ast::{Expr, Primitive, Value};
use exprjit::parser::parse_expr;

fn parse(s: &str) -> Result<Expr, exprjit::parser::ParseError> {
    let chars: Vec<char> = s.chars().collect();
    parse_expr(&chars)
}

fn parse_ok(s: &str) -> Expr {
    parse(s).unwrap()
}

#[test]
fn parse_integer_literal() {
    assert_eq!(parse_ok("5"), Expr::Lit { v: Value::IntV(5) });
    assert_eq!(parse_ok("  1234  "), Expr::Lit { v: Value::IntV(1234) });
}

#[test]
fn parse_boolean_literals() {
    assert_eq!(parse_ok("true"), Expr::Lit { v: Value::BoolV(true) });
    assert_eq!(parse_ok("false"), Expr::Lit { v: Value::BoolV(false) });
}

#[test]
fn parse_char_literal_plain() {
    assert_eq!(parse_ok("#\\a"), Expr::Lit { v: Value::CharV('a') });
    assert_eq!(parse_ok("#\\0"), Expr::Lit { v: Value::CharV('0') });
}

#[test]
fn parse_char_literal_code_point() {
    assert_eq!(parse_ok("#\\u65"), Expr::Lit { v: Value::CharV('A') });
    assert_eq!(parse_ok("#\\u10"), Expr::Lit { v: Value::CharV('\n') });
}

#[test]
fn parse_char_literal_u_without_digits_is_the_letter_u() {
    assert_eq!(parse_ok("#\\u"), Expr::Lit { v: Value::CharV('u') });
}

#[test]
fn parse_char_literal_invalid_code_point_fails() {
    assert!(parse("#\\u55296").is_err()); // inside the surrogate range
    assert!(parse("#\\u1114112").is_err()); // beyond the last code point
}

#[test]
fn parse_identifier() {
    assert_eq!(parse_ok("foo"), Expr::Identifier { id: "foo".to_string() });
    assert_eq!(parse_ok("truex"), Expr::Identifier { id: "truex".to_string() });
    assert_eq!(parse_ok("12a"), Expr::Identifier { id: "12a".to_string() });
}

#[test]
fn parse_primitive_call() {
    let e = parse_ok("(add1 5)");
    match e {
        Expr::PrimN { prim, args } => {
            assert!(matches!(prim, Primitive::Add1));
            assert_eq!(args, vec![Expr::Lit { v: Value::IntV(5) }]);
        },
        other => panic!("expected a primitive call, got {:?}", other),
    }
}

#[test]
fn parse_every_primitive_name() {
    let cases = [
        ("(void)", Primitive::Void),
        ("(read-byte)", Primitive::ReadByte),
        ("(peek-byte)", Primitive::PeekByte),
        ("(add1 1)", Primitive::Add1),
        ("(sub1 1)", Primitive::Sub1),
        ("(zero? 1)", Primitive::IsZero),
        ("(char? 1)", Primitive::IsChar),
        ("(integer->char 1)", Primitive::IntToChar),
        ("(char->int 1)", Primitive::CharToInt),
        ("(write-byte 1)", Primitive::WriteByte),
    ];
    for (src, want) in cases {
        match parse_ok(src) {
            Expr::PrimN { prim, .. } => assert_eq!(prim, want, "for {}", src),
            other => panic!("expected a primitive call for {}, got {:?}", src, other),
        }
    }
}

#[test]
fn parse_conditional() {
    let e = parse_ok("(if 1 10 20)");
    assert_eq!(
        e,
        Expr::If {
            if_: Box::new(Expr::Lit { v: Value::IntV(1) }),
            then_: Box::new(Expr::Lit { v: Value::IntV(10) }),
            else_: Box::new(Expr::Lit { v: Value::IntV(20) }),
        }
    );
}

#[test]
fn parse_application() {
    let e = parse_ok("(f 1 2)");
    match e {
        Expr::App { func, args } => {
            assert_eq!(*func, Expr::Identifier { id: "f".to_string() });
            assert_eq!(
                args,
                vec![Expr::Lit { v: Value::IntV(1) }, Expr::Lit { v: Value::IntV(2) }]
            );
        },
        other => panic!("expected an application, got {:?}", other),
    }
}

#[test]
fn parse_nested_head_application() {
    let e = parse_ok("((f) 1)");
    match e {
        Expr::App { func, args } => {
            assert!(matches!(*func, Expr::App { .. }));
            assert_eq!(args.len(), 1);
        },
        other => panic!("expected an application, got {:?}", other),
    }
}

#[test]
fn parse_nested_primitives() {
    let e = parse_ok("(add1 (sub1 (zero? 0)))");
    match e {
        Expr::PrimN { prim, args } => {
            assert!(matches!(prim, Primitive::Add1));
            assert!(matches!(args[0], Expr::PrimN { .. }));
        },
        other => panic!("expected a primitive call, got {:?}", other),
    }
}

#[test]
fn parse_accepts_any_bracket_style() {
    let a = parse_ok("(add1 5)");
    let b = parse_ok("[add1 5]");
    let c = parse_ok("{add1 5)");
    assert_eq!(a, b);
    assert_eq!(a, c);
}

#[test]
fn parse_rejects_malformed_input() {
    assert!(parse("").is_err());
    assert!(parse("   ").is_err());
    assert!(parse("(").is_err());
    assert!(parse("()").is_err());
    assert!(parse("(add1 5").is_err());
    assert!(parse("5 6").is_err());
    assert!(parse(")").is_err());
}

#[test]
fn parse_rejects_oversized_integer() {
    assert!(parse("99999999999999999999").is_err());
    assert_eq!(
        parse_ok("9223372036854775807"),
        Expr::Lit { v: Value::IntV(i64::MAX) }
    );
}

#[test]
fn parse_leading_zero_run_is_an_identifier() {
    assert_eq!(parse_ok("0"), Expr::Lit { v: Value::IntV(0) });
    assert_eq!(parse_ok("007"), Expr::Identifier { id: "007".to_string() });
    assert_eq!(parse_ok("00"), Expr::Identifier { id: "00".to_string() });
    // an oversized run with a leading zero is an identifier, not an error
    assert_eq!(
        parse_ok("099999999999999999999"),
        Expr::Identifier { id: "099999999999999999999".to_string() }
    );
}

#[test]
fn parse_char_code_point_allows_leading_zeros() {
    assert_eq!(parse_ok("#\\u065"), Expr::Lit { v: Value::CharV('A') });
}
