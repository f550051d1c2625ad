//! The expression tree and the tagged-value runtime convention.

use vstd::prelude::*;

verus! {

/// Scalar literal values of the surface language.
#[derive(Clone, Copy, Debug, PartialEq, Eq)]
pub enum Value {
    BoolV(bool),
    IntV(i64),
    CharV(char),
}

/// The fixed set of built-in operations the grammar recognizes.
///
/// `Void` and `PeekByte` are parseable but have no lowering; reaching
/// them at code-generation time is a fatal compilation error.
#[derive(Clone, Copy, Debug, PartialEq, Eq)]
pub enum Primitive {
    Void,
    ReadByte,
    PeekByte,
    Add1,
    Sub1,
    IsZero,
    IsChar,
    IntToChar,
    CharToInt,
    WriteByte,
}

/// Expression tree produced by the parser and consumed once by the code
/// generator. `Identifier` and `App` are parseable but never lowered.
#[derive(Debug, PartialEq, Eq)]
pub enum Expr {
    Lit { v: Value },
    Identifier { id: String },
    PrimN { prim: Primitive, args: Vec<Expr> },
    If { if_: Box<Expr>, then_: Box<Expr>, else_: Box<Expr> },
    App { func: Box<Expr>, args: Vec<Expr> },
}

/// Reserved tag code; also models the "nothing produced yet" state of the
/// tag register at entry to a compiled program.
pub const TAG_NONE: u64 = 0;
/// Tag code of a 64-bit integer result.
pub const TAG_INT: u64 = 1;
/// Tag code of a boolean result.
pub const TAG_BOOL: u64 = 2;
/// Tag code of a character result.
pub const TAG_CHAR: u64 = 3;

/// Number of slots in the register pool: one primary result slot (index 0)
/// plus eight scratch slots.
pub const POOL_SIZE: usize = 9;

/// The dynamic type tag a literal carries at runtime.
pub open spec fn tag_of(v: Value) -> u64 {
    match v {
        Value::IntV(_) => TAG_INT,
        Value::BoolV(_) => TAG_BOOL,
        Value::CharV(_) => TAG_CHAR,
    }
}

/// The 64-bit pattern a literal is compiled to: integers keep their bits,
/// `true`/`false` become 1/0, characters carry their code point.
pub open spec fn enc(v: Value) -> i64 {
    match v {
        Value::IntV(i) => i,
        Value::BoolV(b) => if b { 1 } else { 0 },
        Value::CharV(c) => (c as u32) as i64,
    }
}

/// Executable twin of [`enc`].
pub fn encode_value(v: &Value) -> (r: i64)
    ensures
        r == enc(*v),
{
    match v {
        Value::IntV(i) => *i,
        Value::BoolV(b) => if *b { 1 } else { 0 },
        Value::CharV(c) => (*c as u32) as i64,
    }
}

/// Executable twin of [`tag_of`].
pub fn value_tag(v: &Value) -> (r: u64)
    ensures
        r == tag_of(*v),
{
    match v {
        Value::IntV(_) => TAG_INT,
        Value::BoolV(_) => TAG_BOOL,
        Value::CharV(_) => TAG_CHAR,
    }
}

} // verus!
