//! Recursive-descent reader for the surface syntax.
//!
//! Parenthesized prefix forms over three kinds of atoms. An atom is a
//! maximal run of non-delimiter characters, classified afterwards:
//! `true`/`false`, a run of decimal digits, a keyword of the fixed
//! primitive set, or — failing those — a bare identifier. Character
//! literals are written `#\<char>` or `#\uNNN` with a decimal code point.
//! Any of `(`/`[`/`{` opens a compound form and any of `)`/`]`/`}` closes
//! one. Inside a compound form the head decides: the keyword `if` makes a
//! conditional, a primitive keyword makes a primitive call, anything else
//! a general application.

use vstd::prelude::*;
use crate::ast::{Expr, Primitive, Value};

verus! {

/// A failed parse, with the position where reading stopped.
#[derive(Clone, Copy, Debug, PartialEq, Eq)]
pub struct ParseError {
    pub at: usize,
}

/// Characters that delimit atoms; everything else may appear in an
/// identifier.
pub open spec fn is_ident_char(c: char) -> bool {
    !(c == '(' || c == ')' || c == '[' || c == ']' || c == '{' || c == '}' || c == '"' || c == ','
        || c == '\'' || c == '`' || c == ';' || c == '#' || c == '|' || c == '\\'
        || is_space_char(c))
}

/// The whitespace the reader skips between tokens.
pub open spec fn is_space_char(c: char) -> bool {
    c == ' ' || c == '\t' || c == '\n' || c == '\r' || c == '\u{b}' || c == '\u{c}'
}

/// Opening delimiters of a compound form.
pub open spec fn is_open_char(c: char) -> bool {
    c == '(' || c == '[' || c == '{'
}

/// Closing delimiters of a compound form.
pub open spec fn is_close_char(c: char) -> bool {
    c == ')' || c == ']' || c == '}'
}

/// Decimal digits.
pub open spec fn is_digit(c: char) -> bool {
    48 <= c as u32 && c as u32 <= 57
}

/// The numeric value of one decimal digit.
pub open spec fn digit_val(c: char) -> int {
    c as u32 - 48
}

/// Every character of the sequence is a decimal digit.
pub open spec fn all_digits(s: Seq<char>) -> bool {
    forall|j: int| 0 <= j < s.len() ==> is_digit(#[trigger] s[j])
}

/// The number a run of decimal digits denotes.
pub open spec fn digits_val(s: Seq<char>) -> int
    decreases s.len(),
{
    if s.len() == 0 {
        0
    } else {
        digits_val(s.drop_last()) * 10 + digit_val(s.last())
    }
}

/// A digit run denotes a nonnegative number.
pub proof fn lemma_digits_val_nonneg(s: Seq<char>)
    requires
        all_digits(s),
    ensures
        digits_val(s) >= 0,
    decreases s.len(),
{
    if s.len() > 0 {
        assert(all_digits(s.drop_last()));
        lemma_digits_val_nonneg(s.drop_last());
    }
}

/// Extending a digit run never shrinks its value.
pub proof fn lemma_digits_val_prefix(s: Seq<char>, k: int)
    requires
        all_digits(s),
        0 <= k <= s.len(),
    ensures
        digits_val(s.subrange(0, k)) <= digits_val(s),
    decreases s.len(),
{
    if k == s.len() {
        assert(s.subrange(0, k) =~= s);
    } else {
        let shorter = s.drop_last();
        assert(all_digits(shorter));
        assert(s.subrange(0, k) =~= shorter.subrange(0, k));
        lemma_digits_val_prefix(shorter, k);
        lemma_digits_val_nonneg(shorter);
        assert(digits_val(shorter) * 10 >= digits_val(shorter));
        assert(digit_val(s.last()) >= 0);
    }
}

/// Executable twin of [`is_ident_char`], the delimiter test.
pub fn is_identifier_char(c: &char) -> (r: bool)
    ensures
        r == is_ident_char(*c),
{
    match *c {
        '(' | ')' | '[' | ']' | '{' | '}' | '"' | ',' | '\'' | '`' | ';' | '#' | '|' | '\\'
            | ' ' | '\t' | '\n' | '\r' | '\u{b}' | '\u{c}' => false,
        _ => true,
    }
}

/// Executable twin of [`is_digit`].
fn is_digit_char(c: char) -> (r: bool)
    ensures
        r == is_digit(c),
{
    let u = c as u32;
    48 <= u && u <= 57
}

/// Executable twin of [`is_space_char`].
fn is_space(c: char) -> (r: bool)
    ensures
        r == is_space_char(c),
{
    match c {
        ' ' | '\t' | '\n' | '\r' | '\u{b}' | '\u{c}' => true,
        _ => false,
    }
}

/// Does the opening delimiter of a compound form stand at `pos`?
pub fn parse_open(src: &Vec<char>, pos: usize) -> (r: bool)
    requires
        pos <= src@.len(),
    ensures
        r <==> (pos < src@.len() && is_open_char(src@[pos as int])),
{
    pos < src.len() && (src[pos] == '(' || src[pos] == '[' || src[pos] == '{')
}

/// Does the closing delimiter of a compound form stand at `pos`?
pub fn parse_close(src: &Vec<char>, pos: usize) -> (r: bool)
    requires
        pos <= src@.len(),
    ensures
        r <==> (pos < src@.len() && is_close_char(src@[pos as int])),
{
    pos < src.len() && (src[pos] == ')' || src[pos] == ']' || src[pos] == '}')
}

/// Where the run of whitespace starting at `pos` ends.
pub open spec fn ws_end(s: Seq<char>, pos: int) -> int
    decreases s.len() - pos
        when 0 <= pos <= s.len()
{
    if pos < s.len() && is_space_char(s[pos]) {
        ws_end(s, pos + 1)
    } else {
        pos
    }
}

/// Where the run of identifier characters starting at `pos` ends.
pub open spec fn atom_end(s: Seq<char>, pos: int) -> int
    decreases s.len() - pos
        when 0 <= pos <= s.len()
{
    if pos < s.len() && is_ident_char(s[pos]) {
        atom_end(s, pos + 1)
    } else {
        pos
    }
}

/// Where the run of decimal digits starting at `pos` ends.
pub open spec fn digit_end(s: Seq<char>, pos: int) -> int
    decreases s.len() - pos
        when 0 <= pos <= s.len()
{
    if pos < s.len() && is_digit(s[pos]) {
        digit_end(s, pos + 1)
    } else {
        pos
    }
}

/// The three scan ends stay inside the text.
pub proof fn lemma_scan_ends_bounded(s: Seq<char>, pos: int)
    requires
        0 <= pos <= s.len(),
    ensures
        pos <= ws_end(s, pos) <= s.len(),
        pos <= atom_end(s, pos) <= s.len(),
        pos <= digit_end(s, pos) <= s.len(),
    decreases s.len() - pos,
{
    if pos < s.len() {
        lemma_scan_ends_bounded(s, pos + 1);
    }
}

/// Skip whitespace; lands on the first non-blank character or the end.
pub fn skip_whitespace(src: &Vec<char>, pos: usize) -> (r: usize)
    requires
        pos <= src@.len(),
    ensures
        pos <= r <= src@.len(),
        forall|j: int| pos <= j < r ==> is_space_char(#[trigger] src@[j]),
        r < src@.len() ==> !is_space_char(src@[r as int]),
        r as int == ws_end(src@, pos as int),
{
    let mut cur = pos;
    while cur < src.len() && is_space(src[cur])
        invariant
            pos <= cur <= src@.len(),
            forall|j: int| pos <= j < cur ==> is_space_char(#[trigger] src@[j]),
            ws_end(src@, pos as int) == ws_end(src@, cur as int),
        decreases src@.len() - cur,
    {
        cur = cur + 1;
    }
    cur
}

/// The end of the maximal run of identifier characters starting at `pos`.
pub fn scan_atom(src: &Vec<char>, pos: usize) -> (end: usize)
    requires
        pos <= src@.len(),
    ensures
        pos <= end <= src@.len(),
        forall|j: int| pos <= j < end ==> is_ident_char(#[trigger] src@[j]),
        end < src@.len() ==> !is_ident_char(src@[end as int]),
        end as int == atom_end(src@, pos as int),
{
    let mut cur = pos;
    while cur < src.len() && is_identifier_char(&src[cur])
        invariant
            pos <= cur <= src@.len(),
            forall|j: int| pos <= j < cur ==> is_ident_char(#[trigger] src@[j]),
            atom_end(src@, pos as int) == atom_end(src@, cur as int),
        decreases src@.len() - cur,
    {
        cur = cur + 1;
    }
    cur
}

/// The end of the maximal run of decimal digits starting at `pos`.
fn scan_digits(src: &Vec<char>, pos: usize) -> (end: usize)
    requires
        pos <= src@.len(),
    ensures
        pos <= end <= src@.len(),
        forall|j: int| pos <= j < end ==> is_digit(#[trigger] src@[j]),
        end < src@.len() ==> !is_digit(src@[end as int]),
        end as int == digit_end(src@, pos as int),
{
    let mut cur = pos;
    while cur < src.len() && is_digit_char(src[cur])
        invariant
            pos <= cur <= src@.len(),
            forall|j: int| pos <= j < cur ==> is_digit(#[trigger] src@[j]),
            digit_end(src@, pos as int) == digit_end(src@, cur as int),
        decreases src@.len() - cur,
    {
        cur = cur + 1;
    }
    cur
}

/// Does `[pos, end)` of the source spell exactly `name`?
fn atom_matches(src: &Vec<char>, pos: usize, end: usize, name: &str) -> (r: bool)
    requires
        pos <= end <= src@.len(),
    ensures
        r <==> src@.subrange(pos as int, end as int) == name@,
{
    let n = name.unicode_len();
    if n != end - pos {
        proof {
            assert(src@.subrange(pos as int, end as int).len() != name@.len());
        }
        return false;
    }
    let ghost sub = src@.subrange(pos as int, end as int);
    let mut i: usize = 0;
    while i < n
        invariant
            n == name@.len(),
            n == end - pos,
            pos <= end <= src@.len(),
            i <= n,
            sub == src@.subrange(pos as int, end as int),
            forall|j: int| 0 <= j < i ==> sub[j] == name@[j],
        decreases n - i,
    {
        if src[pos + i] != name.get_char(i) {
            proof {
                assert(sub[i as int] != name@[i as int]);
            }
            return false;
        }
        i = i + 1;
    }
    proof {
        assert(sub =~= name@);
    }
    true
}

/// Classification of a `true`/`false` atom.
pub open spec fn bool_atom(s: Seq<char>) -> Option<Value> {
    if s == "true"@ {
        Some(Value::BoolV(true))
    } else if s == "false"@ {
        Some(Value::BoolV(false))
    } else {
        None
    }
}

/// A canonical decimal numeral: a nonempty digit run with no leading
/// zero (a lone `0` is canonical).
pub open spec fn canonical_digit_run(s: Seq<char>) -> bool {
    &&& s.len() > 0
    &&& all_digits(s)
    &&& (s.len() == 1 || s[0] != '0')
}

/// Classification of an integer atom: a canonical numeral whose value
/// fits a 64-bit signed integer. A run with a leading zero is no integer
/// (it reads as an identifier), and a canonical run that overflows is a
/// parse error, not an identifier.
pub open spec fn int_atom(s: Seq<char>) -> Option<Value> {
    if canonical_digit_run(s) && digits_val(s) <= i64::MAX {
        Some(Value::IntV(digits_val(s) as i64))
    } else {
        None
    }
}

/// Classification of a scalar atom: boolean first, then integer.
pub open spec fn atom_value(s: Seq<char>) -> Option<Value> {
    match bool_atom(s) {
        Some(v) => Some(v),
        None => int_atom(s),
    }
}

/// Classification of a primitive keyword.
pub open spec fn prim_of_name(s: Seq<char>) -> Option<Primitive> {
    if s == "void"@ {
        Some(Primitive::Void)
    } else if s == "read-byte"@ {
        Some(Primitive::ReadByte)
    } else if s == "peek-byte"@ {
        Some(Primitive::PeekByte)
    } else if s == "add1"@ {
        Some(Primitive::Add1)
    } else if s == "sub1"@ {
        Some(Primitive::Sub1)
    } else if s == "zero?"@ {
        Some(Primitive::IsZero)
    } else if s == "char?"@ {
        Some(Primitive::IsChar)
    } else if s == "integer->char"@ {
        Some(Primitive::IntToChar)
    } else if s == "char->int"@ {
        Some(Primitive::CharToInt)
    } else if s == "write-byte"@ {
        Some(Primitive::WriteByte)
    } else {
        None
    }
}

/// Read a `true`/`false` atom.
pub fn parse_bool(src: &Vec<char>, pos: usize, end: usize) -> (r: Option<Value>)
    requires
        pos <= end <= src@.len(),
    ensures
        r == bool_atom(src@.subrange(pos as int, end as int)),
{
    if atom_matches(src, pos, end, "true") {
        Some(Value::BoolV(true))
    } else if atom_matches(src, pos, end, "false") {
        Some(Value::BoolV(false))
    } else {
        None
    }
}

/// The value of a digit run: `Some` when the range is nonempty, all
/// digits, and its value fits a 64-bit signed integer. Leading zeros are
/// allowed here; only [`int_atom`] refuses them.
pub open spec fn digit_run_val(s: Seq<char>) -> Option<i64> {
    if s.len() > 0 && all_digits(s) && digits_val(s) <= i64::MAX {
        Some(digits_val(s) as i64)
    } else {
        None
    }
}

/// Read an integer atom; `None` when the atom is not a canonical numeral
/// or its value does not fit.
pub fn parse_int(src: &Vec<char>, pos: usize, end: usize) -> (r: Option<Value>)
    requires
        pos <= end <= src@.len(),
    ensures
        r == int_atom(src@.subrange(pos as int, end as int)),
{
    if end - pos > 1 && src[pos] == '0' {
        return None;
    }
    match parse_digits(src, pos, end) {
        Some(n) => Some(Value::IntV(n)),
        None => None,
    }
}

/// Read the value of a digit run.
fn parse_digits(src: &Vec<char>, pos: usize, end: usize) -> (r: Option<i64>)
    requires
        pos <= end <= src@.len(),
    ensures
        r == digit_run_val(src@.subrange(pos as int, end as int)),
{
    let ghost sub = src@.subrange(pos as int, end as int);
    if pos == end {
        return None;
    }
    let mut n: i64 = 0;
    let mut i: usize = pos;
    while i < end
        invariant
            pos <= i <= end <= src@.len(),
            sub == src@.subrange(pos as int, end as int),
            forall|j: int| pos <= j < i ==> is_digit(#[trigger] src@[j]),
            0 <= n,
            n == digits_val(src@.subrange(pos as int, i as int)),
        decreases end - i,
    {
        let u = src[i] as u32;
        if !(48 <= u && u <= 57) {
            proof {
                assert(!is_digit(sub[i - pos]));
            }
            return None;
        }
        let d: i64 = (u - 48) as i64;
        proof {
            assert(src@.subrange(pos as int, i + 1).drop_last() =~= src@.subrange(
                pos as int,
                i as int,
            ));
            assert(src@.subrange(pos as int, i + 1).last() == src@[i as int]);
        }
        if n > (i64::MAX - d) / 10 {
            proof {
                assert(n * 10 + d > i64::MAX) by (nonlinear_arith)
                    requires
                        n > (i64::MAX - d) / 10,
                        0 <= d <= 9,
                        0 <= n,
                ;
                assert(digits_val(src@.subrange(pos as int, i + 1)) > i64::MAX);
                if all_digits(sub) {
                    assert(sub.subrange(0, i + 1 - pos) =~= src@.subrange(pos as int, i + 1));
                    lemma_digits_val_prefix(sub, i + 1 - pos);
                }
            }
            return None;
        }
        proof {
            assert(n * 10 + d <= i64::MAX) by (nonlinear_arith)
                requires
                    n <= (i64::MAX - d) / 10,
                    0 <= d <= 9,
                    0 <= n,
            ;
        }
        n = n * 10 + d;
        i = i + 1;
    }
    proof {
        assert(sub =~= src@.subrange(pos as int, i as int));
        assert(all_digits(sub));
    }
    Some(n)
}

/// Read a scalar atom: boolean or integer.
pub fn parse_value(src: &Vec<char>, pos: usize, end: usize) -> (r: Option<Value>)
    requires
        pos <= end <= src@.len(),
    ensures
        r == atom_value(src@.subrange(pos as int, end as int)),
{
    match parse_bool(src, pos, end) {
        Some(v) => Some(v),
        None => parse_int(src, pos, end),
    }
}

/// Read a primitive keyword.
pub fn parse_prim_name(src: &Vec<char>, pos: usize, end: usize) -> (r: Option<Primitive>)
    requires
        pos <= end <= src@.len(),
    ensures
        r == prim_of_name(src@.subrange(pos as int, end as int)),
{
    if atom_matches(src, pos, end, "void") {
        Some(Primitive::Void)
    } else if atom_matches(src, pos, end, "read-byte") {
        Some(Primitive::ReadByte)
    } else if atom_matches(src, pos, end, "peek-byte") {
        Some(Primitive::PeekByte)
    } else if atom_matches(src, pos, end, "add1") {
        Some(Primitive::Add1)
    } else if atom_matches(src, pos, end, "sub1") {
        Some(Primitive::Sub1)
    } else if atom_matches(src, pos, end, "zero?") {
        Some(Primitive::IsZero)
    } else if atom_matches(src, pos, end, "char?") {
        Some(Primitive::IsChar)
    } else if atom_matches(src, pos, end, "integer->char") {
        Some(Primitive::IntToChar)
    } else if atom_matches(src, pos, end, "char->int") {
        Some(Primitive::CharToInt)
    } else if atom_matches(src, pos, end, "write-byte") {
        Some(Primitive::WriteByte)
    } else {
        None
    }
}

/// Two characters with the same code point are the same character.
pub proof fn lemma_char_code_injective(a: char, b: char)
    requires
        a as u32 == b as u32,
    ensures
        a == b,
{
}

/// The character-literal text at `pos` reads as the character `c`:
/// either `#\\<char>` taking the next character as it stands, or `#\\uNNN`
/// whose maximal digit run names `c`'s code point (which, `c` being a
/// character, lies below the surrogate range or between it and the last
/// code point).
pub open spec fn char_parses_to(s: Seq<char>, pos: int, c: char) -> bool {
    &&& 0 <= pos
    &&& pos + 2 < s.len()
    &&& s[pos] == '#'
    &&& s[pos + 1] == '\\'
    &&& if s[pos + 2] == 'u' && pos + 3 < s.len() && is_digit(s[pos + 3]) {
        let val = digits_val(s.subrange(pos + 3, digit_end(s, pos + 3)));
        &&& (c as u32) as int == val
        &&& (val < 0xD800 || (0xE000 <= val && val <= 0x10FFFF))
    } else {
        c == s[pos + 2]
    }
}

/// The text from `pos` on begins with exactly the expression `e`. Every
/// position the definition consults is computed from the text, so for a
/// given text and position at most one tree can satisfy it.
pub open spec fn parses_to(s: Seq<char>, pos: int, e: Expr) -> bool
    decreases e,
{
    match e {
        Expr::Lit { v } => match v {
            Value::CharV(c) => char_parses_to(s, pos, c),
            _ => {
                &&& 0 <= pos < s.len()
                &&& is_ident_char(s[pos])
                &&& atom_value(s.subrange(pos, atom_end(s, pos))) == Some(v)
            },
        },
        Expr::Identifier { id } => {
            &&& 0 <= pos < s.len()
            &&& is_ident_char(s[pos])
            &&& atom_value(s.subrange(pos, atom_end(s, pos))) is None
            &&& !canonical_digit_run(s.subrange(pos, atom_end(s, pos)))
            &&& id@ == s.subrange(pos, atom_end(s, pos))
        },
        Expr::PrimN { prim, args } => {
            let cur = ws_end(s, pos + 1);
            let hend = atom_end(s, cur);
            &&& 0 <= pos < s.len()
            &&& is_open_char(s[pos])
            &&& cur < s.len()
            &&& hend > cur
            &&& s.subrange(cur, hend) != "if"@
            &&& prim_of_name(s.subrange(cur, hend)) == Some(prim)
            &&& args_parse_to(s, hend, args@)
        },
        Expr::If { if_, then_, else_ } => {
            let cur = ws_end(s, pos + 1);
            let hend = atom_end(s, cur);
            let p1 = ws_end(s, hend);
            let p3 = ws_end(s, extent(s, p1, *if_));
            let p5 = ws_end(s, extent(s, p3, *then_));
            let p7 = ws_end(s, extent(s, p5, *else_));
            &&& 0 <= pos < s.len()
            &&& is_open_char(s[pos])
            &&& cur < s.len()
            &&& hend > cur
            &&& s.subrange(cur, hend) == "if"@
            &&& parses_to(s, p1, *if_)
            &&& parses_to(s, p3, *then_)
            &&& parses_to(s, p5, *else_)
            &&& p7 < s.len()
            &&& is_close_char(s[p7])
        },
        Expr::App { func, args } => {
            let cur = ws_end(s, pos + 1);
            let hend = atom_end(s, cur);
            &&& 0 <= pos < s.len()
            &&& is_open_char(s[pos])
            &&& cur < s.len()
            &&& (hend > cur ==> s.subrange(cur, hend) != "if"@ && prim_of_name(
                s.subrange(cur, hend),
            ) is None)
            &&& parses_to(s, cur, *func)
            &&& args_parse_to(s, extent(s, cur, *func), args@)
        },
    }
}

/// Where a character literal read at `pos` ends.
pub open spec fn char_extent(s: Seq<char>, pos: int) -> int {
    if s[pos + 2] == 'u' && pos + 3 < s.len() && is_digit(s[pos + 3]) {
        digit_end(s, pos + 3)
    } else {
        pos + 3
    }
}

/// Where the text of `e`, read at `pos`, ends.
pub open spec fn extent(s: Seq<char>, pos: int, e: Expr) -> int
    decreases e,
{
    match e {
        Expr::Lit { v } => match v {
            Value::CharV(_) => char_extent(s, pos),
            _ => atom_end(s, pos),
        },
        Expr::Identifier { .. } => atom_end(s, pos),
        Expr::PrimN { args, .. } => args_extent(
            s,
            atom_end(s, ws_end(s, pos + 1)),
            args@,
        ),
        Expr::If { if_, then_, else_ } => {
            let p1 = ws_end(s, atom_end(s, ws_end(s, pos + 1)));
            let p3 = ws_end(s, extent(s, p1, *if_));
            let p5 = ws_end(s, extent(s, p3, *then_));
            ws_end(s, extent(s, p5, *else_)) + 1
        },
        Expr::App { func, args } => {
            let cur = ws_end(s, pos + 1);
            args_extent(s, extent(s, cur, *func), args@)
        },
    }
}

/// The text from `pos` on reads as the argument list `args` followed by a
/// closing delimiter, with whitespace skipped before each item.
pub open spec fn args_parse_to(s: Seq<char>, pos: int, args: Seq<Expr>) -> bool
    decreases args,
{
    let cur = ws_end(s, pos);
    if args.len() == 0 {
        &&& cur < s.len()
        &&& is_close_char(s[cur])
    } else {
        &&& cur < s.len()
        &&& !is_close_char(s[cur])
        &&& parses_to(s, cur, args[0])
        &&& args_parse_to(s, extent(s, cur, args[0]), args.subrange(1, args.len() as int))
    }
}

/// Where the argument list's text ends: one past its closing delimiter.
pub open spec fn args_extent(s: Seq<char>, pos: int, args: Seq<Expr>) -> int
    decreases args,
{
    let cur = ws_end(s, pos);
    if args.len() == 0 {
        cur + 1
    } else {
        args_extent(s, extent(s, cur, args[0]), args.subrange(1, args.len() as int))
    }
}

/// An expression's text occupies a nonempty, in-bounds range.
pub proof fn lemma_extent_bounds(s: Seq<char>, pos: int, e: Expr)
    requires
        parses_to(s, pos, e),
    ensures
        pos < extent(s, pos, e) <= s.len(),
    decreases e,
{
    match e {
        Expr::Lit { v } => match v {
            Value::CharV(_) => {
                if s[pos + 2] == 'u' && pos + 3 < s.len() && is_digit(s[pos + 3]) {
                    lemma_scan_ends_bounded(s, pos + 4);
                    assert(digit_end(s, pos + 3) == digit_end(s, pos + 4));
                }
            },
            _ => {
                lemma_scan_ends_bounded(s, pos + 1);
                assert(atom_end(s, pos) == atom_end(s, pos + 1));
            },
        },
        Expr::Identifier { .. } => {
            lemma_scan_ends_bounded(s, pos + 1);
            assert(atom_end(s, pos) == atom_end(s, pos + 1));
        },
        Expr::PrimN { args, .. } => {
            let cur = ws_end(s, pos + 1);
            let hend = atom_end(s, cur);
            lemma_scan_ends_bounded(s, pos + 1);
            lemma_scan_ends_bounded(s, cur);
            lemma_args_extent_bounds(s, hend, args@);
        },
        Expr::If { if_, then_, else_ } => {
            let cur = ws_end(s, pos + 1);
            let hend = atom_end(s, cur);
            lemma_scan_ends_bounded(s, pos + 1);
            lemma_scan_ends_bounded(s, cur);
            let p1 = ws_end(s, hend);
            lemma_scan_ends_bounded(s, hend);
            lemma_extent_bounds(s, p1, *if_);
            let p3 = ws_end(s, extent(s, p1, *if_));
            lemma_scan_ends_bounded(s, extent(s, p1, *if_));
            lemma_extent_bounds(s, p3, *then_);
            let p5 = ws_end(s, extent(s, p3, *then_));
            lemma_scan_ends_bounded(s, extent(s, p3, *then_));
            lemma_extent_bounds(s, p5, *else_);
            let p7 = ws_end(s, extent(s, p5, *else_));
            lemma_scan_ends_bounded(s, extent(s, p5, *else_));
        },
        Expr::App { func, args } => {
            let cur = ws_end(s, pos + 1);
            lemma_scan_ends_bounded(s, pos + 1);
            lemma_extent_bounds(s, cur, *func);
            lemma_args_extent_bounds(s, extent(s, cur, *func), args@);
        },
    }
}

/// An argument list's text occupies an in-bounds range ending past the
/// closing delimiter.
pub proof fn lemma_args_extent_bounds(s: Seq<char>, pos: int, args: Seq<Expr>)
    requires
        args_parse_to(s, pos, args),
        0 <= pos <= s.len(),
    ensures
        pos < args_extent(s, pos, args) <= s.len(),
    decreases args,
{
    let cur = ws_end(s, pos);
    lemma_scan_ends_bounded(s, pos);
    if args.len() == 0 {
    } else {
        lemma_extent_bounds(s, cur, args[0]);
        lemma_args_extent_bounds(
            s,
            extent(s, cur, args[0]),
            args.subrange(1, args.len() as int),
        );
    }
}

/// Content equality of two expression trees.
pub open spec fn same_tree(a: Expr, b: Expr) -> bool
    decreases a,
{
    match (a, b) {
        (Expr::Lit { v: v1 }, Expr::Lit { v: v2 }) => v1 == v2,
        (Expr::Identifier { id: i1 }, Expr::Identifier { id: i2 }) => i1@ == i2@,
        (Expr::PrimN { prim: p1, args: a1 }, Expr::PrimN { prim: p2, args: a2 }) => p1 == p2
            && same_trees(a1@, a2@),
        (
            Expr::If { if_: c1, then_: t1, else_: e1 },
            Expr::If { if_: c2, then_: t2, else_: e2 },
        ) => same_tree(*c1, *c2) && same_tree(*t1, *t2) && same_tree(*e1, *e2),
        (Expr::App { func: f1, args: a1 }, Expr::App { func: f2, args: a2 }) => same_tree(
            *f1,
            *f2,
        ) && same_trees(a1@, a2@),
        _ => false,
    }
}

/// Content equality of two expression lists.
pub open spec fn same_trees(a: Seq<Expr>, b: Seq<Expr>) -> bool
    decreases a,
{
    &&& a.len() == b.len()
    &&& (a.len() > 0 ==> same_tree(a[0], b[0]) && same_trees(
        a.subrange(1, a.len() as int),
        b.subrange(1, b.len() as int),
    ))
}

/// At a given position of a given text, the grammar admits one tree only:
/// any two trees that parse there have the same content and the same
/// extent.
pub proof fn lemma_parse_unique(s: Seq<char>, pos: int, e1: Expr, e2: Expr)
    requires
        parses_to(s, pos, e1),
        parses_to(s, pos, e2),
    ensures
        same_tree(e1, e2),
        extent(s, pos, e1) == extent(s, pos, e2),
    decreases e1,
{
    match (e1, e2) {
        (Expr::Lit { v: v1 }, Expr::Lit { v: v2 }) => {
            match (v1, v2) {
                (Value::CharV(c1), Value::CharV(c2)) => {
                    assert((c1 as u32) as int == (c2 as u32) as int);
                    lemma_char_code_injective(c1, c2);
                },
                (Value::CharV(_), _) => {
                    assert(false);
                },
                (_, Value::CharV(_)) => {
                    assert(false);
                },
                _ => {},
            }
        },
        (Expr::If { if_: c1, then_: t1, else_: e1b }, Expr::If { if_: c2, then_: t2, else_: e2b }) => {
            let cur = ws_end(s, pos + 1);
            let hend = atom_end(s, cur);
            let p1 = ws_end(s, hend);
            lemma_parse_unique(s, p1, *c1, *c2);
            let p3 = ws_end(s, extent(s, p1, *c1));
            lemma_parse_unique(s, p3, *t1, *t2);
            let p5 = ws_end(s, extent(s, p3, *t1));
            lemma_parse_unique(s, p5, *e1b, *e2b);
        },
        (Expr::PrimN { prim: pr1, args: a1 }, Expr::PrimN { prim: pr2, args: a2 }) => {
            let cur = ws_end(s, pos + 1);
            let hend = atom_end(s, cur);
            lemma_args_parse_unique(s, hend, a1@, a2@);
        },
        (Expr::App { func: f1, args: a1 }, Expr::App { func: f2, args: a2 }) => {
            let cur = ws_end(s, pos + 1);
            lemma_parse_unique(s, cur, *f1, *f2);
            lemma_args_parse_unique(s, extent(s, cur, *f1), a1@, a2@);
        },
        _ => {},
    }
}

/// The same, for argument lists.
pub proof fn lemma_args_parse_unique(s: Seq<char>, pos: int, a1: Seq<Expr>, a2: Seq<Expr>)
    requires
        args_parse_to(s, pos, a1),
        args_parse_to(s, pos, a2),
    ensures
        same_trees(a1, a2),
        args_extent(s, pos, a1) == args_extent(s, pos, a2),
    decreases a1,
{
    let cur = ws_end(s, pos);
    if a1.len() == 0 || a2.len() == 0 {
    } else {
        lemma_parse_unique(s, cur, a1[0], a2[0]);
        lemma_args_parse_unique(
            s,
            extent(s, cur, a1[0]),
            a1.subrange(1, a1.len() as int),
            a2.subrange(1, a2.len() as int),
        );
    }
}

/// Relies on `String`'s `FromIterator<char>` impl: collecting characters
/// yields the string of exactly those characters, in order.
#[verifier::external_body]
fn chars_to_string(src: &Vec<char>, pos: usize, end: usize) -> (r: String)
    requires
        pos <= end <= src@.len(),
    ensures
        r@ == src@.subrange(pos as int, end as int),
{
    src[pos..end].iter().collect()
}

/// Relies on `char::from_u32`: `Some` exactly for Unicode scalar values
/// (below the surrogate range or between it and the maximum code point),
/// and the returned character carries that code point.
#[verifier::external_body]
fn char_from_u32(code: u32) -> (r: Option<char>)
    ensures
        r is Some <==> (code < 0xD800 || (0xE000 <= code && code <= 0x10FFFF)),
        r matches Some(c) ==> c as u32 == code,
{
    char::from_u32(code)
}

/// Read an identifier atom.
pub fn parse_iden_expr(src: &Vec<char>, pos: usize, end: usize) -> (r: Expr)
    requires
        pos <= end <= src@.len(),
    ensures
        r matches Expr::Identifier { id } && id@ == src@.subrange(pos as int, end as int),
{
    Expr::Identifier { id: chars_to_string(src, pos, end) }
}

/// Read a character literal at a `#`: either `#\<char>` taking the next
/// character as it stands, or `#\uNNN` with a maximal run of decimal
/// digits naming a code point.
pub fn parse_char(src: &Vec<char>, pos: usize) -> (r: Result<(Value, usize), ParseError>)
    requires
        pos < src@.len(),
        src@[pos as int] == '#',
    ensures
        r matches Ok(p) ==> pos + 2 < p.1 <= src@.len() && p.0 is CharV,
        (pos + 2 < src@.len() && src@[pos + 1] == '\\' && !(src@[pos + 2] == 'u' && pos + 3
            < src@.len() && is_digit(src@[pos + 3]))) ==> r == Ok::<(Value, usize), ParseError>(
            (Value::CharV(src@[pos + 2]), (pos + 3) as usize),
        ),
        (pos + 3 < src@.len() && src@[pos + 1] == '\\' && src@[pos + 2] == 'u' && is_digit(
            src@[pos + 3],
        )) ==> ({
            let dend = digit_end(src@, pos + 3);
            let val = digits_val(src@.subrange(pos + 3, dend));
            &&& (r is Ok <==> (val < 0xD800 || (0xE000 <= val && val <= 0x10FFFF)))
            &&& (r matches Ok(p) ==> p.0 matches Value::CharV(c) && (c as u32) as int == val
                && p.1 as int == dend)
        }),
        forall|c: char| char_parses_to(src@, pos as int, c) ==> r == Ok::<
            (Value, usize),
            ParseError,
        >((Value::CharV(c), char_extent(src@, pos as int) as usize)),
        r matches Ok(p) ==> (p.0 matches Value::CharV(c) && char_parses_to(src@, pos as int, c)
            && p.1 as int == char_extent(src@, pos as int)),
{
    let slen = src.len();
    if pos + 1 >= slen || src[pos + 1] != '\\' {
        return Err(ParseError { at: pos });
    }
    if pos + 2 >= src.len() {
        return Err(ParseError { at: pos });
    }
    if src[pos + 2] == 'u' && pos + 3 < src.len() && is_digit_char(src[pos + 3]) {
        let dend = scan_digits(src, pos + 3);
        let ghost digits = src@.subrange(pos + 3, dend as int);
        proof {
            assert(digits.len() > 0);
            assert(is_digit(digits[0]));
        }
        match parse_digits(src, pos + 3, dend) {
            Some(n) => {
                proof {
                    lemma_digits_val_nonneg(digits);
                }
                if n > u32::MAX as i64 {
                    return Err(ParseError { at: pos + 3 });
                }
                match char_from_u32(n as u32) {
                    Some(c) => {
                        proof {
                            assert forall|c0: char| char_parses_to(src@, pos as int, c0)
                                implies c0 == c by {
                                assert((c0 as u32) as int == (c as u32) as int);
                                lemma_char_code_injective(c0, c);
                            }
                        }
                        Ok((Value::CharV(c), dend))
                    },
                    None => Err(ParseError { at: pos + 3 }),
                }
            },
            _ => {
                proof {
                    // The run's value does not even fit a 64-bit integer,
                    // so it can be no character's code point.
                    lemma_digits_val_nonneg(digits);
                }
                Err(ParseError { at: pos + 3 })
            },
        }
    } else {
        Ok((Value::CharV(src[pos + 2]), pos + 3))
    }
}

/// Read expressions up to and through the closing delimiter, pushing each
/// onto `args`. Succeeds exactly when the text reads as some argument
/// list, and what was pushed is that list.
fn parse_args(src: &Vec<char>, pos: usize, args: &mut Vec<Expr>) -> (r: Result<
    usize,
    ParseError,
>)
    requires
        pos <= src@.len(),
    ensures
        r matches Ok(p) ==> pos < p <= src@.len(),
        final(args)@.len() >= old(args)@.len(),
        final(args)@.subrange(0, old(args)@.len() as int) == old(args)@,
        r matches Ok(p) ==> ({
            let got = final(args)@.subrange(old(args)@.len() as int, final(args)@.len() as int);
            &&& args_parse_to(src@, pos as int, got)
            &&& p as int == args_extent(src@, pos as int, got)
        }),
        (exists|xs: Seq<Expr>| args_parse_to(src@, pos as int, xs)) ==> r is Ok,
    decreases src@.len() - pos, 1int,
{
    let slen = src.len();
    let ghost base = old(args)@.len() as int;
    let cur = skip_whitespace(src, pos);
    if parse_close(src, cur) {
        proof {
            assert(cur < slen);
            assert(args@.subrange(0, base) =~= args@);
            assert(args@.subrange(base, args@.len() as int) =~= Seq::<Expr>::empty());
            assert(args_parse_to(src@, pos as int, Seq::<Expr>::empty()));
            assert(args_extent(src@, pos as int, Seq::<Expr>::empty()) == cur + 1);
        }
        return Ok(cur + 1);
    }
    if cur >= src.len() {
        proof {
            assert forall|xs: Seq<Expr>| !args_parse_to(src@, pos as int, xs) by {}
        }
        return Err(ParseError { at: cur });
    }
    let (e, np) = match parse_expr_at(src, cur) {
        Ok(p) => p,
        Err(er) => {
            proof {
                assert forall|xs: Seq<Expr>| !args_parse_to(src@, pos as int, xs) by {
                    if args_parse_to(src@, pos as int, xs) {
                        assert(xs.len() > 0);
                        assert(parses_to(src@, cur as int, xs[0]));
                    }
                }
            }
            return Err(er);
        },
    };
    args.push(e);
    let ghost mid = args@;
    let r2 = parse_args(src, np, args);
    proof {
        assert(args@.subrange(0, base) =~= mid.subrange(0, base));
        assert(mid.subrange(0, base) =~= old(args)@);
        let got2 = args@.subrange(mid.len() as int, args@.len() as int);
        let got = args@.subrange(base, args@.len() as int);
        assert(got[0] == mid[base]);
        assert(mid[base] == e);
        assert(got.subrange(1, got.len() as int) =~= got2);
        match r2 {
            Ok(p) => {
                assert(args_parse_to(src@, np as int, got2));
                lemma_args_extent_bounds(src@, np as int, got2);
                assert(got.len() > 0);
                assert(args_parse_to(src@, pos as int, got));
                assert(args_extent(src@, pos as int, got) == args_extent(src@, np as int, got2));
            },
            Err(_) => {
                assert forall|xs: Seq<Expr>| !args_parse_to(src@, pos as int, xs) by {
                    if args_parse_to(src@, pos as int, xs) {
                        assert(xs.len() > 0);
                        assert(parses_to(src@, cur as int, xs[0]));
                        lemma_parse_unique(src@, cur as int, xs[0], e);
                        assert(extent(src@, cur as int, xs[0]) == np);
                        assert(args_parse_to(
                            src@,
                            np as int,
                            xs.subrange(1, xs.len() as int),
                        ));
                    }
                }
            },
        }
    }
    r2
}

/// Read one expression starting exactly at `pos`. The contract is
/// two-sided: whenever any tree at all reads there ([`parses_to`]), the
/// reader succeeds, and what it returns reads there, with its computed
/// extent. [`lemma_parse_unique`] makes that tree the only one up to
/// content. Where an atom stands, the classification is also stated
/// directly: the maximal run of identifier characters is taken and read
/// as a boolean, an integer, or an identifier carrying exactly those
/// characters.
#[verifier::rlimit(60)]
pub fn parse_expr_at(src: &Vec<char>, pos: usize) -> (r: Result<(Expr, usize), ParseError>)
    requires
        pos <= src@.len(),
    ensures
        r matches Ok(p) ==> pos < p.1 <= src@.len(),
        r matches Ok(p) ==> parses_to(src@, pos as int, p.0) && p.1 as int == extent(
            src@,
            pos as int,
            p.0,
        ),
        (exists|e0: Expr| parses_to(src@, pos as int, e0)) ==> r is Ok,
        (pos < src@.len() && is_ident_char(src@[pos as int])) ==> match r {
            Ok(p) => {
                &&& (forall|j: int| pos <= j < p.1 ==> is_ident_char(#[trigger] src@[j]))
                &&& (p.1 == src@.len() || !is_ident_char(src@[p.1 as int]))
                &&& match atom_value(src@.subrange(pos as int, p.1 as int)) {
                    Some(v) => p.0 == (Expr::Lit { v }),
                    None => p.0 matches Expr::Identifier { id } && id@ == src@.subrange(
                        pos as int,
                        p.1 as int,
                    ),
                }
            },
            Err(_) => true,
        },
    decreases src@.len() - pos, 0int,
{
    if pos >= src.len() {
        proof {
            assert forall|e0: Expr| !parses_to(src@, pos as int, e0) by {}
        }
        return Err(ParseError { at: pos });
    }
    if src[pos] == '#' {
        match parse_char(src, pos) {
            Ok((v, np)) => {
                proof {
                    assert(parses_to(src@, pos as int, Expr::Lit { v }));
                }
                Ok((Expr::Lit { v }, np))
            },
            Err(er) => {
                proof {
                    assert forall|e0: Expr| !parses_to(src@, pos as int, e0) by {
                        if parses_to(src@, pos as int, e0) {
                            match e0 {
                                Expr::Lit { v: Value::CharV(c0) } => {
                                    assert(char_parses_to(src@, pos as int, c0));
                                },
                                _ => {},
                            }
                        }
                    }
                }
                Err(er)
            },
        }
    } else if parse_open(src, pos) {
        let cur = skip_whitespace(src, pos + 1);
        if cur >= src.len() {
            proof {
                assert forall|e0: Expr| !parses_to(src@, pos as int, e0) by {}
            }
            return Err(ParseError { at: cur });
        }
        let hend = scan_atom(src, cur);
        if hend > cur {
            let ghost sub = src@.subrange(cur as int, hend as int);
            if atom_matches(src, cur, hend, "if") {
                let p1 = skip_whitespace(src, hend);
                let (cond, p2) = match parse_expr_at(src, p1) {
                    Ok(p) => p,
                    Err(er) => {
                        proof {
                            assert forall|e0: Expr| !parses_to(src@, pos as int, e0) by {
                                if parses_to(src@, pos as int, e0) {
                                    match e0 {
                                        Expr::If { if_, then_, else_ } => {
                                            assert(parses_to(src@, p1 as int, *if_));
                                        },
                                        _ => {},
                                    }
                                }
                            }
                        }
                        return Err(er);
                    },
                };
                let p3 = skip_whitespace(src, p2);
                let (thn, p4) = match parse_expr_at(src, p3) {
                    Ok(p) => p,
                    Err(er) => {
                        proof {
                            assert forall|e0: Expr| !parses_to(src@, pos as int, e0) by {
                                if parses_to(src@, pos as int, e0) {
                                    match e0 {
                                        Expr::If { if_, then_, else_ } => {
                                            assert(parses_to(src@, p1 as int, *if_));
                                            lemma_parse_unique(src@, p1 as int, *if_, cond);
                                            assert(parses_to(src@, p3 as int, *then_));
                                        },
                                        _ => {},
                                    }
                                }
                            }
                        }
                        return Err(er);
                    },
                };
                let p5 = skip_whitespace(src, p4);
                let (els, p6) = match parse_expr_at(src, p5) {
                    Ok(p) => p,
                    Err(er) => {
                        proof {
                            assert forall|e0: Expr| !parses_to(src@, pos as int, e0) by {
                                if parses_to(src@, pos as int, e0) {
                                    match e0 {
                                        Expr::If { if_, then_, else_ } => {
                                            assert(parses_to(src@, p1 as int, *if_));
                                            lemma_parse_unique(src@, p1 as int, *if_, cond);
                                            assert(parses_to(src@, p3 as int, *then_));
                                            lemma_parse_unique(src@, p3 as int, *then_, thn);
                                            assert(parses_to(src@, p5 as int, *else_));
                                        },
                                        _ => {},
                                    }
                                }
                            }
                        }
                        return Err(er);
                    },
                };
                let p7 = skip_whitespace(src, p6);
                if parse_close(src, p7) {
                    let e = Expr::If {
                        if_: Box::new(cond),
                        then_: Box::new(thn),
                        else_: Box::new(els),
                    };
                    proof {
                        assert(parses_to(src@, pos as int, e));
                        assert(extent(src@, pos as int, e) == p7 + 1);
                    }
                    Ok((e, p7 + 1))
                } else {
                    proof {
                        assert forall|e0: Expr| !parses_to(src@, pos as int, e0) by {
                            if parses_to(src@, pos as int, e0) {
                                match e0 {
                                    Expr::If { if_, then_, else_ } => {
                                        assert(parses_to(src@, p1 as int, *if_));
                                        lemma_parse_unique(src@, p1 as int, *if_, cond);
                                        assert(parses_to(src@, p3 as int, *then_));
                                        lemma_parse_unique(src@, p3 as int, *then_, thn);
                                        assert(parses_to(src@, p5 as int, *else_));
                                        lemma_parse_unique(src@, p5 as int, *else_, els);
                                        assert(is_close_char(src@[p7 as int]));
                                    },
                                    _ => {},
                                }
                            }
                        }
                    }
                    Err(ParseError { at: p7 })
                }
            } else {
                match parse_prim_name(src, cur, hend) {
                    Some(prim) => {
                        let mut args: Vec<Expr> = Vec::new();
                        let np = match parse_args(src, hend, &mut args) {
                            Ok(p) => p,
                            Err(er) => {
                                proof {
                                    assert forall|e0: Expr| !parses_to(src@, pos as int, e0) by {
                                        if parses_to(src@, pos as int, e0) {
                                            match e0 {
                                                Expr::PrimN { prim: _, args: args0 } => {
                                                    assert(args_parse_to(
                                                        src@,
                                                        hend as int,
                                                        args0@,
                                                    ));
                                                },
                                                _ => {},
                                            }
                                        }
                                    }
                                }
                                return Err(er);
                            },
                        };
                        let ghost got = args@;
                        let e = Expr::PrimN { prim, args };
                        proof {
                            assert(got.subrange(0, got.len() as int) =~= got);
                            assert(parses_to(src@, pos as int, e));
                            assert(extent(src@, pos as int, e) == np);
                        }
                        Ok((e, np))
                    },
                    None => {
                        let head = match parse_value(src, cur, hend) {
                            Some(v) => Expr::Lit { v },
                            None => {
                                let dend = scan_digits(src, cur);
                                if dend == hend && !(hend - cur > 1 && src[cur] == '0') {
                                    // a canonical numeral too large for a
                                    // 64-bit integer
                                    proof {
                                        assert forall|j: int| 0 <= j < sub.len()
                                            implies is_digit(#[trigger] sub[j]) by {
                                            assert(sub[j] == src@[cur + j]);
                                        }
                                        assert(canonical_digit_run(sub));
                                        assert forall|e0: Expr| !parses_to(
                                            src@,
                                            pos as int,
                                            e0,
                                        ) by {
                                            if parses_to(src@, pos as int, e0) {
                                                match e0 {
                                                    Expr::App { func, args } => {
                                                        assert(parses_to(
                                                            src@,
                                                            cur as int,
                                                            *func,
                                                        ));
                                                    },
                                                    _ => {},
                                                }
                                            }
                                        }
                                    }
                                    return Err(ParseError { at: cur });
                                }
                                proof {
                                    if dend < hend {
                                        assert(!is_digit(src@[dend as int]));
                                        assert(sub[dend - cur] == src@[dend as int]);
                                        assert(!canonical_digit_run(sub));
                                    } else {
                                        assert(!canonical_digit_run(sub));
                                    }
                                }
                                parse_iden_expr(src, cur, hend)
                            },
                        };
                        proof {
                            assert(parses_to(src@, cur as int, head));
                            assert(extent(src@, cur as int, head) == hend);
                        }
                        let mut args: Vec<Expr> = Vec::new();
                        let np = match parse_args(src, hend, &mut args) {
                            Ok(p) => p,
                            Err(er) => {
                                proof {
                                    assert forall|e0: Expr| !parses_to(src@, pos as int, e0) by {
                                        if parses_to(src@, pos as int, e0) {
                                            match e0 {
                                                Expr::App { func, args: args0 } => {
                                                    assert(parses_to(src@, cur as int, *func));
                                                    lemma_parse_unique(
                                                        src@,
                                                        cur as int,
                                                        *func,
                                                        head,
                                                    );
                                                    assert(args_parse_to(
                                                        src@,
                                                        hend as int,
                                                        args0@,
                                                    ));
                                                },
                                                _ => {},
                                            }
                                        }
                                    }
                                }
                                return Err(er);
                            },
                        };
                        let ghost got = args@;
                        let e = Expr::App { func: Box::new(head), args };
                        proof {
                            assert(got.subrange(0, got.len() as int) =~= got);
                            assert(parses_to(src@, pos as int, e));
                            assert(extent(src@, pos as int, e) == np);
                        }
                        Ok((e, np))
                    },
                }
            }
        } else {
            let (head, hp) = match parse_expr_at(src, cur) {
                Ok(p) => p,
                Err(er) => {
                    proof {
                        assert forall|e0: Expr| !parses_to(src@, pos as int, e0) by {
                            if parses_to(src@, pos as int, e0) {
                                match e0 {
                                    Expr::App { func, args: _ } => {
                                        assert(parses_to(src@, cur as int, *func));
                                    },
                                    _ => {},
                                }
                            }
                        }
                    }
                    return Err(er);
                },
            };
            let mut args: Vec<Expr> = Vec::new();
            let np = match parse_args(src, hp, &mut args) {
                Ok(p) => p,
                Err(er) => {
                    proof {
                        assert forall|e0: Expr| !parses_to(src@, pos as int, e0) by {
                            if parses_to(src@, pos as int, e0) {
                                match e0 {
                                    Expr::App { func, args: args0 } => {
                                        assert(parses_to(src@, cur as int, *func));
                                        lemma_parse_unique(src@, cur as int, *func, head);
                                        assert(args_parse_to(src@, hp as int, args0@));
                                    },
                                    _ => {},
                                }
                            }
                        }
                    }
                    return Err(er);
                },
            };
            let ghost got = args@;
            let e = Expr::App { func: Box::new(head), args };
            proof {
                assert(got.subrange(0, got.len() as int) =~= got);
                assert(parses_to(src@, pos as int, e));
                assert(extent(src@, pos as int, e) == np);
            }
            Ok((e, np))
        }
    } else {
        let end = scan_atom(src, pos);
        let ghost sub = src@.subrange(pos as int, end as int);
        if end == pos {
            proof {
                assert forall|e0: Expr| !parses_to(src@, pos as int, e0) by {}
            }
            return Err(ParseError { at: pos });
        }
        match parse_value(src, pos, end) {
            Some(v) => {
                proof {
                    assert(parses_to(src@, pos as int, Expr::Lit { v }));
                }
                Ok((Expr::Lit { v }, end))
            },
            None => {
                let dend = scan_digits(src, pos);
                if dend == end && !(end - pos > 1 && src[pos] == '0') {
                    // a canonical numeral too large for a 64-bit integer
                    proof {
                        assert forall|j: int| 0 <= j < sub.len() implies is_digit(
                            #[trigger] sub[j],
                        ) by {
                            assert(sub[j] == src@[pos + j]);
                        }
                        assert(canonical_digit_run(sub));
                        assert forall|e0: Expr| !parses_to(src@, pos as int, e0) by {}
                    }
                    return Err(ParseError { at: pos });
                }
                proof {
                    if dend < end {
                        assert(!is_digit(src@[dend as int]));
                        assert(sub[dend - pos] == src@[dend as int]);
                        assert(!canonical_digit_run(sub));
                    } else {
                        assert(!canonical_digit_run(sub));
                    }
                }
                let e = parse_iden_expr(src, pos, end);
                proof {
                    assert(parses_to(src@, pos as int, e));
                }
                Ok((e, end))
            },
        }
    }
}

/// The whole text reads as the expression `e`: leading whitespace, the
/// expression, trailing whitespace, nothing else.
pub open spec fn parses_whole(s: Seq<char>, e: Expr) -> bool {
    &&& parses_to(s, ws_end(s, 0), e)
    &&& ws_end(s, extent(s, ws_end(s, 0), e)) == s.len()
}

/// Read the one expression a source file holds, with surrounding
/// whitespace allowed and nothing else. Succeeds exactly when some tree
/// reads as the whole text, and returns a tree that does — by
/// [`lemma_parse_unique`], the only one up to content.
pub fn parse_expr(src: &Vec<char>) -> (r: Result<Expr, ParseError>)
    ensures
        src@.len() == 0 ==> r is Err,
        r matches Ok(e) ==> parses_whole(src@, e),
        (exists|e0: Expr| parses_whole(src@, e0)) ==> r is Ok,
{
    let start = skip_whitespace(src, 0);
    match parse_expr_at(src, start) {
        Ok((e, p)) => {
            let rest = skip_whitespace(src, p);
            if rest == src.len() {
                Ok(e)
            } else {
                proof {
                    assert forall|e0: Expr| !parses_whole(src@, e0) by {
                        if parses_whole(src@, e0) {
                            lemma_parse_unique(src@, start as int, e0, e);
                        }
                    }
                }
                Err(ParseError { at: rest })
            }
        },
        Err(er) => {
            proof {
                assert forall|e0: Expr| !parses_whole(src@, e0) by {
                    if parses_whole(src@, e0) {
                        assert(parses_to(src@, start as int, e0));
                    }
                }
            }
            Err(er)
        },
    }
}



} // verus!
