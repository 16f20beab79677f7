//! The calculator language, stated as what the recursive-descent parser
//! reads from a byte string:
//!
//! ```text
//!   expr   = term (('+' | '-') term)*
//!   term   = factor (('*' | '/') factor)*
//!   factor = unary ('^' factor)?           (right-assoc)
//!   unary  = '-' unary | atom
//!   atom   = number | ident | ident '(' args? ')' | '(' expr ')'
//!   args   = expr (',' expr)*
//! ```
//!
//! Every function takes the input `s` and a byte position, and gives the
//! tree read from there with the position where reading stopped, or the
//! error (message and position) that the parser reports. Whitespace may
//! stand between any two tokens.

use vstd::prelude::*;
use crate::bytes::{chars_of, is_digit, is_ident_continue, is_ident_start, is_space};
use vstd::utf8::decode_utf8;
use crate::code_mode::BinOp;

verus! {

/// What an expression of the language denotes: numbers keep their text.
pub enum SpecExpr {
    Num(Seq<char>),
    Const(Seq<char>),
    Call(Seq<char>, Seq<SpecExpr>),
    BinOp(BinOp, Box<SpecExpr>, Box<SpecExpr>),
    Neg(Box<SpecExpr>),
}

pub struct SpecParseError {
    pub message: Seq<char>,
    pub position: int,
}

pub open spec fn perr(message: Seq<char>, position: int) -> SpecParseError {
    SpecParseError { message, position }
}

/// First position at or after `p` that does not hold whitespace.
pub open spec fn ws_end(s: Seq<u8>, p: int) -> int
    decreases s.len() - p,
{
    if 0 <= p < s.len() && is_space(s[p]) {
        ws_end(s, p + 1)
    } else {
        p
    }
}

pub proof fn lemma_ws_end(s: Seq<u8>, p: int)
    requires
        0 <= p <= s.len(),
    ensures
        p <= ws_end(s, p) <= s.len(),
        ws_end(s, p) < s.len() ==> !is_space(s[ws_end(s, p)]),
        ws_end(s, ws_end(s, p)) == ws_end(s, p),
    decreases s.len() - p,
{
    if p < s.len() && is_space(s[p]) {
        lemma_ws_end(s, p + 1);
    }
}

/// End of the identifier that starts at `p`.
pub open spec fn ident_end(s: Seq<u8>, p: int) -> int
    decreases s.len() - p,
{
    if 0 <= p < s.len() && is_ident_continue(s[p]) {
        ident_end(s, p + 1)
    } else {
        p
    }
}

pub proof fn lemma_ident_end(s: Seq<u8>, p: int)
    requires
        0 <= p <= s.len(),
    ensures
        p <= ident_end(s, p) <= s.len(),
        forall|i: int| p <= i < ident_end(s, p) ==> is_ident_continue(#[trigger] s[i]),
        ident_end(s, p) < s.len() ==> !is_ident_continue(s[ident_end(s, p)]),
    decreases s.len() - p,
{
    if p < s.len() && is_ident_continue(s[p]) {
        lemma_ident_end(s, p + 1);
    }
}

/// End of the number that starts at `p`: digits and dots, and after an
/// `e` or `E` that a digit or a sign follows, the sign and a run of digits.
/// `in_exponent` is set while that run of digits is read.
pub open spec fn number_end(s: Seq<u8>, p: int, in_exponent: bool) -> int
    decreases s.len() - p, if in_exponent { 1int } else { 0int },
{
    if !(0 <= p <= s.len()) {
        p
    } else if in_exponent {
        if p < s.len() && is_digit(s[p]) {
            number_end(s, p + 1, true)
        } else {
            number_end(s, p, false)
        }
    } else if p < s.len() {
        let b = s[p];
        if is_digit(b) || b == 0x2Eu8 {
            number_end(s, p + 1, false)
        } else if (b == 0x65u8 || b == 0x45u8) && p + 1 < s.len() && (is_digit(s[p + 1]) || s[p + 1]
            == 0x2Bu8 || s[p + 1] == 0x2Du8) {
            number_end(s, p + 2, true)
        } else {
            p
        }
    } else {
        p
    }
}

pub proof fn lemma_number_end(s: Seq<u8>, p: int, in_exponent: bool)
    requires
        0 <= p <= s.len(),
    ensures
        p <= number_end(s, p, in_exponent) <= s.len(),
    decreases s.len() - p, if in_exponent { 1int } else { 0int },
{
    if in_exponent {
        if p < s.len() && is_digit(s[p]) {
            lemma_number_end(s, p + 1, true);
        } else {
            lemma_number_end(s, p, false);
        }
    } else if p < s.len() {
        let b = s[p];
        if is_digit(b) || b == 0x2Eu8 {
            lemma_number_end(s, p + 1, false);
        } else if (b == 0x65u8 || b == 0x45u8) && p + 1 < s.len() && (is_digit(s[p + 1]) || s[p + 1]
            == 0x2Bu8 || s[p + 1] == 0x2Du8) {
            lemma_number_end(s, p + 2, true);
        }
    }
}

pub open spec fn all_digits(t: Seq<u8>) -> bool {
    forall|i: int| 0 <= i < t.len() ==> is_digit(#[trigger] t[i])
}

/// `Digit+ | Digit+ '.' Digit* | Digit* '.' Digit+`
pub open spec fn is_mantissa(m: Seq<u8>) -> bool {
    ||| m.len() > 0 && all_digits(m)
    ||| exists|k: int|
        0 <= k < m.len() && m[k] == 0x2Eu8 && m.len() >= 2 && all_digits(m.subrange(0, k))
            && all_digits(#[trigger] m.subrange(k + 1, m.len() as int))
}

/// `Sign? Digit+`
pub open spec fn is_exponent(x: Seq<u8>) -> bool {
    ||| x.len() > 0 && all_digits(x)
    ||| x.len() >= 2 && (x[0] == 0x2Bu8 || x[0] == 0x2Du8) && all_digits(x.subrange(1, x.len() as int))
}

/// The decimal literals that `f64::from_str` accepts, on the bytes a number
/// can hold here: `Number ::= (Digit+ | Digit+ '.' Digit* | Digit* '.' Digit+) Exp?`
/// with `Exp ::= ('e' | 'E') Sign? Digit+`.
pub open spec fn is_float_literal(t: Seq<u8>) -> bool {
    ||| is_mantissa(t)
    ||| exists|i: int|
        0 <= i < t.len() && (t[i] == 0x65u8 || t[i] == 0x45u8) && is_mantissa(
            #[trigger] t.subrange(0, i),
        ) && is_exponent(t.subrange(i + 1, t.len() as int))
}

pub open spec fn byte_is(s: Seq<u8>, q: int, b: u8) -> bool {
    0 <= q < s.len() && s[q] == b
}

pub open spec fn additive_op(b: u8) -> Option<BinOp> {
    if b == 0x2Bu8 {
        Some(BinOp::Add)
    } else if b == 0x2Du8 {
        Some(BinOp::Sub)
    } else {
        None
    }
}

pub open spec fn multiplicative_op(b: u8) -> Option<BinOp> {
    if b == 0x2Au8 {
        Some(BinOp::Mul)
    } else if b == 0x2Fu8 {
        Some(BinOp::Div)
    } else {
        None
    }
}

pub open spec fn op_at(s: Seq<u8>, q: int, additive: bool) -> Option<BinOp> {
    if 0 <= q < s.len() {
        if additive {
            additive_op(s[q])
        } else {
            multiplicative_op(s[q])
        }
    } else {
        None
    }
}

/// The number that starts at `start`: its text, if that is a decimal
/// literal, and otherwise an error.
pub open spec fn spec_number(s: Seq<u8>, start: int) -> Result<(SpecExpr, int), SpecParseError> {
    let end = number_end(s, start, false);
    let text = s.subrange(start, end);
    if is_float_literal(text) {
        Ok((SpecExpr::Num(chars_of(text)), end))
    } else {
        Err(perr("invalid number '"@ + chars_of(text) + "'"@, start))
    }
}

pub type ExprResult = Result<(SpecExpr, int), SpecParseError>;

pub type ArgsResult = Result<(Seq<SpecExpr>, int), SpecParseError>;

/// `expr = term (('+' | '-') term)*`
pub open spec fn spec_expr(s: Seq<u8>, p: int) -> ExprResult
    decreases s.len() - p, 6int,
{
    match spec_term(s, p) {
        Err(e) => Err(e),
        Ok((lhs, p1)) => if p < p1 <= s.len() {
            spec_chain(s, lhs, p1, true)
        } else {
            Ok((lhs, p1))
        },
    }
}

/// `term = factor (('*' | '/') factor)*`
pub open spec fn spec_term(s: Seq<u8>, p: int) -> ExprResult
    decreases s.len() - p, 5int,
{
    match spec_factor(s, p) {
        Err(e) => Err(e),
        Ok((lhs, p1)) => if p < p1 <= s.len() {
            spec_chain(s, lhs, p1, false)
        } else {
            Ok((lhs, p1))
        },
    }
}

/// The left-associative tail of an `expr` (`additive`) or of a `term`:
/// `lhs` is what has been read up to `p`.
pub open spec fn spec_chain(s: Seq<u8>, lhs: SpecExpr, p: int, additive: bool) -> ExprResult
    decreases s.len() - p, 6int,
{
    if !(0 <= p <= s.len()) {
        Ok((lhs, p))
    } else {
        let q = ws_end(s, p);
        proof {
            lemma_ws_end(s, p);
        }
        match op_at(s, q, additive) {
            None => Ok((lhs, q)),
            Some(op) => {
                let next = if additive {
                    spec_term(s, q + 1)
                } else {
                    spec_factor(s, q + 1)
                };
                match next {
                    Err(e) => Err(e),
                    Ok((rhs, p2)) => if p < p2 <= s.len() {
                        spec_chain(s, SpecExpr::BinOp(op, Box::new(lhs), Box::new(rhs)), p2, additive)
                    } else {
                        Ok((lhs, q))
                    },
                }
            },
        }
    }
}

/// `factor = unary ('^' factor)?`
pub open spec fn spec_factor(s: Seq<u8>, p: int) -> ExprResult
    decreases s.len() - p, 4int,
{
    match spec_unary(s, p) {
        Err(e) => Err(e),
        Ok((lhs, p1)) => {
            if !(0 <= p < p1 <= s.len()) {
                Ok((lhs, p1))
            } else {
                let q = ws_end(s, p1);
                proof {
                    lemma_ws_end(s, p1);
                }
                if byte_is(s, q, 0x5Eu8) {
                    match spec_factor(s, q + 1) {
                        Err(e) => Err(e),
                        Ok((rhs, p2)) => Ok((SpecExpr::BinOp(BinOp::Pow, Box::new(lhs), Box::new(rhs)), p2)),
                    }
                } else {
                    Ok((lhs, q))
                }
            }
        },
    }
}

/// `unary = '-' unary | atom`
pub open spec fn spec_unary(s: Seq<u8>, p: int) -> ExprResult
    decreases s.len() - p, 3int,
{
    if !(0 <= p <= s.len()) {
        spec_atom(s, p)
    } else {
        let q = ws_end(s, p);
        proof {
            lemma_ws_end(s, p);
        }
        if byte_is(s, q, 0x2Du8) {
            match spec_unary(s, q + 1) {
                Err(e) => Err(e),
                Ok((inner, p2)) => Ok((SpecExpr::Neg(Box::new(inner)), p2)),
            }
        } else {
            spec_atom(s, p)
        }
    }
}

/// `atom = number | ident | ident '(' args? ')' | '(' expr ')'`
pub open spec fn spec_atom(s: Seq<u8>, p: int) -> ExprResult
    decreases s.len() - p, 2int,
{
    if !(0 <= p <= s.len()) {
        Err(perr("unexpected end of expression"@, p))
    } else {
        let start = ws_end(s, p);
        proof {
            lemma_ws_end(s, p);
        }
        if start >= s.len() {
            Err(perr("unexpected end of expression"@, start))
        } else {
            let b = s[start];
            if b == 0x28u8 {
                spec_group(s, start)
            } else if is_digit(b) || b == 0x2Eu8 {
                spec_number(s, start)
            } else if is_ident_start(b) {
                spec_named(s, start)
            } else {
                Err(perr("unexpected character '"@ + seq![b as char] + "'"@, start))
            }
        }
    }
}

/// `'(' expr ')'`, where `start` holds the `(`.
pub open spec fn spec_group(s: Seq<u8>, start: int) -> ExprResult
    decreases s.len() - start, 1int,
{
    if !(0 <= start < s.len()) {
        Err(perr("expected ')'"@, start))
    } else {
        match spec_expr(s, start + 1) {
            Err(e) => Err(e),
            Ok((inner, p1)) => {
                let q = ws_end(s, p1);
                if byte_is(s, q, 0x29u8) {
                    Ok((inner, q + 1))
                } else {
                    Err(perr("expected ')'"@, q))
                }
            },
        }
    }
}

/// `ident | ident '(' args? ')'`, where the identifier starts at `start`.
pub open spec fn spec_named(s: Seq<u8>, start: int) -> ExprResult
    decreases s.len() - start, 1int,
{
    if !(0 <= start < s.len()) {
        Err(perr("unexpected end of expression"@, start))
    } else {
        let iend = ident_end(s, start);
        let name = chars_of(s.subrange(start, iend));
        let q = ws_end(s, iend);
        proof {
            lemma_ident_end(s, start);
            lemma_ws_end(s, iend);
        }
        if byte_is(s, q, 0x28u8) {
            match spec_args(s, q + 1) {
                Err(e) => Err(e),
                Ok((args, p1)) => {
                    let r = ws_end(s, p1);
                    if byte_is(s, r, 0x29u8) {
                        Ok((SpecExpr::Call(name, args), r + 1))
                    } else {
                        Err(perr("expected ')' after "@ + name + "(...)"@, r))
                    }
                },
            }
        } else {
            Ok((SpecExpr::Const(name), q))
        }
    }
}

/// `args?` inside a call's parentheses, starting after `(`.
pub open spec fn spec_args(s: Seq<u8>, p: int) -> ArgsResult
    decreases s.len() - p, 7int,
{
    if !(0 <= p <= s.len()) {
        Ok((seq![], p))
    } else {
        let q = ws_end(s, p);
        proof {
            lemma_ws_end(s, p);
        }
        if byte_is(s, q, 0x29u8) {
            Ok((seq![], q))
        } else {
            match spec_expr(s, q) {
                Err(e) => Err(e),
                Ok((first, p1)) => if p < p1 <= s.len() {
                    spec_args_tail(s, seq![first], p1)
                } else {
                    Ok((seq![first], p1))
                },
            }
        }
    }
}

/// The `(',' expr)*` tail of `args`; `acc` holds what has been read.
pub open spec fn spec_args_tail(s: Seq<u8>, acc: Seq<SpecExpr>, p: int) -> ArgsResult
    decreases s.len() - p, 7int,
{
    if !(0 <= p <= s.len()) {
        Ok((acc, p))
    } else {
        let q = ws_end(s, p);
        proof {
            lemma_ws_end(s, p);
        }
        if byte_is(s, q, 0x2Cu8) {
            match spec_expr(s, q + 1) {
                Err(e) => Err(e),
                Ok((next, p2)) => if p < p2 <= s.len() {
                    spec_args_tail(s, acc.push(next), p2)
                } else {
                    Ok((acc, q))
                },
            }
        } else {
            Ok((acc, q))
        }
    }
}

/// A whole input: one expression, then nothing but whitespace. Whatever else
/// follows is quoted in the error as the UTF-8 text it encodes.
pub open spec fn spec_parse(s: Seq<u8>) -> Result<SpecExpr, SpecParseError> {
    match spec_expr(s, 0) {
        Err(e) => Err(e),
        Ok((e, p1)) => {
            let q = ws_end(s, p1);
            if q < s.len() {
                Err(
                    perr(
                        "unexpected trailing input '"@ + decode_utf8(s.subrange(q, s.len() as int))
                            + "'"@,
                        q,
                    ),
                )
            } else {
                Ok(e)
            }
        },
    }
}

/// The byte before `q`, if there is one, is ASCII: in UTF-8 text, `q`
/// is where a character starts.
pub open spec fn after_ascii(s: Seq<u8>, q: int) -> bool {
    q == 0 || (0 < q <= s.len() && s[q - 1] <= 0x7Fu8)
}

pub proof fn lemma_ws_end_after_ascii(s: Seq<u8>, p: int)
    requires
        0 <= p <= s.len(),
        after_ascii(s, p),
    ensures
        after_ascii(s, ws_end(s, p)),
    decreases s.len() - p,
{
    if p < s.len() && is_space(s[p]) {
        lemma_ws_end_after_ascii(s, p + 1);
    }
}

proof fn lemma_number_end_ascii(s: Seq<u8>, p: int, in_exponent: bool)
    requires
        0 <= p <= s.len(),
    ensures
        forall|i: int| p <= i < number_end(s, p, in_exponent) ==> #[trigger] s[i] <= 0x7Fu8,
    decreases s.len() - p, if in_exponent { 1int } else { 0int },
{
    if in_exponent {
        if p < s.len() && is_digit(s[p]) {
            lemma_number_end_ascii(s, p + 1, true);
        } else {
            lemma_number_end_ascii(s, p, false);
        }
    } else if p < s.len() {
        let b = s[p];
        if is_digit(b) || b == 0x2Eu8 {
            lemma_number_end_ascii(s, p + 1, false);
        } else if (b == 0x65u8 || b == 0x45u8) && p + 1 < s.len() && (is_digit(s[p + 1]) || s[p + 1]
            == 0x2Bu8 || s[p + 1] == 0x2Du8) {
            lemma_number_end_ascii(s, p + 2, true);
        }
    }
}

/// What follows a position where a character starts is UTF-8 text too.
pub proof fn lemma_utf8_suffix(s: Seq<u8>, q: int)
    requires
        vstd::utf8::valid_utf8(s),
        0 <= q <= s.len(),
        after_ascii(s, q),
    ensures
        vstd::utf8::valid_utf8(s.subrange(q, s.len() as int)),
    decreases s.len(),
{
    if q == 0 {
        assert(s.subrange(0, s.len() as int) =~= s);
    } else {
        let w = vstd::utf8::length_of_first_scalar(s);
        let rest = vstd::utf8::pop_first_scalar(s);
        assert(1 <= w <= 4);
        if q < w {
            assert(vstd::utf8::is_continuation_byte(s[q - 1]) || q - 1 == 0);
        } else {
            if q > w {
                assert(rest[q - w - 1] == s[q - 1]);
            }
            lemma_utf8_suffix(rest, q - w);
            assert(rest.subrange(q - w, rest.len() as int) =~= s.subrange(q, s.len() as int));
        }
    }
}

proof fn lemma_float_literal_nonempty(t: Seq<u8>)
    requires
        is_float_literal(t),
    ensures
        t.len() > 0,
{
}

/// A number that reads successfully consumes at least one byte, all of them ASCII.
pub proof fn lemma_number_advances(s: Seq<u8>, start: int)
    requires
        0 <= start <= s.len(),
    ensures
        spec_number(s, start) matches Ok((_e, p1)) ==> start < p1 <= s.len() && after_ascii(s, p1),
        spec_number(s, start) matches Err(e) ==> 0 <= e.position <= s.len(),
{
    lemma_number_end(s, start, false);
    lemma_number_end_ascii(s, start, false);
    let end = number_end(s, start, false);
    if is_float_literal(s.subrange(start, end)) {
        lemma_float_literal_nonempty(s.subrange(start, end));
        assert(s[end - 1] <= 0x7Fu8);
    }
}

/// Every rule of the grammar that reads successfully from a position inside
/// the input consumes at least one byte and stops inside the input (the
/// guards `p < p1 <= s.len()` in the rules above always hold), right after
/// an ASCII byte, so that in UTF-8 text it stops where a character starts.
pub proof fn lemma_expr_advances(s: Seq<u8>, p: int)
    requires
        0 <= p <= s.len(),
    ensures
        spec_expr(s, p) matches Ok((_e, p1)) ==> p < p1 <= s.len() && after_ascii(s, p1),
        spec_expr(s, p) matches Err(e) ==> 0 <= e.position <= s.len(),
    decreases s.len() - p, 6int,
{
    lemma_term_advances(s, p);
    if let Ok((lhs, p1)) = spec_term(s, p) {
        lemma_chain_advances(s, lhs, p1, true);
    }
}

pub proof fn lemma_term_advances(s: Seq<u8>, p: int)
    requires
        0 <= p <= s.len(),
    ensures
        spec_term(s, p) matches Ok((_e, p1)) ==> p < p1 <= s.len() && after_ascii(s, p1),
        spec_term(s, p) matches Err(e) ==> 0 <= e.position <= s.len(),
    decreases s.len() - p, 5int,
{
    lemma_factor_advances(s, p);
    if let Ok((lhs, p1)) = spec_factor(s, p) {
        lemma_chain_advances(s, lhs, p1, false);
    }
}

/// The tail of an `expr` or a `term` never moves back, and stops inside the input.
pub proof fn lemma_chain_advances(s: Seq<u8>, lhs: SpecExpr, p: int, additive: bool)
    requires
        0 <= p <= s.len(),
        after_ascii(s, p),
    ensures
        spec_chain(s, lhs, p, additive) matches Ok((_e, p1)) ==> p <= p1 <= s.len() && after_ascii(
            s,
            p1,
        ),
        spec_chain(s, lhs, p, additive) matches Err(e) ==> 0 <= e.position <= s.len(),
    decreases s.len() - p, 6int,
{
    lemma_ws_end(s, p);
    lemma_ws_end_after_ascii(s, p);
    let q = ws_end(s, p);
    if let Some(op) = op_at(s, q, additive) {
        let next = if additive {
            lemma_term_advances(s, q + 1);
            spec_term(s, q + 1)
        } else {
            lemma_factor_advances(s, q + 1);
            spec_factor(s, q + 1)
        };
        if let Ok((rhs, p2)) = next {
            lemma_chain_advances(
                s,
                SpecExpr::BinOp(op, Box::new(lhs), Box::new(rhs)),
                p2,
                additive,
            );
        }
    }
}

pub proof fn lemma_factor_advances(s: Seq<u8>, p: int)
    requires
        0 <= p <= s.len(),
    ensures
        spec_factor(s, p) matches Ok((_e, p1)) ==> p < p1 <= s.len() && after_ascii(s, p1),
        spec_factor(s, p) matches Err(e) ==> 0 <= e.position <= s.len(),
    decreases s.len() - p, 4int,
{
    lemma_unary_advances(s, p);
    if let Ok((_lhs, p1)) = spec_unary(s, p) {
        lemma_ws_end(s, p1);
        lemma_ws_end_after_ascii(s, p1);
        let q = ws_end(s, p1);
        if byte_is(s, q, 0x5Eu8) {
            lemma_factor_advances(s, q + 1);
        }
    }
}

pub proof fn lemma_unary_advances(s: Seq<u8>, p: int)
    requires
        0 <= p <= s.len(),
    ensures
        spec_unary(s, p) matches Ok((_e, p1)) ==> p < p1 <= s.len() && after_ascii(s, p1),
        spec_unary(s, p) matches Err(e) ==> 0 <= e.position <= s.len(),
    decreases s.len() - p, 3int,
{
    lemma_ws_end(s, p);
    let q = ws_end(s, p);
    if byte_is(s, q, 0x2Du8) {
        lemma_unary_advances(s, q + 1);
    } else {
        lemma_atom_advances(s, p);
    }
}

pub proof fn lemma_atom_advances(s: Seq<u8>, p: int)
    requires
        0 <= p <= s.len(),
    ensures
        spec_atom(s, p) matches Ok((_e, p1)) ==> p < p1 <= s.len() && after_ascii(s, p1),
        spec_atom(s, p) matches Err(e) ==> 0 <= e.position <= s.len(),
    decreases s.len() - p, 2int,
{
    lemma_ws_end(s, p);
    let start = ws_end(s, p);
    if start < s.len() {
        let b = s[start];
        if b == 0x28u8 {
            lemma_group_advances(s, start);
        } else if is_digit(b) || b == 0x2Eu8 {
            lemma_number_advances(s, start);
        } else if is_ident_start(b) {
            lemma_named_advances(s, start);
        }
    }
}

pub proof fn lemma_group_advances(s: Seq<u8>, start: int)
    requires
        0 <= start < s.len(),
    ensures
        spec_group(s, start) matches Ok((_e, p1)) ==> start < p1 <= s.len() && after_ascii(s, p1),
        spec_group(s, start) matches Err(e) ==> 0 <= e.position <= s.len(),
    decreases s.len() - start, 1int,
{
    lemma_expr_advances(s, start + 1);
    if let Ok((_inner, p1)) = spec_expr(s, start + 1) {
        lemma_ws_end(s, p1);
    }
}

pub proof fn lemma_named_advances(s: Seq<u8>, start: int)
    requires
        0 <= start < s.len(),
        is_ident_start(s[start]),
    ensures
        spec_named(s, start) matches Ok((_e, p1)) ==> start < p1 <= s.len() && after_ascii(s, p1),
        spec_named(s, start) matches Err(e) ==> 0 <= e.position <= s.len(),
    decreases s.len() - start, 1int,
{
    lemma_ident_end(s, start);
    lemma_ident_end(s, start + 1);
    let iend = ident_end(s, start);
    assert(iend == ident_end(s, start + 1));
    assert(is_ident_continue(s[iend - 1]));
    lemma_ws_end(s, iend);
    lemma_ws_end_after_ascii(s, iend);
    let q = ws_end(s, iend);
    if byte_is(s, q, 0x28u8) {
        lemma_args_advances(s, q + 1);
        if let Ok((_args, p1)) = spec_args(s, q + 1) {
            lemma_ws_end(s, p1);
        }
    }
}

/// The arguments of a call never move back, and stop inside the input.
pub proof fn lemma_args_advances(s: Seq<u8>, p: int)
    requires
        0 <= p <= s.len(),
    ensures
        spec_args(s, p) matches Ok((_a, p1)) ==> p <= p1 <= s.len(),
        spec_args(s, p) matches Err(e) ==> 0 <= e.position <= s.len(),
    decreases s.len() - p, 7int,
{
    lemma_ws_end(s, p);
    let q = ws_end(s, p);
    if !byte_is(s, q, 0x29u8) {
        lemma_expr_advances(s, q);
        if let Ok((first, p1)) = spec_expr(s, q) {
            lemma_args_tail_advances(s, seq![first], p1);
        }
    }
}

pub proof fn lemma_args_tail_advances(s: Seq<u8>, acc: Seq<SpecExpr>, p: int)
    requires
        0 <= p <= s.len(),
    ensures
        spec_args_tail(s, acc, p) matches Ok((_a, p1)) ==> p <= p1 <= s.len(),
        spec_args_tail(s, acc, p) matches Err(e) ==> 0 <= e.position <= s.len(),
    decreases s.len() - p, 7int,
{
    lemma_ws_end(s, p);
    let q = ws_end(s, p);
    if byte_is(s, q, 0x2Cu8) {
        lemma_expr_advances(s, q + 1);
        if let Ok((next, p2)) = spec_expr(s, q + 1) {
            lemma_args_tail_advances(s, acc.push(next), p2);
        }
    }
}

/// A parse error points inside the input, or just past its end.
pub proof fn lemma_parse_error_position(s: Seq<u8>)
    ensures
        spec_parse(s) matches Err(e) ==> 0 <= e.position <= s.len(),
{
    lemma_expr_advances(s, 0);
    if let Ok((_e, p1)) = spec_expr(s, 0) {
        lemma_ws_end(s, p1);
    }
}

proof fn lemma_ws_end_blank(s: Seq<u8>, p: int)
    requires
        0 <= p <= s.len(),
        forall|i: int| 0 <= i < s.len() ==> is_space(#[trigger] s[i]),
    ensures
        ws_end(s, p) == s.len(),
    decreases s.len() - p,
{
    if p < s.len() {
        lemma_ws_end_blank(s, p + 1);
    }
}

/// An input of nothing but whitespace is an expression that ends before it
/// starts: the error is at the input's end.
pub proof fn lemma_blank_input(s: Seq<u8>)
    requires
        forall|i: int| 0 <= i < s.len() ==> is_space(#[trigger] s[i]),
    ensures
        spec_parse(s) == Err::<SpecExpr, SpecParseError>(
            perr("unexpected end of expression"@, s.len() as int),
        ),
{
    lemma_ws_end_blank(s, 0);
    assert(spec_atom(s, 0) == Err::<(SpecExpr, int), SpecParseError>(
        perr("unexpected end of expression"@, s.len() as int),
    ));
    assert(spec_unary(s, 0) == spec_atom(s, 0));
}

proof fn lemma_number_end_mantissa(s: Seq<u8>, p: int, k: int)
    requires
        0 <= p <= k <= s.len(),
        forall|j: int| p <= j < k ==> is_digit(#[trigger] s[j]) || s[j] == 0x2Eu8,
    ensures
        number_end(s, p, false) == number_end(s, k, false),
    decreases k - p,
{
    if p < k {
        lemma_number_end_mantissa(s, p + 1, k);
    }
}

proof fn lemma_number_end_exponent_digits(s: Seq<u8>, p: int)
    requires
        0 <= p <= s.len(),
        forall|j: int| p <= j < s.len() ==> is_digit(#[trigger] s[j]),
    ensures
        number_end(s, p, true) == s.len(),
    decreases s.len() - p,
{
    if p < s.len() {
        lemma_number_end_exponent_digits(s, p + 1);
    } else {
        assert(number_end(s, p, false) == p);
    }
}

/// The text of a decimal literal: digits `int_part`, then, if `dot`, a `.`
/// and digits `frac`, then, if `exp`, `e` or `E`, an optional sign and the
/// digits `exp_digits`.
pub open spec fn literal_text(
    int_part: Seq<u8>,
    dot: bool,
    frac: Seq<u8>,
    exp: bool,
    e: u8,
    sign: Seq<u8>,
    exp_digits: Seq<u8>,
) -> Seq<u8> {
    let m = if dot {
        int_part + seq![0x2Eu8] + frac
    } else {
        int_part
    };
    if exp {
        m + seq![e] + sign + exp_digits
    } else {
        m
    }
}

proof fn lemma_mantissa_text(int_part: Seq<u8>, dot: bool, frac: Seq<u8>)
    requires
        all_digits(int_part),
        all_digits(frac),
        int_part.len() > 0 || (dot && frac.len() > 0),
    ensures
        ({
            let m = literal_text(int_part, dot, frac, false, 0x65u8, seq![], seq![]);
            &&& is_mantissa(m)
            &&& forall|j: int| 0 <= j < m.len() ==> is_digit(#[trigger] m[j]) || m[j] == 0x2Eu8
        }),
{
    let m = literal_text(int_part, dot, frac, false, 0x65u8, seq![], seq![]);
    let k = m.len() as int;
    assert forall|j: int| 0 <= j < k implies is_digit(#[trigger] m[j]) || m[j] == 0x2Eu8 by {
        if j < int_part.len() {
            assert(m[j] == int_part[j]);
        } else if dot && j > int_part.len() {
            assert(m[j] == frac[j - int_part.len() - 1]);
        }
    }
    if dot {
        let ip = int_part.len() as int;
        assert(m[ip] == 0x2Eu8);
        assert(m.subrange(0, ip) =~= int_part);
        assert(m.subrange(ip + 1, k) =~= frac);
    }
}

proof fn lemma_literal_scans(
    int_part: Seq<u8>,
    dot: bool,
    frac: Seq<u8>,
    exp: bool,
    e: u8,
    sign: Seq<u8>,
    exp_digits: Seq<u8>,
)
    requires
        all_digits(int_part),
        all_digits(frac),
        all_digits(exp_digits),
        int_part.len() > 0 || (dot && frac.len() > 0),
        exp ==> exp_digits.len() > 0,
        e == 0x65u8 || e == 0x45u8,
        sign == Seq::<u8>::empty() || sign == seq![0x2Bu8] || sign == seq![0x2Du8],
    ensures
        ({
            let t = literal_text(int_part, dot, frac, exp, e, sign, exp_digits);
            &&& is_float_literal(t)
            &&& number_end(t, 0, false) == t.len()
            &&& t.len() > 0
            &&& (is_digit(t[0]) || t[0] == 0x2Eu8)
        }),
{
    let t = literal_text(int_part, dot, frac, exp, e, sign, exp_digits);
    let m = literal_text(int_part, dot, frac, false, 0x65u8, seq![], seq![]);
    let k = m.len() as int;
    lemma_mantissa_text(int_part, dot, frac);
    assert(k > 0);
    assert forall|j: int| 0 <= j < k implies is_digit(#[trigger] t[j]) || t[j] == 0x2Eu8 by {
        assert(t[j] == m[j]);
        assert(is_digit(m[j]) || m[j] == 0x2Eu8);
    }
    assert(is_digit(t[0]) || t[0] == 0x2Eu8);
    lemma_number_end_mantissa(t, 0, k);
    if exp {
        let x = sign + exp_digits;
        assert(t =~= m + seq![e] + x);
        assert(t[k] == e);
        assert(t.subrange(0, k) =~= m);
        assert(t.subrange(k + 1, t.len() as int) =~= x);
        if sign.len() == 0 {
            assert(x =~= exp_digits);
        } else {
            assert(x.subrange(1, x.len() as int) =~= exp_digits);
        }
        assert(is_exponent(x));
        assert(is_float_literal(t));
        assert(is_digit(t[k + 1]) || t[k + 1] == 0x2Bu8 || t[k + 1] == 0x2Du8) by {
            if sign.len() == 0 {
                assert(t[k + 1] == exp_digits[0]);
            } else {
                assert(t[k + 1] == sign[0]);
            }
        }
        assert(number_end(t, k, false) == number_end(t, k + 2, true));
        assert forall|j: int| k + 2 <= j < t.len() implies is_digit(#[trigger] t[j]) by {
            assert(t[j] == exp_digits[j - k - 1 - sign.len()]);
        }
        lemma_number_end_exponent_digits(t, k + 2);
    } else {
        assert(t == m);
        assert(number_end(t, k, false) == k);
    }
}

/// A whole input that is one number's text, scanned to its end and
/// accepted, parses as that number.
proof fn lemma_number_parses(t: Seq<u8>)
    requires
        t.len() > 0,
        is_digit(t[0]) || t[0] == 0x2Eu8,
        number_end(t, 0, false) == t.len(),
        is_float_literal(t),
    ensures
        spec_parse(t) == Ok::<SpecExpr, SpecParseError>(SpecExpr::Num(chars_of(t))),
{
    assert(t.subrange(0, t.len() as int) =~= t);
    let len = t.len() as int;
    assert(ws_end(t, 0) == 0);
    assert(ws_end(t, len) == len);
    let num = SpecExpr::Num(chars_of(t));
    assert(spec_number(t, 0) == Ok::<(SpecExpr, int), SpecParseError>((num, len)));
    assert(spec_atom(t, 0) == Ok::<(SpecExpr, int), SpecParseError>((num, len)));
    assert(spec_unary(t, 0) == Ok::<(SpecExpr, int), SpecParseError>((num, len)));
    assert(spec_factor(t, 0) == Ok::<(SpecExpr, int), SpecParseError>((num, len)));
    assert(spec_chain(t, num, len, false) == Ok::<(SpecExpr, int), SpecParseError>((num, len)));
    assert(spec_chain(t, num, len, true) == Ok::<(SpecExpr, int), SpecParseError>((num, len)));
    assert(spec_term(t, 0) == Ok::<(SpecExpr, int), SpecParseError>((num, len)));
    assert(spec_expr(t, 0) == Ok::<(SpecExpr, int), SpecParseError>((num, len)));
}

/// Every decimal literal reads as one number, its whole text: digits with
/// an optional fraction (`1`, `1.`, `1.5`, `.5`), and optionally `e` or
/// `E`, an optional sign and at least one digit of exponent, however many
/// (`1e10`, `6.022e23`, `1e-10`, `2E+300`). These are the texts that
/// `f64::from_str` reads.
pub proof fn law_decimal_literal(
    int_part: Seq<u8>,
    dot: bool,
    frac: Seq<u8>,
    exp: bool,
    e: u8,
    sign: Seq<u8>,
    exp_digits: Seq<u8>,
)
    requires
        all_digits(int_part),
        all_digits(frac),
        all_digits(exp_digits),
        int_part.len() > 0 || (dot && frac.len() > 0),
        exp ==> exp_digits.len() > 0,
        e == 0x65u8 || e == 0x45u8,
        sign == Seq::<u8>::empty() || sign == seq![0x2Bu8] || sign == seq![0x2Du8],
    ensures
        is_float_literal(literal_text(int_part, dot, frac, exp, e, sign, exp_digits)),
        spec_parse(literal_text(int_part, dot, frac, exp, e, sign, exp_digits)) == Ok::<
            SpecExpr,
            SpecParseError,
        >(SpecExpr::Num(chars_of(literal_text(int_part, dot, frac, exp, e, sign, exp_digits)))),
{
    lemma_literal_scans(int_part, dot, frac, exp, e, sign, exp_digits);
    lemma_number_parses(literal_text(int_part, dot, frac, exp, e, sign, exp_digits));
}

} // verus!
