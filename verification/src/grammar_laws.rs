//! `*` and `/` are read alike: the same operands, the same precedence and
//! the same associativity. Exchanging the two operator bytes in an input
//! exchanges `Mul` and `Div` in its tree, and changes nothing else.

use vstd::prelude::*;
use crate::bytes::{is_digit, is_ident_continue, is_ident_start, is_space};
use crate::code_mode::BinOp;
use crate::grammar::{
    byte_is, ident_end, lemma_ident_end, lemma_number_end, lemma_ws_end, number_end, op_at, spec_args,
    spec_args_tail, spec_atom, spec_chain, spec_expr, spec_factor, spec_group, spec_named,
    spec_number, spec_parse, spec_term, spec_unary, ws_end, SpecExpr, SpecParseError,
};

verus! {

pub open spec fn swap_op_byte(b: u8) -> u8 {
    if b == 0x2Au8 {
        0x2Fu8
    } else if b == 0x2Fu8 {
        0x2Au8
    } else {
        b
    }
}

/// The input with every `*` written as `/` and every `/` as `*`.
pub open spec fn swap_op_bytes(s: Seq<u8>) -> Seq<u8> {
    Seq::new(s.len(), |i: int| swap_op_byte(s[i]))
}

pub open spec fn swap_binop(op: BinOp) -> BinOp {
    match op {
        BinOp::Mul => BinOp::Div,
        BinOp::Div => BinOp::Mul,
        _ => op,
    }
}

/// The tree with every `Mul` made a `Div` and every `Div` a `Mul`.
pub open spec fn swap_ops(e: SpecExpr) -> SpecExpr
    decreases e,
{
    match e {
        SpecExpr::Num(t) => SpecExpr::Num(t),
        SpecExpr::Const(n) => SpecExpr::Const(n),
        SpecExpr::Call(n, args) => SpecExpr::Call(n, swap_ops_all(args)),
        SpecExpr::BinOp(op, l, r) => SpecExpr::BinOp(
            swap_binop(op),
            Box::new(swap_ops(*l)),
            Box::new(swap_ops(*r)),
        ),
        SpecExpr::Neg(x) => SpecExpr::Neg(Box::new(swap_ops(*x))),
    }
}

pub open spec fn swap_ops_all(args: Seq<SpecExpr>) -> Seq<SpecExpr>
    decreases args,
{
    if args.len() == 0 {
        seq![]
    } else {
        swap_ops_all(args.drop_last()).push(swap_ops(args.last()))
    }
}

proof fn lemma_swap_all_push(acc: Seq<SpecExpr>, x: SpecExpr)
    ensures
        swap_ops_all(acc.push(x)) == swap_ops_all(acc).push(swap_ops(x)),
{
    assert(acc.push(x).drop_last() =~= acc);
}

/// Whitespace, and the bytes that other tokens start with, are unchanged.
proof fn lemma_swap_bytes(s: Seq<u8>)
    ensures
        swap_op_bytes(s).len() == s.len(),
        forall|i: int| 0 <= i < s.len() ==> #[trigger] swap_op_bytes(s)[i] == swap_op_byte(s[i]),
{
}

proof fn lemma_swap_ws_end(s: Seq<u8>, p: int)
    ensures
        ws_end(swap_op_bytes(s), p) == ws_end(s, p),
    decreases s.len() - p,
{
    lemma_swap_bytes(s);
    if 0 <= p < s.len() && is_space(s[p]) {
        lemma_swap_ws_end(s, p + 1);
    }
}

proof fn lemma_swap_ident_end(s: Seq<u8>, p: int)
    ensures
        ident_end(swap_op_bytes(s), p) == ident_end(s, p),
    decreases s.len() - p,
{
    lemma_swap_bytes(s);
    if 0 <= p < s.len() && is_ident_continue(s[p]) {
        lemma_swap_ident_end(s, p + 1);
    }
}

proof fn lemma_swap_number_end(s: Seq<u8>, p: int, in_exponent: bool)
    ensures
        number_end(swap_op_bytes(s), p, in_exponent) == number_end(s, p, in_exponent),
        0 <= p <= s.len() ==> forall|i: int|
            p <= i < number_end(s, p, in_exponent) ==> #[trigger] swap_op_bytes(s)[i] == s[i],
    decreases s.len() - p, if in_exponent { 1int } else { 0int },
{
    lemma_swap_bytes(s);
    if !(0 <= p <= s.len()) {
    } else if in_exponent {
        if p < s.len() && is_digit(s[p]) {
            lemma_swap_number_end(s, p + 1, true);
        } else {
            lemma_swap_number_end(s, p, false);
        }
    } else if p < s.len() {
        let b = s[p];
        if is_digit(b) || b == 0x2Eu8 {
            lemma_swap_number_end(s, p + 1, false);
        } else if (b == 0x65u8 || b == 0x45u8) && p + 1 < s.len() && (is_digit(s[p + 1]) || s[p + 1]
            == 0x2Bu8 || s[p + 1] == 0x2Du8) {
            lemma_swap_number_end(s, p + 2, true);
        }
    }
}

proof fn lemma_swap_number(s: Seq<u8>, start: int)
    requires
        0 <= start <= s.len(),
    ensures
        spec_number(swap_op_bytes(s), start) == spec_number(s, start),
{
    lemma_swap_number_end(s, start, false);
    lemma_number_end(s, start, false);
    let end = number_end(s, start, false);
    assert(swap_op_bytes(s).subrange(start, end) =~= s.subrange(start, end));
}

proof fn lemma_swap_byte_is(s: Seq<u8>, q: int, b: u8)
    requires
        b != 0x2Au8,
        b != 0x2Fu8,
    ensures
        byte_is(swap_op_bytes(s), q, b) == byte_is(s, q, b),
{
    lemma_swap_bytes(s);
}

proof fn lemma_swap_op_at(s: Seq<u8>, q: int, additive: bool)
    ensures
        op_at(swap_op_bytes(s), q, additive) == match op_at(s, q, additive) {
            Some(op) => Some(swap_binop(op)),
            None => None,
        },
{
    lemma_swap_bytes(s);
}

pub proof fn lemma_swap_expr(s: Seq<u8>, p: int)
    requires
        0 <= p <= s.len(),
    ensures
        spec_expr(s, p) matches Ok((e, p1)) ==> spec_expr(swap_op_bytes(s), p) == Ok::<
            (SpecExpr, int),
            SpecParseError,
        >((swap_ops(e), p1)),
    decreases s.len() - p, 6int,
{
    lemma_swap_term(s, p);
    if let Ok((lhs, p1)) = spec_term(s, p) {
        if p < p1 <= s.len() {
            lemma_swap_chain(s, lhs, p1, true);
        }
    }
}

pub proof fn lemma_swap_term(s: Seq<u8>, p: int)
    requires
        0 <= p <= s.len(),
    ensures
        spec_term(s, p) matches Ok((e, p1)) ==> spec_term(swap_op_bytes(s), p) == Ok::<
            (SpecExpr, int),
            SpecParseError,
        >((swap_ops(e), p1)),
    decreases s.len() - p, 5int,
{
    lemma_swap_factor(s, p);
    if let Ok((lhs, p1)) = spec_factor(s, p) {
        if p < p1 <= s.len() {
            lemma_swap_chain(s, lhs, p1, false);
        }
    }
}

pub proof fn lemma_swap_chain(s: Seq<u8>, lhs: SpecExpr, p: int, additive: bool)
    requires
        0 <= p <= s.len(),
    ensures
        spec_chain(s, lhs, p, additive) matches Ok((e, p1)) ==> spec_chain(
            swap_op_bytes(s),
            swap_ops(lhs),
            p,
            additive,
        ) == Ok::<(SpecExpr, int), SpecParseError>((swap_ops(e), p1)),
    decreases s.len() - p, 6int,
{
    lemma_ws_end(s, p);
    lemma_swap_ws_end(s, p);
    let q = ws_end(s, p);
    lemma_swap_op_at(s, q, additive);
    if let Some(op) = op_at(s, q, additive) {
        let next = if additive {
            lemma_swap_term(s, q + 1);
            spec_term(s, q + 1)
        } else {
            lemma_swap_factor(s, q + 1);
            spec_factor(s, q + 1)
        };
        if let Ok((rhs, p2)) = next {
            if p < p2 <= s.len() {
                let joined = SpecExpr::BinOp(op, Box::new(lhs), Box::new(rhs));
                lemma_swap_chain(s, joined, p2, additive);
                assert(swap_ops(joined) == SpecExpr::BinOp(
                    swap_binop(op),
                    Box::new(swap_ops(lhs)),
                    Box::new(swap_ops(rhs)),
                ));
            }
        }
    }
}

pub proof fn lemma_swap_factor(s: Seq<u8>, p: int)
    requires
        0 <= p <= s.len(),
    ensures
        spec_factor(s, p) matches Ok((e, p1)) ==> spec_factor(swap_op_bytes(s), p) == Ok::<
            (SpecExpr, int),
            SpecParseError,
        >((swap_ops(e), p1)),
    decreases s.len() - p, 4int,
{
    lemma_swap_unary(s, p);
    if let Ok((_lhs, p1)) = spec_unary(s, p) {
        if 0 <= p < p1 <= s.len() {
            lemma_ws_end(s, p1);
            lemma_swap_ws_end(s, p1);
            let q = ws_end(s, p1);
            lemma_swap_byte_is(s, q, 0x5Eu8);
            if byte_is(s, q, 0x5Eu8) {
                lemma_swap_factor(s, q + 1);
            }
        }
    }
}

pub proof fn lemma_swap_unary(s: Seq<u8>, p: int)
    requires
        0 <= p <= s.len(),
    ensures
        spec_unary(s, p) matches Ok((e, p1)) ==> spec_unary(swap_op_bytes(s), p) == Ok::<
            (SpecExpr, int),
            SpecParseError,
        >((swap_ops(e), p1)),
    decreases s.len() - p, 3int,
{
    lemma_ws_end(s, p);
    lemma_swap_ws_end(s, p);
    let q = ws_end(s, p);
    lemma_swap_byte_is(s, q, 0x2Du8);
    if byte_is(s, q, 0x2Du8) {
        lemma_swap_unary(s, q + 1);
    } else {
        lemma_swap_atom(s, p);
    }
}

pub proof fn lemma_swap_atom(s: Seq<u8>, p: int)
    requires
        0 <= p <= s.len(),
    ensures
        spec_atom(s, p) matches Ok((e, p1)) ==> spec_atom(swap_op_bytes(s), p) == Ok::<
            (SpecExpr, int),
            SpecParseError,
        >((swap_ops(e), p1)),
    decreases s.len() - p, 2int,
{
    lemma_swap_bytes(s);
    lemma_ws_end(s, p);
    lemma_swap_ws_end(s, p);
    let start = ws_end(s, p);
    if start < s.len() {
        let b = s[start];
        assert(swap_op_bytes(s)[start] == swap_op_byte(b));
        if b == 0x28u8 {
            lemma_swap_group(s, start);
        } else if is_digit(b) || b == 0x2Eu8 {
            lemma_swap_number(s, start);
        } else if is_ident_start(b) {
            lemma_swap_named(s, start);
        }
    }
}

pub proof fn lemma_swap_group(s: Seq<u8>, start: int)
    requires
        0 <= start < s.len(),
    ensures
        spec_group(s, start) matches Ok((e, p1)) ==> spec_group(swap_op_bytes(s), start) == Ok::<
            (SpecExpr, int),
            SpecParseError,
        >((swap_ops(e), p1)),
    decreases s.len() - start, 1int,
{
    lemma_swap_bytes(s);
    lemma_swap_expr(s, start + 1);
    if let Ok((_inner, p1)) = spec_expr(s, start + 1) {
        lemma_swap_ws_end(s, p1);
        lemma_swap_byte_is(s, ws_end(s, p1), 0x29u8);
    }
}

pub proof fn lemma_swap_named(s: Seq<u8>, start: int)
    requires
        0 <= start < s.len(),
    ensures
        spec_named(s, start) matches Ok((e, p1)) ==> spec_named(swap_op_bytes(s), start) == Ok::<
            (SpecExpr, int),
            SpecParseError,
        >((swap_ops(e), p1)),
    decreases s.len() - start, 1int,
{
    lemma_swap_bytes(s);
    lemma_ident_end(s, start);
    lemma_swap_ident_end(s, start);
    let iend = ident_end(s, start);
    let sw = swap_op_bytes(s);
    assert forall|i: int| start <= i < iend implies sw[i] == s[i] by {
        assert(is_ident_continue(s[i]));
    }
    assert(sw.subrange(start, iend) =~= s.subrange(start, iend));
    lemma_ws_end(s, iend);
    lemma_swap_ws_end(s, iend);
    let q = ws_end(s, iend);
    lemma_swap_byte_is(s, q, 0x28u8);
    if byte_is(s, q, 0x28u8) {
        lemma_swap_args(s, q + 1);
        if let Ok((_args, p1)) = spec_args(s, q + 1) {
            lemma_swap_ws_end(s, p1);
            lemma_swap_byte_is(s, ws_end(s, p1), 0x29u8);
        }
    }
}

pub proof fn lemma_swap_args(s: Seq<u8>, p: int)
    requires
        0 <= p <= s.len(),
    ensures
        spec_args(s, p) matches Ok((a, p1)) ==> spec_args(swap_op_bytes(s), p) == Ok::<
            (Seq<SpecExpr>, int),
            SpecParseError,
        >((swap_ops_all(a), p1)),
    decreases s.len() - p, 7int,
{
    lemma_ws_end(s, p);
    lemma_swap_ws_end(s, p);
    let q = ws_end(s, p);
    lemma_swap_byte_is(s, q, 0x29u8);
    if !byte_is(s, q, 0x29u8) {
        lemma_swap_expr(s, q);
        if let Ok((first, p1)) = spec_expr(s, q) {
            if p < p1 <= s.len() {
                lemma_swap_args_tail(s, seq![first], p1);
                lemma_swap_all_push(seq![], first);
                assert(seq![first] =~= Seq::<SpecExpr>::empty().push(first));
                assert(swap_ops_all(Seq::<SpecExpr>::empty()) =~= seq![]);
                assert(seq![swap_ops(first)] =~= Seq::<SpecExpr>::empty().push(swap_ops(first)));
            } else {
                lemma_swap_all_push(seq![], first);
                assert(seq![first] =~= Seq::<SpecExpr>::empty().push(first));
                assert(seq![swap_ops(first)] =~= Seq::<SpecExpr>::empty().push(swap_ops(first)));
            }
        }
    }
}

pub proof fn lemma_swap_args_tail(s: Seq<u8>, acc: Seq<SpecExpr>, p: int)
    requires
        0 <= p <= s.len(),
    ensures
        spec_args_tail(s, acc, p) matches Ok((a, p1)) ==> spec_args_tail(
            swap_op_bytes(s),
            swap_ops_all(acc),
            p,
        ) == Ok::<(Seq<SpecExpr>, int), SpecParseError>((swap_ops_all(a), p1)),
    decreases s.len() - p, 7int,
{
    lemma_ws_end(s, p);
    lemma_swap_ws_end(s, p);
    let q = ws_end(s, p);
    lemma_swap_byte_is(s, q, 0x2Cu8);
    if byte_is(s, q, 0x2Cu8) {
        lemma_swap_expr(s, q + 1);
        if let Ok((next, p2)) = spec_expr(s, q + 1) {
            if p < p2 <= s.len() {
                lemma_swap_args_tail(s, acc.push(next), p2);
                lemma_swap_all_push(acc, next);
            }
        }
    }
}

proof fn lemma_swap_twice(s: Seq<u8>)
    ensures
        swap_op_bytes(swap_op_bytes(s)) == s,
{
    assert(swap_op_bytes(swap_op_bytes(s)) =~= s);
}

/// `*` and `/` are read alike. An input parses exactly when the input with
/// every `*` and `/` exchanged parses, and its tree is then the same tree
/// with every `Mul` and `Div` exchanged: the right operand of `/` is read
/// as that of `*` is (`a / b ^ c` is `a / (b ^ c)`, as `a * b ^ c` is
/// `a * (b ^ c)`), and both associate to the left.
pub proof fn law_mul_div_read_alike(s: Seq<u8>)
    ensures
        spec_parse(s) is Ok <==> spec_parse(swap_op_bytes(s)) is Ok,
        spec_parse(s) matches Ok(e) ==> spec_parse(swap_op_bytes(s)) == Ok::<
            SpecExpr,
            SpecParseError,
        >(swap_ops(e)),
{
    lemma_parse_swaps(s);
    lemma_parse_swaps(swap_op_bytes(s));
    lemma_swap_twice(s);
}

proof fn lemma_parse_swaps(s: Seq<u8>)
    ensures
        spec_parse(s) matches Ok(e) ==> spec_parse(swap_op_bytes(s)) == Ok::<
            SpecExpr,
            SpecParseError,
        >(swap_ops(e)),
{
    lemma_swap_bytes(s);
    lemma_swap_expr(s, 0);
    if let Ok((_e, p1)) = spec_expr(s, 0) {
        lemma_swap_ws_end(s, p1);
    }
}

} // verus!
