//! Code mode: one math expression in, one tree out.
//!
//! The language is pure math: numbers, the constants `pi` and `e`, the nine
//! calculator primitives as named functions, infix `+ - * / ^` and unary
//! `-`. There are no variables and no control flow. `parse` reads an
//! expression into an [`Expr`], rejecting shape errors before anything is
//! evaluated; the tree it returns is exactly the one that
//! [`spec_parse`](crate::grammar::spec_parse) reads from the input's bytes.

use vstd::prelude::*;
use vstd::string::*;
use crate::bytes::{
    chars_of, digit, ident_continue, ident_start, is_ident_continue, is_space, push_char, space,
    text_of,
    utf8_lossy,
};
use crate::literal::float_literal;
use crate::grammar::{
    additive_op, byte_is, ident_end, lemma_blank_input, lemma_expr_advances, lemma_ident_end, lemma_parse_error_position, lemma_number_end,
    lemma_utf8_suffix, lemma_ws_end, lemma_ws_end_after_ascii, multiplicative_op, number_end, op_at,
    perr, spec_args, spec_args_tail, spec_atom, spec_chain, spec_expr, spec_factor, spec_group,
    spec_named, spec_number, spec_parse, spec_term, spec_unary, ws_end, ArgsResult, ExprResult,
    SpecExpr, SpecParseError,
};

verus! {

#[derive(Debug, Clone, Copy, PartialEq, Eq, Structural)]
pub enum BinOp {
    Add,
    Sub,
    Mul,
    Div,
    Pow,
}

pub open spec fn binop_primitive(op: BinOp) -> Seq<char> {
    match op {
        BinOp::Add => "add"@,
        BinOp::Sub => "subtract"@,
        BinOp::Mul => "multiply"@,
        BinOp::Div => "divide"@,
        BinOp::Pow => "power"@,
    }
}

impl BinOp {
    /// Name of the calculator primitive that carries out this operator.
    pub fn primitive(self) -> (r: &'static str)
        ensures
            r@ == binop_primitive(self),
    {
        match self {
            BinOp::Add => "add",
            BinOp::Sub => "subtract",
            BinOp::Mul => "multiply",
            BinOp::Div => "divide",
            BinOp::Pow => "power",
        }
    }
}

/// An expression of the calculator language. A number keeps the text it was
/// written with; it is turned into a value when the expression is evaluated.
#[derive(Debug)]
pub enum Expr {
    Num(String),
    /// Bare identifier like `pi` or `e`.
    Const(String),
    /// `name(args...)`.
    Call(String, Vec<Expr>),
    /// `+ - * / ^`.
    BinOp(BinOp, Box<Expr>, Box<Expr>),
    /// Unary `-`.
    Neg(Box<Expr>),
}

impl Clone for Expr {
    /// A deep copy: the same tree.
    fn clone(&self) -> (r: Self)
        ensures
            expr_model(r) == expr_model(*self),
        decreases self,
    {
        match self {
            Expr::Num(t) => Expr::Num(t.clone()),
            Expr::Const(n) => Expr::Const(n.clone()),
            Expr::Call(n, args) => {
                let mut out: Vec<Expr> = Vec::new();
                let mut i: usize = 0;
                while i < args.len()
                    invariant
                        *self == Expr::Call(*n, *args),
                        i <= args.len(),
                        args_model(out@) == args_model(args@.take(i as int)),
                    decreases args.len() - i,
                {
                    proof {
                        let whole = Expr::Call(*n, *args);
                        assert(decreases_to!(whole => whole->Call_1));
                        assert(decreases_to!(*args => args@));
                        assert(decreases_to!(args@ => args@[i as int]));
                    }
                    let a = args[i].clone();
                    let ghost before = out@;
                    out.push(a);
                    proof {
                        assert(out@.drop_last() =~= before);
                        assert(args@.take(i + 1).drop_last() =~= args@.take(i as int));
                    }
                    i = i + 1;
                }
                assert(args@.take(args.len() as int) =~= args@);
                Expr::Call(n.clone(), out)
            },
            Expr::BinOp(op, l, r) => Expr::BinOp(*op, Box::new((**l).clone()), Box::new((**r).clone())),
            Expr::Neg(x) => Expr::Neg(Box::new((**x).clone())),
        }
    }
}

pub open spec fn expr_model(e: Expr) -> SpecExpr
    decreases e,
{
    match e {
        Expr::Num(t) => SpecExpr::Num(t@),
        Expr::Const(n) => SpecExpr::Const(n@),
        Expr::Call(n, args) => SpecExpr::Call(n@, args_model(args@)),
        Expr::BinOp(op, l, r) => SpecExpr::BinOp(
            op,
            Box::new(expr_model(*l)),
            Box::new(expr_model(*r)),
        ),
        Expr::Neg(x) => SpecExpr::Neg(Box::new(expr_model(*x))),
    }
}

pub open spec fn args_model(args: Seq<Expr>) -> Seq<SpecExpr>
    decreases args,
{
    if args.len() == 0 {
        seq![]
    } else {
        args_model(args.drop_last()).push(expr_model(args.last()))
    }
}

pub proof fn lemma_args_model(args: Seq<Expr>)
    ensures
        args_model(args).len() == args.len(),
        forall|i: int| 0 <= i < args.len() ==> #[trigger] args_model(args)[i] == expr_model(args[i]),
    decreases args.len(),
{
    if args.len() > 0 {
        lemma_args_model(args.drop_last());
    }
}

#[derive(Debug)]
pub struct ParseError {
    pub message: String,
    pub position: usize,
}

impl ParseError {
    pub fn new(message: String, position: usize) -> (r: Self)
        ensures
            r.message@ == message@,
            r.position == position,
    {
        ParseError { message, position }
    }

    pub open spec fn model(&self) -> SpecParseError {
        perr(self.message@, self.position as int)
    }
}

/// The outcome `r` (with the parser stopped at `pos`) is the one `expected` states.
pub open spec fn expr_outcome(r: Result<Expr, ParseError>, pos: usize, expected: ExprResult) -> bool {
    match (expected, r) {
        (Ok((e, p)), Ok(x)) => expr_model(x) == e && pos == p,
        (Err(pe), Err(x)) => x.model() == pe,
        _ => false,
    }
}

pub open spec fn args_outcome(
    r: Result<Vec<Expr>, ParseError>,
    pos: usize,
    expected: ArgsResult,
) -> bool {
    match (expected, r) {
        (Ok((a, p)), Ok(x)) => args_model(x@) == a && pos == p,
        (Err(pe), Err(x)) => x.model() == pe,
        _ => false,
    }
}

pub open spec fn parse_outcome(
    r: Result<Expr, ParseError>,
    expected: Result<SpecExpr, SpecParseError>,
) -> bool {
    match (expected, r) {
        (Ok(e), Ok(x)) => expr_model(x) == e,
        (Err(pe), Err(x)) => x.model() == pe,
        _ => false,
    }
}

fn message(prefix: &str, middle: &str, suffix: &str) -> (r: String)
    ensures
        r@ == prefix@ + middle@ + suffix@,
{
    let mut r = String::from_str(prefix);
    r.append(middle);
    r.append(suffix);
    r
}

/// Reads an expression from the bytes of the input; `pos` is where it is.
pub struct Parser<'a> {
    pub src: &'a [u8],
    pub pos: usize,
}

impl<'a> Parser<'a> {
    pub fn new(input: &'a str) -> (r: Self)
        ensures
            r.src@ == input.spec_bytes(),
            r.pos == 0,
    {
        Parser { src: input.as_bytes(), pos: 0 }
    }

    pub open spec fn wf(&self) -> bool {
        &&& self.pos <= self.src@.len()
        &&& self.src@.len() == self.src.len()
    }

    /// Moves past whitespace.
    pub fn skip_ws(&mut self)
        requires
            old(self).wf(),
        ensures
            final(self).src == old(self).src,
            final(self).wf(),
            final(self).pos == ws_end(old(self).src@, old(self).pos as int),
    {
        let ghost p0 = old(self).pos as int;
        proof {
            lemma_ws_end(self.src@, p0);
        }
        while self.pos < self.src.len() && space(self.src[self.pos])
            invariant
                self.src == old(self).src,
                self.pos <= self.src@.len(),
                ws_end(self.src@, self.pos as int) == ws_end(self.src@, p0),
            decreases self.src@.len() - self.pos,
        {
            self.pos = self.pos + 1;
        }
    }

    /// The next byte after whitespace, which is moved past.
    pub fn peek(&mut self) -> (r: Option<u8>)
        requires
            old(self).wf(),
        ensures
            final(self).src == old(self).src,
            final(self).pos == ws_end(old(self).src@, old(self).pos as int),
            final(self).wf(),
            r is Some <==> final(self).pos < final(self).src@.len(),
            r == (if final(self).pos < final(self).src@.len() {
                Some(final(self).src@[final(self).pos as int])
            } else {
                None
            }),
    {
        proof {
            lemma_ws_end(self.src@, self.pos as int);
        }
        self.skip_ws();
        if self.pos < self.src.len() {
            Some(self.src[self.pos])
        } else {
            None
        }
    }

    /// Moves past whitespace and then past `b` if it comes next.
    pub fn eat(&mut self, b: u8) -> (r: bool)
        requires
            old(self).wf(),
        ensures
            final(self).src == old(self).src,
            final(self).wf(),
            r == byte_is(old(self).src@, ws_end(old(self).src@, old(self).pos as int), b),
            final(self).pos == ws_end(old(self).src@, old(self).pos as int) + if r {
                1int
            } else {
                0int
            },
    {
        proof {
            lemma_ws_end(self.src@, self.pos as int);
        }
        self.skip_ws();
        if self.pos < self.src.len() && self.src[self.pos] == b {
            self.pos = self.pos + 1;
            true
        } else {
            false
        }
    }

    /// Reads the identifier that starts here.
    pub fn parse_ident(&mut self) -> (r: String)
        requires
            old(self).wf(),
        ensures
            final(self).src == old(self).src,
            final(self).pos == ident_end(old(self).src@, old(self).pos as int),
            final(self).wf(),
            r@ == chars_of(old(self).src@.subrange(old(self).pos as int, final(self).pos as int)),
    {
        let start = self.pos;
        proof {
            lemma_ident_end(self.src@, start as int);
        }
        while self.pos < self.src.len() && ident_continue(self.src[self.pos])
            invariant
                self.src == old(self).src,
                start <= self.pos <= self.src@.len(),
                ident_end(self.src@, self.pos as int) == ident_end(self.src@, start as int),
            decreases self.src@.len() - self.pos,
        {
            self.pos = self.pos + 1;
        }
        text_of(self.src, start, self.pos)
    }

    /// Reads the number that starts here.
    pub fn parse_number(&mut self) -> (r: Result<Expr, ParseError>)
        requires
            old(self).wf(),
        ensures
            final(self).src == old(self).src,
            final(self).wf(),
            final(self).pos == number_end(old(self).src@, old(self).pos as int, false),
            expr_outcome(r, final(self).pos, spec_number(old(self).src@, old(self).pos as int)),
    {
        let ghost s = old(self).src@;
        let ghost src0 = old(self).src;
        let start = self.pos;
        proof {
            lemma_number_end(s, start as int, false);
        }
        while self.pos < self.src.len()
            invariant_except_break
                self.src == src0,
                self.src@ == s,
                old(self).src == src0,
                old(self).pos == start,
                start <= self.pos <= s.len(),
                number_end(s, self.pos as int, false) == number_end(s, start as int, false),
            ensures
                self.src == src0,
                self.src@ == s,
                old(self).src == src0,
                old(self).pos == start,
                start <= self.pos <= s.len(),
                self.pos == number_end(s, start as int, false),
            decreases s.len() - self.pos,
        {
            let ghost before = self.pos;
            let b = self.src[self.pos];
            if digit(b) || b == 0x2Eu8 {
                self.pos = self.pos + 1;
            } else if (b == 0x65u8 || b == 0x45u8) && self.pos + 1 < self.src.len() && (digit(
                self.src[self.pos + 1],
            ) || self.src[self.pos + 1] == 0x2Bu8 || self.src[self.pos + 1] == 0x2Du8) {
                self.pos = self.pos + 2;
                while self.pos < self.src.len() && digit(self.src[self.pos])
                    invariant
                        self.src == src0,
                        self.src@ == s,
                        old(self).src == src0,
                        old(self).pos == start,
                        start <= self.pos <= s.len(),
                        number_end(s, self.pos as int, true) == number_end(s, start as int, false),
                        before < self.pos,
                    decreases s.len() - self.pos,
                {
                    self.pos = self.pos + 1;
                }
            } else {
                break;
            }
        }
        let text = text_of(self.src, start, self.pos);
        if float_literal(self.src, start, self.pos) {
            Ok(Expr::Num(text))
        } else {
            Err(ParseError::new(message("invalid number '", text.as_str(), "'"), start))
        }
    }

    /// `expr = term (('+' | '-') term)*`
    pub fn parse_expr(&mut self) -> (r: Result<Expr, ParseError>)
        requires
            old(self).wf(),
        ensures
            final(self).src == old(self).src,
            final(self).wf(),
            r is Ok ==> old(self).pos < final(self).pos,
            expr_outcome(r, final(self).pos, spec_expr(old(self).src@, old(self).pos as int)),
        decreases old(self).src@.len() - old(self).pos, 6int,
    {
        let ghost s = old(self).src@;
        let ghost src0 = old(self).src;
        let ghost p0 = old(self).pos as int;
        let mut lhs = match self.parse_term() {
            Ok(e) => e,
            Err(e) => {
                return Err(e);
            },
        };
        loop
            invariant_except_break
                self.src == src0,
                self.src@ == s,
                old(self).src == src0,
                old(self).pos == p0,
                self.wf(),
                p0 < self.pos,
                spec_chain(s, expr_model(lhs), self.pos as int, true) == spec_expr(s, p0),
            ensures
                self.src == src0,
                self.src@ == s,
                old(self).src == src0,
                old(self).pos == p0,
                self.wf(),
                p0 < self.pos,
                spec_expr(s, p0) == Ok::<(SpecExpr, int), SpecParseError>((expr_model(lhs), self.pos as int)),
            decreases s.len() - self.pos,
        {
            let ghost p1 = self.pos as int;
            proof {
                lemma_ws_end(s, p1);
            }
            let op = match self.peek() {
                Some(c) => additive(c),
                None => None,
            };
            match op {
                None => {
                    break;
                },
                Some(op) => {
                    self.pos = self.pos + 1;
                    let rhs = match self.parse_term() {
                        Ok(e) => e,
                        Err(e) => {
                            return Err(e);
                        },
                    };
                    lhs = Expr::BinOp(op, Box::new(lhs), Box::new(rhs));
                },
            }
        }
        Ok(lhs)
    }

    /// `term = factor (('*' | '/') factor)*`
    pub fn parse_term(&mut self) -> (r: Result<Expr, ParseError>)
        requires
            old(self).wf(),
        ensures
            final(self).src == old(self).src,
            final(self).wf(),
            r is Ok ==> old(self).pos < final(self).pos,
            expr_outcome(r, final(self).pos, spec_term(old(self).src@, old(self).pos as int)),
        decreases old(self).src@.len() - old(self).pos, 5int,
    {
        let ghost s = old(self).src@;
        let ghost src0 = old(self).src;
        let ghost p0 = old(self).pos as int;
        let mut lhs = match self.parse_factor() {
            Ok(e) => e,
            Err(e) => {
                return Err(e);
            },
        };
        loop
            invariant_except_break
                self.src == src0,
                self.src@ == s,
                old(self).src == src0,
                old(self).pos == p0,
                self.wf(),
                p0 < self.pos,
                spec_chain(s, expr_model(lhs), self.pos as int, false) == spec_term(s, p0),
            ensures
                self.src == src0,
                self.src@ == s,
                old(self).src == src0,
                old(self).pos == p0,
                self.wf(),
                p0 < self.pos,
                spec_term(s, p0) == Ok::<(SpecExpr, int), SpecParseError>((expr_model(lhs), self.pos as int)),
            decreases s.len() - self.pos,
        {
            let ghost p1 = self.pos as int;
            proof {
                lemma_ws_end(s, p1);
            }
            let op = match self.peek() {
                Some(c) => multiplicative(c),
                None => None,
            };
            match op {
                None => {
                    break;
                },
                Some(op) => {
                    self.pos = self.pos + 1;
                    let rhs = match self.parse_factor() {
                        Ok(e) => e,
                        Err(e) => {
                            return Err(e);
                        },
                    };
                    lhs = Expr::BinOp(op, Box::new(lhs), Box::new(rhs));
                },
            }
        }
        Ok(lhs)
    }

    /// `factor = unary ('^' factor)?`
    pub fn parse_factor(&mut self) -> (r: Result<Expr, ParseError>)
        requires
            old(self).wf(),
        ensures
            final(self).src == old(self).src,
            final(self).wf(),
            r is Ok ==> old(self).pos < final(self).pos,
            expr_outcome(r, final(self).pos, spec_factor(old(self).src@, old(self).pos as int)),
        decreases old(self).src@.len() - old(self).pos, 4int,
    {
        let ghost s = old(self).src@;
        let ghost src0 = old(self).src;
        let ghost p0 = old(self).pos as int;
        let lhs = match self.parse_unary() {
            Ok(e) => e,
            Err(e) => {
                return Err(e);
            },
        };
        proof {
            lemma_ws_end(s, self.pos as int);
        }
        let caret = match self.peek() {
            Some(c) => c == 0x5Eu8,
            None => false,
        };
        if caret {
            self.pos = self.pos + 1;
            let rhs = match self.parse_factor() {
                Ok(e) => e,
                Err(e) => {
                    return Err(e);
                },
            };
            return Ok(Expr::BinOp(BinOp::Pow, Box::new(lhs), Box::new(rhs)));
        }
        Ok(lhs)
    }

    /// `unary = '-' unary | atom`
    pub fn parse_unary(&mut self) -> (r: Result<Expr, ParseError>)
        requires
            old(self).wf(),
        ensures
            final(self).src == old(self).src,
            final(self).wf(),
            r is Ok ==> old(self).pos < final(self).pos,
            expr_outcome(r, final(self).pos, spec_unary(old(self).src@, old(self).pos as int)),
        decreases old(self).src@.len() - old(self).pos, 3int,
    {
        let ghost s = old(self).src@;
        let ghost src0 = old(self).src;
        let ghost p0 = old(self).pos as int;
        proof {
            lemma_ws_end(s, p0);
        }
        let minus = match self.peek() {
            Some(c) => c == 0x2Du8,
            None => false,
        };
        if minus {
            self.pos = self.pos + 1;
            let inner = match self.parse_unary() {
                Ok(e) => e,
                Err(e) => {
                    return Err(e);
                },
            };
            return Ok(Expr::Neg(Box::new(inner)));
        }
        assert(spec_atom(s, self.pos as int) == spec_atom(s, p0));
        self.parse_atom()
    }

    /// `atom = number | ident | ident '(' args? ')' | '(' expr ')'`
    pub fn parse_atom(&mut self) -> (r: Result<Expr, ParseError>)
        requires
            old(self).wf(),
        ensures
            final(self).src == old(self).src,
            final(self).wf(),
            r is Ok ==> old(self).pos < final(self).pos,
            expr_outcome(r, final(self).pos, spec_atom(old(self).src@, old(self).pos as int)),
        decreases old(self).src@.len() - old(self).pos, 2int,
    {
        let ghost s = old(self).src@;
        let ghost p0 = old(self).pos as int;
        proof {
            lemma_ws_end(s, p0);
        }
        self.skip_ws();
        let start = self.pos;
        if start >= self.src.len() {
            return Err(ParseError::new(String::from_str("unexpected end of expression"), start));
        }
        let b = self.src[start];
        if b == 0x28u8 {
            return self.parse_group();
        }
        if digit(b) || b == 0x2Eu8 {
            proof {
                lemma_number_end(s, start + 1, false);
            }
            return self.parse_number();
        }
        if ident_start(b) {
            return self.parse_named();
        }
        let mut shown = String::new();
        push_char(&mut shown, b as char);
        Err(ParseError::new(message("unexpected character '", shown.as_str(), "'"), start))
    }

    /// `'(' expr ')'`, with the `(` here.
    pub fn parse_group(&mut self) -> (r: Result<Expr, ParseError>)
        requires
            old(self).wf(),
            old(self).pos < old(self).src@.len(),
        ensures
            final(self).src == old(self).src,
            final(self).wf(),
            r is Ok ==> old(self).pos < final(self).pos,
            expr_outcome(r, final(self).pos, spec_group(old(self).src@, old(self).pos as int)),
        decreases old(self).src@.len() - old(self).pos, 1int,
    {
        let ghost s = old(self).src@;
        self.pos = self.pos + 1;
        let inner = match self.parse_expr() {
            Ok(e) => e,
            Err(e) => {
                return Err(e);
            },
        };
        proof {
            lemma_ws_end(s, self.pos as int);
        }
        if !self.eat(0x29u8) {
            return Err(ParseError::new(String::from_str("expected ')'"), self.pos));
        }
        Ok(inner)
    }

    /// `ident | ident '(' args? ')'`, with the identifier starting here.
    pub fn parse_named(&mut self) -> (r: Result<Expr, ParseError>)
        requires
            old(self).wf(),
            old(self).pos < old(self).src@.len(),
            is_ident_continue(old(self).src@[old(self).pos as int]),
        ensures
            final(self).src == old(self).src,
            final(self).wf(),
            r is Ok ==> old(self).pos < final(self).pos,
            expr_outcome(r, final(self).pos, spec_named(old(self).src@, old(self).pos as int)),
        decreases old(self).src@.len() - old(self).pos, 1int,
    {
        let ghost s = old(self).src@;
        let ghost p0 = old(self).pos as int;
        proof {
            lemma_ident_end(s, p0);
        }
        let name = self.parse_ident();
        proof {
            lemma_ws_end(s, self.pos as int);
        }
        let open = match self.peek() {
            Some(c) => c == 0x28u8,
            None => false,
        };
        if open {
            self.pos = self.pos + 1;
            let args = match self.parse_args() {
                Ok(a) => a,
                Err(e) => {
                    return Err(e);
                },
            };
            proof {
                lemma_ws_end(s, self.pos as int);
            }
            if !self.eat(0x29u8) {
                return Err(
                    ParseError::new(message("expected ')' after ", name.as_str(), "(...)"), self.pos),
                );
            }
            return Ok(Expr::Call(name, args));
        }
        Ok(Expr::Const(name))
    }

    /// `args?` after a call's `(`.
    pub fn parse_args(&mut self) -> (r: Result<Vec<Expr>, ParseError>)
        requires
            old(self).wf(),
        ensures
            final(self).src == old(self).src,
            final(self).wf(),
            r is Ok ==> old(self).pos <= final(self).pos,
            args_outcome(r, final(self).pos, spec_args(old(self).src@, old(self).pos as int)),
        decreases old(self).src@.len() - old(self).pos, 7int,
    {
        let ghost s = old(self).src@;
        let ghost src0 = old(self).src;
        let ghost p0 = old(self).pos as int;
        proof {
            lemma_ws_end(s, p0);
        }
        let mut args: Vec<Expr> = Vec::new();
        let close = match self.peek() {
            Some(c) => c == 0x29u8,
            None => false,
        };
        if close {
            proof {
                assert(args_model(args@) =~= seq![]);
            }
            return Ok(args);
        }
        let first = match self.parse_expr() {
            Ok(e) => e,
            Err(e) => {
                return Err(e);
            },
        };
        let ghost fm = expr_model(first);
        args.push(first);
        proof {
            assert(args@.drop_last() =~= Seq::<Expr>::empty());
            assert(args_model(Seq::<Expr>::empty()) =~= Seq::<SpecExpr>::empty());
            assert(args_model(args@) =~= seq![fm]);
        }
        loop
            invariant_except_break
                self.src == src0,
                self.src@ == s,
                old(self).src == src0,
                old(self).pos == p0,
                self.wf(),
                p0 < self.pos,
                spec_args_tail(s, args_model(args@), self.pos as int) == spec_args(s, p0),
            ensures
                self.src == src0,
                self.src@ == s,
                old(self).src == src0,
                old(self).pos == p0,
                self.wf(),
                p0 < self.pos,
                spec_args(s, p0) == Ok::<(Seq<SpecExpr>, int), SpecParseError>((args_model(args@), self.pos as int)),
            decreases s.len() - self.pos,
        {
            let ghost p1 = self.pos as int;
            proof {
                lemma_ws_end(s, p1);
            }
            if !self.eat(0x2Cu8) {
                break;
            }
            let next = match self.parse_expr() {
                Ok(e) => e,
                Err(e) => {
                    return Err(e);
                },
            };
            let ghost before = args@;
            args.push(next);
            proof {
                assert(args@.drop_last() =~= before);
            }
        }
        Ok(args)
    }
}

fn additive(c: u8) -> (r: Option<BinOp>)
    ensures
        r == additive_op(c),
{
    if c == 0x2Bu8 {
        Some(BinOp::Add)
    } else if c == 0x2Du8 {
        Some(BinOp::Sub)
    } else {
        None
    }
}

fn multiplicative(c: u8) -> (r: Option<BinOp>)
    ensures
        r == multiplicative_op(c),
{
    if c == 0x2Au8 {
        Some(BinOp::Mul)
    } else if c == 0x2Fu8 {
        Some(BinOp::Div)
    } else {
        None
    }
}

/// Reads `input` as one expression of the calculator language, followed by
/// nothing but whitespace; the tree, or the error, is the one that
/// [`spec_parse`] gives for the input's bytes.
pub fn parse(input: &str) -> (r: Result<Expr, ParseError>)
    ensures
        parse_outcome(r, spec_parse(input.spec_bytes())),
        r matches Err(e) ==> e.position <= input.spec_bytes().len(),
        (forall|i: int|
            0 <= i < input.spec_bytes().len() ==> is_space(#[trigger] input.spec_bytes()[i]))
            ==> (r matches Err(e) && e.message@ == "unexpected end of expression"@ && e.position
            == input.spec_bytes().len()),
{
    proof {
        lemma_parse_error_position(input.spec_bytes());
        if forall|i: int|
            0 <= i < input.spec_bytes().len() ==> is_space(#[trigger] input.spec_bytes()[i]) {
            lemma_blank_input(input.spec_bytes());
        }
    }
    let mut p = Parser::new(input);
    let expr = match p.parse_expr() {
        Ok(e) => e,
        Err(e) => {
            return Err(e);
        },
    };
    proof {
        vstd::utf8::encode_utf8_valid_utf8(input@);
        lemma_expr_advances(p.src@, 0);
        lemma_ws_end_after_ascii(p.src@, p.pos as int);
    }
    p.skip_ws();
    if p.pos < p.src.len() {
        proof {
            lemma_utf8_suffix(p.src@, p.pos as int);
        }
        let trailing = utf8_lossy(&p.src[p.pos..p.src.len()]);
        return Err(ParseError::new(message("unexpected trailing input '", trailing.as_str(), "'"), p.pos));
    }
    Ok(expr)
}

} // verus!
