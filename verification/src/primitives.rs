//! The calculator's primitives and the checks they make before computing.
//!
//! Every primitive answers with the same shape: a result, or a structured
//! error with a code (`invalid_input`, `divide_by_zero`, `domain_error`,
//! `unknown_constant`) and a message. Which error, if any, is decided here
//! from the operands' bit patterns; the arithmetic itself is floating point.

use vstd::prelude::*;
use vstd::string::*;
use crate::ieee::{
    finite, is_finite, is_negative, is_nonpositive, is_one, is_zero, negative, nonpositive, one,
    zero,
};

verus! {

/// The primitives that take numbers.
#[derive(Debug, Clone, Copy, PartialEq, Eq, Structural)]
pub enum Primitive {
    Add,
    Subtract,
    Multiply,
    Divide,
    Negate,
    Power,
    Sqrt,
    Log,
}

pub open spec fn primitive_name(p: Primitive) -> Seq<char> {
    match p {
        Primitive::Add => "add"@,
        Primitive::Subtract => "subtract"@,
        Primitive::Multiply => "multiply"@,
        Primitive::Divide => "divide"@,
        Primitive::Negate => "negate"@,
        Primitive::Power => "power"@,
        Primitive::Sqrt => "sqrt"@,
        Primitive::Log => "log"@,
    }
}

pub open spec fn primitive_arity(p: Primitive) -> nat {
    match p {
        Primitive::Negate | Primitive::Sqrt => 1,
        _ => 2,
    }
}

impl Primitive {
    /// The tool name, which is also the `op` of its results.
    pub fn name(self) -> (r: &'static str)
        ensures
            r@ == primitive_name(self),
    {
        match self {
            Primitive::Add => "add",
            Primitive::Subtract => "subtract",
            Primitive::Multiply => "multiply",
            Primitive::Divide => "divide",
            Primitive::Negate => "negate",
            Primitive::Power => "power",
            Primitive::Sqrt => "sqrt",
            Primitive::Log => "log",
        }
    }

    pub fn arity(self) -> (r: usize)
        ensures
            r == primitive_arity(self),
    {
        match self {
            Primitive::Negate | Primitive::Sqrt => 1,
            _ => 2,
        }
    }
}

#[derive(Debug, Clone, Copy, PartialEq, Eq, Structural)]
pub enum ErrorCode {
    InvalidInput,
    DivideByZero,
    DomainError,
    UnknownConstant,
}

pub open spec fn code_text(c: ErrorCode) -> Seq<char> {
    match c {
        ErrorCode::InvalidInput => "invalid_input"@,
        ErrorCode::DivideByZero => "divide_by_zero"@,
        ErrorCode::DomainError => "domain_error"@,
        ErrorCode::UnknownConstant => "unknown_constant"@,
    }
}

impl ErrorCode {
    /// The code as results carry it.
    pub fn as_str(self) -> (r: &'static str)
        ensures
            r@ == code_text(self),
    {
        match self {
            ErrorCode::InvalidInput => "invalid_input",
            ErrorCode::DivideByZero => "divide_by_zero",
            ErrorCode::DomainError => "domain_error",
            ErrorCode::UnknownConstant => "unknown_constant",
        }
    }
}

/// Why a primitive refuses its operands.
#[derive(Debug)]
pub struct Failure {
    pub code: ErrorCode,
    pub message: String,
}

/// What a check finds: `None` when the primitive may compute, else the code
/// and message of its error.
pub open spec fn found(r: Option<Failure>) -> Option<(ErrorCode, Seq<char>)> {
    match r {
        Some(f) => Some((f.code, f.message@)),
        None => None,
    }
}

pub open spec fn fail(code: ErrorCode, message: Seq<char>) -> Option<(ErrorCode, Seq<char>)> {
    Some((code, message))
}

/// Operands of a two-operand primitive must both be finite.
pub open spec fn binary_check(op: Primitive, a: u64, b: u64) -> Option<(ErrorCode, Seq<char>)> {
    if !is_finite(a) || !is_finite(b) {
        fail(ErrorCode::InvalidInput, primitive_name(op) + " requires finite numeric inputs."@)
    } else {
        None
    }
}

/// The operand of a one-operand primitive must be finite.
pub open spec fn unary_check(op: Primitive, x: u64) -> Option<(ErrorCode, Seq<char>)> {
    if !is_finite(x) {
        fail(ErrorCode::InvalidInput, primitive_name(op) + " requires a finite numeric input."@)
    } else {
        None
    }
}

pub open spec fn divide_check(a: u64, b: u64) -> Option<(ErrorCode, Seq<char>)> {
    if binary_check(Primitive::Divide, a, b) is Some {
        binary_check(Primitive::Divide, a, b)
    } else if is_zero(b) {
        fail(ErrorCode::DivideByZero, "Cannot divide by zero."@)
    } else {
        None
    }
}

pub open spec fn power_result_check(r: u64) -> Option<(ErrorCode, Seq<char>)> {
    if !is_finite(r) {
        fail(
            ErrorCode::DomainError,
            "power produced a non-finite result (overflow or undefined)."@,
        )
    } else {
        None
    }
}

pub open spec fn sqrt_check(x: u64) -> Option<(ErrorCode, Seq<char>)> {
    if unary_check(Primitive::Sqrt, x) is Some {
        unary_check(Primitive::Sqrt, x)
    } else if is_negative(x) {
        fail(ErrorCode::DomainError, "sqrt is undefined for negative numbers in the reals."@)
    } else {
        None
    }
}

pub open spec fn log_check(x: u64, base: u64) -> Option<(ErrorCode, Seq<char>)> {
    if binary_check(Primitive::Log, x, base) is Some {
        binary_check(Primitive::Log, x, base)
    } else if is_nonpositive(x) {
        fail(ErrorCode::DomainError, "log argument must be positive."@)
    } else if is_nonpositive(base) || is_one(base) {
        fail(ErrorCode::DomainError, "log base must be positive and not equal to 1."@)
    } else {
        None
    }
}

fn failure(code: ErrorCode, prefix: &str, suffix: &str) -> (r: Option<Failure>)
    ensures
        found(r) == fail(code, prefix@ + suffix@),
{
    let mut message = String::from_str(prefix);
    message.append(suffix);
    Some(Failure { code, message })
}

fn fixed_failure(code: ErrorCode, message: &str) -> (r: Option<Failure>)
    ensures
        found(r) == fail(code, message@),
{
    Some(Failure { code, message: String::from_str(message) })
}

/// Checks the operands of `add`, `subtract`, `multiply`, `divide`, `power`
/// and `log`: both must be finite.
pub fn validate_binary(op: Primitive, a: u64, b: u64) -> (r: Option<Failure>)
    ensures
        found(r) == binary_check(op, a, b),
{
    if !finite(a) || !finite(b) {
        return failure(ErrorCode::InvalidInput, op.name(), " requires finite numeric inputs.");
    }
    None
}

/// Checks the operand of `negate` and `sqrt`: it must be finite.
pub fn validate_unary(op: Primitive, x: u64) -> (r: Option<Failure>)
    ensures
        found(r) == unary_check(op, x),
{
    if !finite(x) {
        return failure(ErrorCode::InvalidInput, op.name(), " requires a finite numeric input.");
    }
    None
}

/// `divide(a, b)` refuses non-finite operands, then a zero divisor.
pub fn check_divide(a: u64, b: u64) -> (r: Option<Failure>)
    ensures
        found(r) == divide_check(a, b),
{
    let v = validate_binary(Primitive::Divide, a, b);
    if v.is_some() {
        return v;
    }
    if zero(b) {
        return fixed_failure(ErrorCode::DivideByZero, "Cannot divide by zero.");
    }
    None
}

/// `power` refuses a result that is infinite or NaN (overflow, `0^-1`,
/// `(-1)^0.5`, ...).
pub fn check_power_result(r: u64) -> (f: Option<Failure>)
    ensures
        found(f) == power_result_check(r),
{
    if !finite(r) {
        return fixed_failure(ErrorCode::DomainError, "power produced a non-finite result (overflow or undefined).");
    }
    None
}

/// `sqrt(x)` refuses a non-finite `x`, then a negative one.
pub fn check_sqrt(x: u64) -> (r: Option<Failure>)
    ensures
        found(r) == sqrt_check(x),
{
    let v = validate_unary(Primitive::Sqrt, x);
    if v.is_some() {
        return v;
    }
    if negative(x) {
        return fixed_failure(ErrorCode::DomainError, "sqrt is undefined for negative numbers in the reals.");
    }
    None
}

/// `log(x, base)` refuses non-finite operands, then `x <= 0`, then
/// `base <= 0` or `base == 1`.
pub fn check_log(x: u64, base: u64) -> (r: Option<Failure>)
    ensures
        found(r) == log_check(x, base),
{
    let v = validate_binary(Primitive::Log, x, base);
    if v.is_some() {
        return v;
    }
    if nonpositive(x) {
        return fixed_failure(ErrorCode::DomainError, "log argument must be positive.");
    }
    if nonpositive(base) || one(base) {
        return fixed_failure(ErrorCode::DomainError, "log base must be positive and not equal to 1.");
    }
    None
}

/// The error code a check found, if any.
pub open spec fn code_of(r: Option<(ErrorCode, Seq<char>)>) -> Option<ErrorCode> {
    match r {
        Some((code, _m)) => Some(code),
        None => None,
    }
}

/// `divide(a, b)` computes exactly when both operands are finite and the
/// divisor is not zero; the dividend matters only through whether it is
/// finite. A zero divisor with finite operands is `divide_by_zero`, and a
/// non-finite operand is `invalid_input`.
pub proof fn law_divide_check(a: u64, b: u64, a2: u64)
    ensures
        divide_check(a, b) is None <==> (is_finite(a) && is_finite(b) && !is_zero(b)),
        is_finite(a) && is_finite(b) && is_zero(b) ==> code_of(divide_check(a, b)) == Some(
            ErrorCode::DivideByZero,
        ),
        !(is_finite(a) && is_finite(b)) ==> code_of(divide_check(a, b)) == Some(
            ErrorCode::InvalidInput,
        ),
        is_finite(a) == is_finite(a2) ==> divide_check(a, b) == divide_check(a2, b),
{
}

/// `log(x, base)` computes exactly when both are finite, `x > 0`,
/// `base > 0` and `base != 1`: every finite positive argument is taken,
/// `1` included. A non-finite operand is `invalid_input`; the others are
/// `domain_error`.
pub proof fn law_log_check(x: u64, base: u64)
    ensures
        log_check(x, base) is None <==> (is_finite(x) && is_finite(base) && !is_nonpositive(x)
            && !is_nonpositive(base) && !is_one(base)),
        !(is_finite(x) && is_finite(base)) ==> code_of(log_check(x, base)) == Some(
            ErrorCode::InvalidInput,
        ),
        is_finite(x) && is_finite(base) && log_check(x, base) is Some ==> code_of(
            log_check(x, base),
        ) == Some(ErrorCode::DomainError),
{
}

/// `power` refuses exactly the results that are not finite (an infinity or
/// NaN); every finite result, `+0.0` and `-0.0` included, is given back.
pub proof fn law_power_result_check(r: u64)
    ensures
        power_result_check(r) is None <==> is_finite(r),
{
}

/// `sqrt(x)` computes exactly when `x` is finite and not below zero
/// (`-0.0` included).
pub proof fn law_sqrt_check(x: u64)
    ensures
        sqrt_check(x) is None <==> (is_finite(x) && !is_negative(x)),
{
}

/// A two-operand primitive computes exactly when both operands are finite,
/// and a one-operand primitive when its operand is; otherwise the error is
/// `invalid_input`, naming the primitive.
pub proof fn law_operands_finite(op: Primitive, a: u64, b: u64)
    ensures
        binary_check(op, a, b) is None <==> (is_finite(a) && is_finite(b)),
        unary_check(op, a) is None <==> is_finite(a),
        binary_check(op, a, b) matches Some((code, m)) ==> code == ErrorCode::InvalidInput
            && m.take(primitive_name(op).len() as int) == primitive_name(op),
        unary_check(op, a) matches Some((code, m)) ==> code == ErrorCode::InvalidInput && m.take(
            primitive_name(op).len() as int,
        ) == primitive_name(op),
{
    let n = primitive_name(op);
    assert((n + " requires finite numeric inputs."@).take(n.len() as int) =~= n);
    assert((n + " requires a finite numeric input."@).take(n.len() as int) =~= n);
}

} // verus!
