//! IEEE 754 binary64 numbers, held as their bit patterns. The calculator's
//! checks on its operands read only these properties of a number.

use vstd::prelude::*;

verus! {

pub open spec fn exponent_field(x: u64) -> u64 {
    (x >> 52u64) & 0x7FFu64
}

pub open spec fn fraction_field(x: u64) -> u64 {
    x & 0xF_FFFF_FFFF_FFFFu64
}

pub open spec fn sign_bit(x: u64) -> bool {
    (x >> 63u64) == 1u64
}

/// Neither infinite nor NaN.
pub open spec fn is_finite(x: u64) -> bool {
    exponent_field(x) != 0x7FFu64
}

pub open spec fn is_nan(x: u64) -> bool {
    exponent_field(x) == 0x7FFu64 && fraction_field(x) != 0
}

/// `+0.0` or `-0.0`, the two values that compare equal to `0.0`.
pub open spec fn is_zero(x: u64) -> bool {
    x & 0x7FFF_FFFF_FFFF_FFFFu64 == 0
}

/// `x < 0.0`.
pub open spec fn is_negative(x: u64) -> bool {
    sign_bit(x) && !is_zero(x) && !is_nan(x)
}

/// `x <= 0.0`.
pub open spec fn is_nonpositive(x: u64) -> bool {
    is_zero(x) || is_negative(x)
}

/// `x == 1.0`.
pub open spec fn is_one(x: u64) -> bool {
    x == 0x3FF0_0000_0000_0000u64
}

pub fn finite(x: u64) -> (r: bool)
    ensures
        r == is_finite(x),
{
    (x >> 52u64) & 0x7FFu64 != 0x7FFu64
}

pub fn nan(x: u64) -> (r: bool)
    ensures
        r == is_nan(x),
{
    (x >> 52u64) & 0x7FFu64 == 0x7FFu64 && x & 0xF_FFFF_FFFF_FFFFu64 != 0
}

pub fn zero(x: u64) -> (r: bool)
    ensures
        r == is_zero(x),
{
    x & 0x7FFF_FFFF_FFFF_FFFFu64 == 0
}

pub fn negative(x: u64) -> (r: bool)
    ensures
        r == is_negative(x),
{
    (x >> 63u64) == 1u64 && !zero(x) && !nan(x)
}

pub fn nonpositive(x: u64) -> (r: bool)
    ensures
        r == is_nonpositive(x),
{
    zero(x) || negative(x)
}

pub fn one(x: u64) -> (r: bool)
    ensures
        r == is_one(x),
{
    x == 0x3FF0_0000_0000_0000u64
}

/// The two zeros are the patterns of `+0.0` and `-0.0`, and a number is
/// finite exactly when its exponent bits are not all set.
pub proof fn law_ieee_patterns(x: u64)
    ensures
        is_zero(x) <==> (x == 0u64 || x == 0x8000_0000_0000_0000u64),
        is_finite(x) <==> (x & 0x7FF0_0000_0000_0000u64) != 0x7FF0_0000_0000_0000u64,
        is_finite(0u64) && is_finite(0x8000_0000_0000_0000u64) && is_finite(0x3FF0_0000_0000_0000u64),
{
    assert(is_zero(x) <==> (x == 0u64 || x == 0x8000_0000_0000_0000u64)) by (bit_vector);
    assert(((x >> 52u64) & 0x7FFu64 != 0x7FFu64) <==> ((x & 0x7FF0_0000_0000_0000u64)
        != 0x7FF0_0000_0000_0000u64)) by (bit_vector);
    assert(((0u64 >> 52u64) & 0x7FFu64) != 0x7FFu64) by (bit_vector);
    assert(((0x8000_0000_0000_0000u64 >> 52u64) & 0x7FFu64) != 0x7FFu64) by (bit_vector);
    assert(((0x3FF0_0000_0000_0000u64 >> 52u64) & 0x7FFu64) != 0x7FFu64) by (bit_vector);
}

} // verus!
