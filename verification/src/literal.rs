//! Number literals: which byte runs are decimal literals.

use vstd::prelude::*;
use crate::bytes::{digit, is_digit};
use crate::grammar::{all_digits, is_exponent, is_float_literal, is_mantissa};

verus! {

proof fn lemma_mantissa_bytes(m: Seq<u8>)
    requires
        is_mantissa(m),
    ensures
        forall|j: int| 0 <= j < m.len() ==> is_digit(#[trigger] m[j]) || m[j] == 0x2Eu8,
{
    if !(m.len() > 0 && all_digits(m)) {
        let k = choose|k: int|
            0 <= k < m.len() && m[k] == 0x2Eu8 && m.len() >= 2 && all_digits(m.subrange(0, k))
                && all_digits(#[trigger] m.subrange(k + 1, m.len() as int));
        assert forall|j: int| 0 <= j < m.len() implies is_digit(#[trigger] m[j]) || m[j] == 0x2Eu8 by {
            if j < k {
                assert(m.subrange(0, k)[j] == m[j]);
            } else if j > k {
                assert(m.subrange(k + 1, m.len() as int)[j - k - 1] == m[j]);
            }
        }
    }
}

/// Whether `src[a..b]` holds digits only.
fn digits_only(src: &[u8], a: usize, b: usize) -> (r: bool)
    requires
        a <= b <= src@.len(),
    ensures
        r == all_digits(src@.subrange(a as int, b as int)),
{
    let mut i = a;
    while i < b
        invariant
            a <= i <= b <= src@.len(),
            forall|j: int| a <= j < i ==> is_digit(#[trigger] src@[j]),
        decreases b - i,
    {
        if !digit(src[i]) {
            assert(src@.subrange(a as int, b as int)[i - a] == src@[i as int]);
            return false;
        }
        i = i + 1;
    }
    assert forall|j: int| 0 <= j < (b - a) implies is_digit(
        #[trigger] src@.subrange(a as int, b as int)[j],
    ) by {
        assert(src@.subrange(a as int, b as int)[j] == src@[a + j]);
    }
    true
}

/// First position in `src[a..b]` that holds `x` or `y`, or `b` if none does.
fn find_either(src: &[u8], a: usize, b: usize, x: u8, y: u8) -> (r: usize)
    requires
        a <= b <= src@.len(),
    ensures
        a <= r <= b,
        forall|j: int| a <= j < r ==> #[trigger] src@[j] != x && src@[j] != y,
        r < b ==> src@[r as int] == x || src@[r as int] == y,
{
    let mut i = a;
    while i < b
        invariant
            a <= i <= b <= src@.len(),
            forall|j: int| a <= j < i ==> #[trigger] src@[j] != x && src@[j] != y,
        decreases b - i,
    {
        if src[i] == x || src[i] == y {
            return i;
        }
        i = i + 1;
    }
    b
}

fn mantissa_ok(src: &[u8], a: usize, b: usize) -> (r: bool)
    requires
        a <= b <= src@.len(),
    ensures
        r == is_mantissa(src@.subrange(a as int, b as int)),
{
    let ghost m = src@.subrange(a as int, b as int);
    let k = find_either(src, a, b, 0x2Eu8, 0x2Eu8);
    if k == b {
        let r = b > a && digits_only(src, a, b);
        proof {
            if is_mantissa(m) && !(m.len() > 0 && all_digits(m)) {
                let k2 = choose|k2: int|
                    0 <= k2 < m.len() && m[k2] == 0x2Eu8 && m.len() >= 2 && all_digits(
                        m.subrange(0, k2),
                    ) && all_digits(#[trigger] m.subrange(k2 + 1, m.len() as int));
                assert(src@[a + k2] == m[k2]);
            }
        }
        r
    } else {
        let r = b - a >= 2 && digits_only(src, a, k) && digits_only(src, k + 1, b);
        let ghost kk = (k - a) as int;
        proof {
            assert(m.subrange(0, kk) =~= src@.subrange(a as int, k as int));
            assert(m.subrange(kk + 1, m.len() as int) =~= src@.subrange(k + 1, b as int));
            assert(m[kk] == 0x2Eu8);
            if r {
                assert(is_mantissa(m));
            }
            if is_mantissa(m) {
                lemma_mantissa_bytes(m);
                if !(m.len() > 0 && all_digits(m)) {
                    let k2 = choose|k2: int|
                        0 <= k2 < m.len() && m[k2] == 0x2Eu8 && m.len() >= 2 && all_digits(
                            m.subrange(0, k2),
                        ) && all_digits(#[trigger] m.subrange(k2 + 1, m.len() as int));
                    if k2 > kk {
                        assert(m.subrange(0, k2)[kk] == m[kk]);
                    } else if k2 < kk {
                        assert(src@[a + k2] == m[k2]);
                    }
                    assert(k2 == kk);
                } else {
                    assert(is_digit(m[kk]));
                }
            }
        }
        r
    }
}

fn exponent_ok(src: &[u8], a: usize, b: usize) -> (r: bool)
    requires
        a <= b <= src@.len(),
    ensures
        r == is_exponent(src@.subrange(a as int, b as int)),
{
    let ghost x = src@.subrange(a as int, b as int);
    if a == b {
        return false;
    }
    if src[a] == 0x2Bu8 || src[a] == 0x2Du8 {
        let r = b - a >= 2 && digits_only(src, a + 1, b);
        proof {
            assert(x.subrange(1, x.len() as int) =~= src@.subrange(a + 1, b as int));
            assert(x[0] == src@[a as int]);
            if x.len() > 0 && all_digits(x) {
                assert(is_digit(x[0]));
            }
        }
        r
    } else {
        let r = digits_only(src, a, b);
        proof {
            assert(x[0] == src@[a as int]);
        }
        r
    }
}

/// Whether `src[a..b]` is a decimal literal ([`is_float_literal`]).
pub fn float_literal(src: &[u8], a: usize, b: usize) -> (r: bool)
    requires
        a <= b <= src@.len(),
    ensures
        r == is_float_literal(src@.subrange(a as int, b as int)),
{
    let ghost t = src@.subrange(a as int, b as int);
    let i = find_either(src, a, b, 0x65u8, 0x45u8);
    if i == b {
        let r = mantissa_ok(src, a, b);
        proof {
            if is_float_literal(t) && !is_mantissa(t) {
                let i2 = choose|i2: int|
                    0 <= i2 < t.len() && (t[i2] == 0x65u8 || t[i2] == 0x45u8) && is_mantissa(
                        #[trigger] t.subrange(0, i2),
                    ) && is_exponent(t.subrange(i2 + 1, t.len() as int));
                assert(src@[a + i2] == t[i2]);
            }
        }
        r
    } else {
        let r = mantissa_ok(src, a, i) && exponent_ok(src, i + 1, b);
        let ghost ii = (i - a) as int;
        proof {
            assert(t.subrange(0, ii) =~= src@.subrange(a as int, i as int));
            assert(t.subrange(ii + 1, t.len() as int) =~= src@.subrange(i + 1, b as int));
            assert(t[ii] == src@[i as int]);
            if is_float_literal(t) {
                if is_mantissa(t) {
                    lemma_mantissa_bytes(t);
                    assert(false);
                } else {
                    let i2 = choose|i2: int|
                        0 <= i2 < t.len() && (t[i2] == 0x65u8 || t[i2] == 0x45u8) && is_mantissa(
                            #[trigger] t.subrange(0, i2),
                        ) && is_exponent(t.subrange(i2 + 1, t.len() as int));
                    if i2 < ii {
                        assert(src@[a + i2] == t[i2]);
                    } else if i2 > ii {
                        lemma_mantissa_bytes(t.subrange(0, i2));
                        assert(t.subrange(0, i2)[ii] == t[ii]);
                    }
                }
            }
        }
        r
    }
}

} // verus!
