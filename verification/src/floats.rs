//! Double precision numbers by their bit patterns: order, and whether one is a whole number.
//!
//! Nothing here computes with such numbers. The bit pattern of a number tells its sign, its
//! exponent and its fraction, and patterns of the same sign are ordered as the numbers are.

use vstd::arithmetic::power2::pow2;
use vstd::prelude::*;

verus! {

/// The biased exponent of a number.
pub open spec fn exponent(bits: u64) -> int {
    bits as int / 0x10_0000_0000_0000 % 0x800
}

/// The fraction of a number, as an integer.
pub open spec fn fraction(bits: u64) -> int {
    bits as int % 0x10_0000_0000_0000
}

/// Whether a pattern is not a number.
pub open spec fn is_nan(bits: u64) -> bool {
    exponent(bits) == 0x7FF && fraction(bits) != 0
}

/// Whether a number is neither infinite nor undefined.
pub open spec fn is_finite(bits: u64) -> bool {
    exponent(bits) != 0x7FF
}

/// An integer that orders numbers as they are ordered; both zeros are zero.
pub open spec fn order(bits: u64) -> int {
    if bits >= 0x8000_0000_0000_0000 {
        -(bits - 0x8000_0000_0000_0000)
    } else {
        bits as int
    }
}

/// Whether `a` is at least `b`. Nothing compares to what is not a number.
pub open spec fn at_least(a: u64, b: u64) -> bool {
    !is_nan(a) && !is_nan(b) && order(a) >= order(b)
}

/// The smaller of two numbers; the other one if one is not a number.
pub open spec fn smaller(a: u64, b: u64) -> u64 {
    if is_nan(b) {
        a
    } else if is_nan(a) || order(b) < order(a) {
        b
    } else {
        a
    }
}

/// The larger of two numbers; the other one if one is not a number.
pub open spec fn larger(a: u64, b: u64) -> u64 {
    if is_nan(b) {
        a
    } else if is_nan(a) || order(b) > order(a) {
        b
    } else {
        a
    }
}

/// Whether the part after the point is not zero. For what is infinite or undefined, it is not.
pub open spec fn is_fractional(bits: u64) -> bool {
    let e = exponent(bits) - 1023;
    if !is_finite(bits) {
        true
    } else if order(bits) == 0 {
        false
    } else if e < 0 {
        true
    } else if e >= 52 {
        false
    } else {
        fraction(bits) % (pow2((52 - e) as nat) as int) != 0
    }
}

/// Positive infinity.
pub const INFINITY: u64 = 0x7FF0_0000_0000_0000;

/// Negative infinity.
pub const NEG_INFINITY: u64 = 0xFFF0_0000_0000_0000;

fn exponent_of(bits: u64) -> (e: u64)
    ensures
        e == exponent(bits),
        e < 0x800,
{
    bits / 0x10_0000_0000_0000 % 0x800
}

pub fn nan(bits: u64) -> (yes: bool)
    ensures
        yes == is_nan(bits),
{
    exponent_of(bits) == 0x7FF && bits % 0x10_0000_0000_0000 != 0
}

pub fn finite(bits: u64) -> (yes: bool)
    ensures
        yes == is_finite(bits),
{
    exponent_of(bits) != 0x7FF
}

fn ordinal(bits: u64) -> (k: i128)
    ensures
        k == order(bits),
{
    if bits >= 0x8000_0000_0000_0000 {
        -((bits - 0x8000_0000_0000_0000) as i128)
    } else {
        bits as i128
    }
}

/// Whether `a` is at least `b`.
pub fn reaches(a: u64, b: u64) -> (yes: bool)
    ensures
        yes == at_least(a, b),
{
    !nan(a) && !nan(b) && ordinal(a) >= ordinal(b)
}

/// The smaller of two numbers.
pub fn least(a: u64, b: u64) -> (bits: u64)
    ensures
        bits == smaller(a, b),
{
    if nan(b) {
        a
    } else if nan(a) || ordinal(b) < ordinal(a) {
        b
    } else {
        a
    }
}

/// The larger of two numbers.
pub fn greatest(a: u64, b: u64) -> (bits: u64)
    ensures
        bits == larger(a, b),
{
    if nan(b) {
        a
    } else if nan(a) || ordinal(b) > ordinal(a) {
        b
    } else {
        a
    }
}

fn two_to(n: u64) -> (p: u64)
    requires
        n <= 52,
    ensures
        p == pow2(n as nat),
        1 <= p <= 0x10_0000_0000_0000,
    decreases n,
{
    if n == 0 {
        proof {
            vstd::arithmetic::power2::lemma2_to64();
        }
        1
    } else {
        proof {
            vstd::arithmetic::power2::lemma_pow2_unfold(n as nat);
            power_bound(n as nat);
            power_bound((n - 1) as nat);
        }
        2 * two_to(n - 1)
    }
}

proof fn power_bound(n: nat)
    requires
        n <= 52,
    ensures
        1 <= pow2(n) <= 0x10_0000_0000_0000,
{
    vstd::arithmetic::power2::lemma2_to64();
    vstd::arithmetic::power2::lemma2_to64_rest();
    vstd::arithmetic::power2::lemma_pow2_pos(n);
    if n < 52 {
        vstd::arithmetic::power2::lemma_pow2_strictly_increases(n, 52);
    }
}

/// Whether the part after the point is not zero.
pub fn fractional(bits: u64) -> (yes: bool)
    ensures
        yes == is_fractional(bits),
{
    if !finite(bits) {
        return true;
    }
    if ordinal(bits) == 0 {
        return false;
    }
    let e = exponent_of(bits);
    if e < 1023 {
        true
    } else if e >= 1075 {
        false
    } else {
        let unit = two_to(1075 - e);
        bits % 0x10_0000_0000_0000 % unit != 0
    }
}

} // verus!
