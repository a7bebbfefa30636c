//! Comparison of IEEE-754 binary64 values given as bit patterns.
//!
//! A coordinate is held as the 64-bit pattern of an `f64`.  The functions
//! here decide `<`, `<=` and `==` exactly as the floating-point operators do:
//! any comparison that involves a NaN is false, `-0.0` and `+0.0` are equal,
//! and every other pair is ordered by sign and magnitude.

use vstd::prelude::*;

verus! {

/// The sign bit of a binary64 value.
pub const SIGN_BIT: u64 = 0x8000_0000_0000_0000u64;

/// The bit pattern of positive infinity.
pub const POS_INFINITY: u64 = 0x7FF0_0000_0000_0000u64;

/// The bit pattern of negative infinity.
pub const NEG_INFINITY: u64 = 0xFFF0_0000_0000_0000u64;

/// The bit pattern of `+0.0`.
pub const POS_ZERO: u64 = 0u64;

/// Exponent and fraction bits of `b`, that is its magnitude.
pub open spec fn magnitude(b: u64) -> int {
    if b >= SIGN_BIT {
        b - SIGN_BIT
    } else {
        b as int
    }
}

/// `b` encodes a NaN: all exponent bits set and a non-zero fraction.
pub open spec fn is_nan(b: u64) -> bool {
    magnitude(b) > POS_INFINITY
}

/// The position of a non-NaN value on the real line, extended by the two
/// infinities: magnitudes grow with the value for positive numbers and
/// shrink for negative ones, and both zeros sit at 0.
pub open spec fn order_key(b: u64) -> int {
    if b >= SIGN_BIT {
        -magnitude(b)
    } else {
        magnitude(b)
    }
}

/// `a < b` on binary64 values.
pub open spec fn spec_lt(a: u64, b: u64) -> bool {
    !is_nan(a) && !is_nan(b) && order_key(a) < order_key(b)
}

/// `a <= b` on binary64 values.
pub open spec fn spec_le(a: u64, b: u64) -> bool {
    !is_nan(a) && !is_nan(b) && order_key(a) <= order_key(b)
}

/// `a == b` on binary64 values.
pub open spec fn spec_eq(a: u64, b: u64) -> bool {
    !is_nan(a) && !is_nan(b) && order_key(a) == order_key(b)
}

/// The order key of a value, as a machine integer.
fn key_of(b: u64) -> (k: i64)
    ensures
        k == order_key(b),
{
    if b >= SIGN_BIT {
        let m: u64 = b - SIGN_BIT;
        -(m as i64)
    } else {
        b as i64
    }
}

/// Whether `b` encodes a NaN.
pub fn nan(b: u64) -> (r: bool)
    ensures
        r == is_nan(b),
{
    let m: u64 = if b >= SIGN_BIT { b - SIGN_BIT } else { b };
    m > POS_INFINITY
}

/// `a < b` as the floating-point operator decides it.
pub fn lt(a: u64, b: u64) -> (r: bool)
    ensures
        r == spec_lt(a, b),
{
    !nan(a) && !nan(b) && key_of(a) < key_of(b)
}

/// `a <= b` as the floating-point operator decides it.
pub fn le(a: u64, b: u64) -> (r: bool)
    ensures
        r == spec_le(a, b),
{
    !nan(a) && !nan(b) && key_of(a) <= key_of(b)
}

/// `a == b` as the floating-point operator decides it.
pub fn eq(a: u64, b: u64) -> (r: bool)
    ensures
        r == spec_eq(a, b),
{
    !nan(a) && !nan(b) && key_of(a) == key_of(b)
}

} // verus!
