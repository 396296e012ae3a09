//! IEEE 754 binary64 values seen through their bit patterns.
//!
//! A pattern has three parts: the sign (bit 63), the biased exponent (bits
//! 62..52) and the fraction (bits 51..0). Read as an unsigned integer, the low
//! 63 bits of a pattern grow with the absolute value that the pattern encodes,
//! from zero through the subnormal and normal numbers up to infinity; every
//! pattern above infinity's is a NaN. All the functions here follow from that.

use vstd::prelude::*;

verus! {

/// Bit 63, set in the pattern of every value with a negative sign.
pub const SIGN_BIT: u64 = 0x8000_0000_0000_0000;

/// The pattern of positive infinity.
pub const INFINITY: u64 = 0x7ff0_0000_0000_0000;

/// The pattern of the largest finite value.
pub const LARGEST: u64 = 0x7fef_ffff_ffff_ffff;

/// The pattern of the smallest (most negative) finite value.
pub const SMALLEST: u64 = 0xffef_ffff_ffff_ffff;

/// The pattern of positive zero.
pub const ZERO: u64 = 0;

/// The low 63 bits of a pattern, as a number.
pub open spec fn magnitude(bits: u64) -> int {
    if bits >= SIGN_BIT {
        bits - SIGN_BIT
    } else {
        bits as int
    }
}

/// The pattern encodes a NaN.
pub open spec fn spec_is_nan(bits: u64) -> bool {
    magnitude(bits) > INFINITY
}

/// The pattern encodes a finite value: neither an infinity nor a NaN.
pub open spec fn spec_is_finite(bits: u64) -> bool {
    magnitude(bits) < INFINITY
}

/// The pattern encodes positive or negative zero.
pub open spec fn spec_is_zero(bits: u64) -> bool {
    magnitude(bits) == 0
}

/// The place of a pattern on the number line: for two patterns that are not
/// NaN, the one with the smaller ordinal encodes the smaller value, and two
/// patterns with the same ordinal encode equal values (the two zeros share
/// ordinal 0).
pub open spec fn spec_ordinal(bits: u64) -> i64 {
    if bits >= SIGN_BIT {
        (-magnitude(bits)) as i64
    } else {
        magnitude(bits) as i64
    }
}

/// `a < b` as the values compare: false whenever either is a NaN.
pub open spec fn spec_less(a: u64, b: u64) -> bool {
    !spec_is_nan(a) && !spec_is_nan(b) && spec_ordinal(a) < spec_ordinal(b)
}

/// `a <= b` as the values compare: false whenever either is a NaN.
pub open spec fn spec_less_eq(a: u64, b: u64) -> bool {
    !spec_is_nan(a) && !spec_is_nan(b) && spec_ordinal(a) <= spec_ordinal(b)
}

/// Tells whether a pattern encodes a NaN.
#[verifier::when_used_as_spec(spec_is_nan)]
pub fn is_nan(bits: u64) -> (r: bool)
    ensures
        r == spec_is_nan(bits),
{
    let low: u64 = if bits >= SIGN_BIT { bits - SIGN_BIT } else { bits };
    low > INFINITY
}

/// Tells whether a pattern encodes a finite value.
#[verifier::when_used_as_spec(spec_is_finite)]
pub fn is_finite(bits: u64) -> (r: bool)
    ensures
        r == spec_is_finite(bits),
{
    let low: u64 = if bits >= SIGN_BIT { bits - SIGN_BIT } else { bits };
    low < INFINITY
}

/// Tells whether a pattern encodes one of the two zeros.
#[verifier::when_used_as_spec(spec_is_zero)]
pub fn is_zero(bits: u64) -> (r: bool)
    ensures
        r == spec_is_zero(bits),
{
    bits == ZERO || bits == SIGN_BIT
}

/// Computes the ordinal of a pattern.
#[verifier::when_used_as_spec(spec_ordinal)]
pub fn ordinal(bits: u64) -> (r: i64)
    ensures
        r == spec_ordinal(bits),
{
    if bits >= SIGN_BIT {
        let low: u64 = bits - SIGN_BIT;
        0 - (low as i64)
    } else {
        bits as i64
    }
}

/// Compares two patterns as the values they encode compare with `<`.
#[verifier::when_used_as_spec(spec_less)]
pub fn less(a: u64, b: u64) -> (r: bool)
    ensures
        r == spec_less(a, b),
{
    !is_nan(a) && !is_nan(b) && ordinal(a) < ordinal(b)
}

/// Compares two patterns as the values they encode compare with `<=`.
#[verifier::when_used_as_spec(spec_less_eq)]
pub fn less_eq(a: u64, b: u64) -> (r: bool)
    ensures
        r == spec_less_eq(a, b),
{
    !is_nan(a) && !is_nan(b) && ordinal(a) <= ordinal(b)
}

} // verus!
