//! Scores as IEEE-754 double-precision bit patterns.
//!
//! A finite or infinite double is ordered by the signed magnitude of its
//! pattern: the 63 low bits read as an unsigned integer give the magnitude,
//! the top bit the sign. Both zeros have magnitude 0 and so compare equal, as
//! `0.0 == -0.0` does. A NaN pattern has a magnitude above that of infinity.
use vstd::prelude::*;

verus! {

/// The sign bit of a double.
pub const SIGN_BIT: u64 = 0x8000_0000_0000_0000;

/// The pattern of `+inf`; its magnitude is the largest that is not a NaN.
pub const INFINITY_BITS: u64 = 0x7FF0_0000_0000_0000;

/// Magnitude of a pattern: the pattern without its sign bit.
pub open spec fn magnitude(bits: u64) -> int {
    if bits >= SIGN_BIT {
        bits - SIGN_BIT
    } else {
        bits as int
    }
}

/// The value by which scores are ordered: the signed magnitude.
pub open spec fn score_value(bits: u64) -> int {
    if bits >= SIGN_BIT {
        -magnitude(bits)
    } else {
        magnitude(bits)
    }
}

/// A pattern that is not a NaN (finite or infinite).
pub open spec fn is_ordered(bits: u64) -> bool {
    magnitude(bits) <= INFINITY_BITS
}

/// A pattern of a finite double.
pub open spec fn is_finite(bits: u64) -> bool {
    magnitude(bits) < INFINITY_BITS
}

/// The ordering key of a score: its signed magnitude.
pub fn score_key(bits: u64) -> (k: i64)
    ensures
        k == score_value(bits),
{
    if bits >= SIGN_BIT {
        let m: u64 = bits - SIGN_BIT;
        -(m as i64)
    } else {
        bits as i64
    }
}

/// Whether a score is finite (neither infinite nor NaN).
pub fn is_finite_score(bits: u64) -> (r: bool)
    ensures
        r == is_finite(bits),
{
    if bits >= SIGN_BIT {
        bits - SIGN_BIT < INFINITY_BITS
    } else {
        bits < INFINITY_BITS
    }
}

} // verus!
