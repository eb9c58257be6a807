//! IEEE 754 binary32 values carried as their 32-bit encodings.
//!
//! The library never does floating-point arithmetic. Coordinates, cell sizes
//! and origins travel through it as `u32` bit patterns (`f32::to_bits`), and
//! every decision it makes on them (finiteness, sign, order) is a decision on
//! the encoding: sign bit 31, exponent bits 23..31, fraction bits 0..23.

use vstd::prelude::*;

verus! {

/// The sign bit.
pub const SIGN_BIT: u32 = 0x8000_0000;

/// Exponent field all ones: the encodings at and above this magnitude are
/// infinities and NaNs.
pub const EXPONENT_MASK: u32 = 0x7f80_0000;

/// The encoding with its sign bit cleared.
pub open spec fn magnitude(bits: u32) -> int {
    if bits >= SIGN_BIT { bits - SIGN_BIT } else { bits as int }
}

/// The encoding denotes a finite number (neither infinite nor NaN).
pub open spec fn spec_is_finite(bits: u32) -> bool {
    magnitude(bits) < EXPONENT_MASK
}

/// The encoding denotes a finite number strictly greater than zero.
pub open spec fn spec_is_positive(bits: u32) -> bool {
    0 < bits < EXPONENT_MASK
}

/// Key of the numeric order: for finite encodings `a` and `b`, the number
/// encoded by `a` is below the one encoded by `b` iff `value_key(a) <
/// value_key(b)`. Both zeros get the key 0.
pub open spec fn value_key(bits: u32) -> int {
    if bits >= SIGN_BIT { -magnitude(bits) } else { bits as int }
}

/// Numeric `a > b` on finite encodings.
pub open spec fn value_gt(a: u32, b: u32) -> bool {
    value_key(a) > value_key(b)
}

/// Key of the IEEE total order (`f32::total_cmp`): the encoding read as a
/// signed integer with the magnitude bits of negative values flipped, so that
/// `-0.0` sorts just below `+0.0`.
pub open spec fn total_key(bits: u32) -> int {
    if bits >= SIGN_BIT { -1 - magnitude(bits) } else { bits as int }
}

/// Whether `bits` encodes a finite number.
pub fn is_finite(bits: u32) -> (r: bool)
    ensures
        r == spec_is_finite(bits),
{
    if bits >= SIGN_BIT {
        bits - SIGN_BIT < EXPONENT_MASK
    } else {
        bits < EXPONENT_MASK
    }
}

/// Whether `bits` encodes a finite number greater than zero.
pub fn is_positive(bits: u32) -> (r: bool)
    ensures
        r == spec_is_positive(bits),
{
    0 < bits && bits < EXPONENT_MASK
}

/// Numeric comparison `a > b` of two finite encodings.
pub fn greater_than(a: u32, b: u32) -> (r: bool)
    ensures
        r == value_gt(a, b),
{
    let ka: i64 = if a >= SIGN_BIT { -((a - SIGN_BIT) as i64) } else { a as i64 };
    let kb: i64 = if b >= SIGN_BIT { -((b - SIGN_BIT) as i64) } else { b as i64 };
    ka > kb
}

/// The total-order key of an encoding, as computed by `f32::total_cmp`.
pub fn total_order_key(bits: u32) -> (k: i64)
    ensures
        k == total_key(bits),
{
    if bits >= SIGN_BIT {
        -1 - ((bits - SIGN_BIT) as i64)
    } else {
        bits as i64
    }
}

} // verus!
