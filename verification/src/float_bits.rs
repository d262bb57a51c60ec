//! IEEE-754 single-precision values carried as their raw bit patterns.
//!
//! The library stores every `f32` that users hand it (blackboard floats and
//! vector components) as the `u32` that `f32::to_bits` returns, and compares
//! them with the IEEE rules: any comparison with NaN is false, and `+0.0`
//! equals `-0.0`.
use vstd::prelude::*;

verus! {

/// The bit pattern of an `f32` (as produced by `f32::to_bits`).
#[derive(Clone, Copy, Debug, PartialEq, Eq, Structural, Hash)]
pub struct FloatBits(pub u32);

/// Sign bit of the pattern.
pub open spec fn sign_set(bits: u32) -> bool {
    bits >= 0x8000_0000
}

/// The pattern without its sign bit.
pub open spec fn magnitude(bits: u32) -> int {
    if sign_set(bits) {
        bits - 0x8000_0000
    } else {
        bits as int
    }
}

/// A NaN has all exponent bits set and a non-zero mantissa, that is, a
/// magnitude above that of infinity.
pub open spec fn is_nan(bits: u32) -> bool {
    magnitude(bits) > 0x7f80_0000
}

/// For patterns that are not NaN, the real values they denote are ordered as
/// these signed magnitudes are; both zeros map to `0`.
pub open spec fn order_key(bits: u32) -> int {
    if sign_set(bits) {
        -magnitude(bits)
    } else {
        magnitude(bits)
    }
}

/// `a == b` on the `f32` values.
pub open spec fn float_eq(a: FloatBits, b: FloatBits) -> bool {
    !is_nan(a.0) && !is_nan(b.0) && order_key(a.0) == order_key(b.0)
}

/// `a < b` on the `f32` values.
pub open spec fn float_lt(a: FloatBits, b: FloatBits) -> bool {
    !is_nan(a.0) && !is_nan(b.0) && order_key(a.0) < order_key(b.0)
}

fn magnitude_of(bits: u32) -> (m: u32)
    ensures
        m == magnitude(bits),
{
    if bits >= 0x8000_0000 {
        bits - 0x8000_0000
    } else {
        bits
    }
}

fn key_of(bits: u32) -> (k: i64)
    ensures
        k == order_key(bits),
{
    let m = magnitude_of(bits) as i64;
    if bits >= 0x8000_0000 {
        -m
    } else {
        m
    }
}

impl FloatBits {
    /// Whether the pattern is a NaN.
    pub fn is_nan(self) -> (r: bool)
        ensures
            r == is_nan(self.0),
    {
        magnitude_of(self.0) > 0x7f80_0000
    }

    /// IEEE equality (`==` on `f32`).
    pub fn float_eq(self, other: FloatBits) -> (r: bool)
        ensures
            r == float_eq(self, other),
    {
        !self.is_nan() && !other.is_nan() && key_of(self.0) == key_of(other.0)
    }

    /// IEEE less-than (`<` on `f32`).
    pub fn float_lt(self, other: FloatBits) -> (r: bool)
        ensures
            r == float_lt(self, other),
    {
        !self.is_nan() && !other.is_nan() && key_of(self.0) < key_of(other.0)
    }
}

/// Two NaN patterns never compare equal, not even to themselves.
pub proof fn lemma_nan_is_unequal(a: FloatBits)
    requires
        is_nan(a.0),
    ensures
        !float_eq(a, a),
{
}

/// Positive and negative zero compare equal.
pub proof fn lemma_zeros_are_equal()
    ensures
        float_eq(FloatBits(0), FloatBits(0x8000_0000)),
{
}

/// Equality is symmetric and transitive, and no value is both less than and
/// equal to another.
pub proof fn lemma_float_order(a: FloatBits, b: FloatBits, c: FloatBits)
    ensures
        float_eq(a, b) ==> float_eq(b, a),
        float_eq(a, b) && float_eq(b, c) ==> float_eq(a, c),
        float_lt(a, b) ==> !float_eq(a, b) && !float_lt(b, a),
        float_lt(a, b) && float_lt(b, c) ==> float_lt(a, c),
{
}

} // verus!
