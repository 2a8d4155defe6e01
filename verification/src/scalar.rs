//! Single-precision numbers carried by their bit pattern.

use vstd::prelude::*;

verus! {

/// Bit pattern of the number zero.
pub const ZERO_BITS: u32 = 0;

/// Bit pattern of the number one.
pub const ONE_BITS: u32 = 0x3F80_0000;

/// Bit pattern of positive infinity, the largest pattern that is not negative.
pub const INFINITY_BITS: u32 = 0x7F80_0000;

/// Bit pattern of negative zero.
pub const NEGATIVE_ZERO_BITS: u32 = 0x8000_0000;

/// An IEEE-754 single-precision number, held as its 32-bit pattern.
///
/// The scene graph stores and hands on such numbers and never computes with
/// them, so the pattern is all it needs. Two scalars are equal when their
/// patterns are.
#[derive(Clone, Copy, Debug, PartialEq, Eq, Hash, Structural)]
pub struct Scalar {
    pub bits: u32,
}

impl Scalar {
    /// The numbers that compare greater than or equal to zero: both zeros,
    /// the positive finite numbers and positive infinity. A NaN does not.
    pub open spec fn is_non_negative(self) -> bool {
        self.bits <= INFINITY_BITS || self.bits == NEGATIVE_ZERO_BITS
    }

    /// The scalar with the given bit pattern.
    pub fn from_bits(bits: u32) -> (s: Scalar)
        ensures
            s.bits == bits,
    {
        Scalar { bits }
    }

    /// The bit pattern of this scalar.
    pub fn to_bits(self) -> (bits: u32)
        ensures
            bits == self.bits,
    {
        self.bits
    }

    /// The number zero.
    pub fn zero() -> (s: Scalar)
        ensures
            s.bits == ZERO_BITS,
    {
        Scalar { bits: ZERO_BITS }
    }

    /// The number one.
    pub fn one() -> (s: Scalar)
        ensures
            s.bits == ONE_BITS,
    {
        Scalar { bits: ONE_BITS }
    }

    /// Whether this number compares greater than or equal to zero.
    pub fn non_negative(self) -> (b: bool)
        ensures
            b == self.is_non_negative(),
    {
        self.bits <= INFINITY_BITS || self.bits == NEGATIVE_ZERO_BITS
    }
}

} // verus!
