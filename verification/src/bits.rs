//! Bit patterns of binary32 numbers, and the complex cell made of two of them.

use vstd::prelude::*;

verus! {

/// The pattern of `+0.0`.
pub const POSITIVE_ZERO: u32 = 0;

/// The pattern of `1.0`.
pub const ONE: u32 = 0x3f80_0000;

/// Every bit but the sign.
pub const MAGNITUDE_MASK: u32 = 0x7fff_ffff;

/// Whether the number with this pattern compares unequal to zero: anything
/// but `+0.0` and `-0.0`, a NaN included.
pub open spec fn is_nonzero(bits: u32) -> bool {
    (bits & MAGNITUDE_MASK) != 0
}

/// Decides [`is_nonzero`].
pub fn differs_from_zero(bits: u32) -> (r: bool)
    ensures
        r == is_nonzero(bits),
{
    (bits & MAGNITUDE_MASK) != 0
}

/// The pattern of positive infinity; above it, leaving the sign out, lie the
/// NaNs.
pub const INFINITY: u32 = 0x7f80_0000;

/// Whether the pattern is that of a NaN.
pub open spec fn is_nan(bits: u32) -> bool {
    (bits & MAGNITUDE_MASK) > INFINITY
}

/// Where the number with this bit pattern stands in the total order of
/// binary32 numbers: negative numbers below positive ones, `-0.0` just below
/// `+0.0`, and the NaNs at the two ends.
pub open spec fn total_order_key(bits: u32) -> int {
    if bits < 0x8000_0000u32 {
        bits as int
    } else {
        -1 - (bits - 0x8000_0000u32)
    }
}

/// Whether the first number stands before the second in the total order.
pub fn stands_before(a: u32, b: u32) -> (r: bool)
    ensures
        r == (total_order_key(a) < total_order_key(b)),
{
    let key_a: i64 = if a < 0x8000_0000u32 {
        a as i64
    } else {
        -1 - ((a - 0x8000_0000u32) as i64)
    };
    let key_b: i64 = if b < 0x8000_0000u32 {
        b as i64
    } else {
        -1 - ((b - 0x8000_0000u32) as i64)
    };
    key_a < key_b
}

/// Whether the first number is less than the second, as numbers compare:
/// neither is a NaN, they are not both zero, and the first stands before the
/// second.
pub open spec fn less_than(a: u32, b: u32) -> bool {
    &&& !is_nan(a)
    &&& !is_nan(b)
    &&& is_nonzero(a) || is_nonzero(b)
    &&& total_order_key(a) < total_order_key(b)
}

/// Decides [`less_than`].
pub fn is_less(a: u32, b: u32) -> (r: bool)
    ensures
        r == less_than(a, b),
{
    (a & MAGNITUDE_MASK) <= INFINITY && (b & MAGNITUDE_MASK) <= INFINITY && (differs_from_zero(a)
        || differs_from_zero(b)) && stands_before(a, b)
}

/// `n` samples of `+0.0`.
pub open spec fn zeros(n: nat) -> Seq<u32> {
    Seq::new(n, |i: int| POSITIVE_ZERO)
}

/// A complex number as the bit patterns of its real and imaginary parts.
#[derive(Clone, Copy, Debug, PartialEq, Eq, Structural)]
pub struct ComplexBits {
    pub re: u32,
    pub im: u32,
}

impl ComplexBits {
    /// `+0.0 + 0.0i`.
    pub open spec fn spec_zero() -> ComplexBits {
        ComplexBits { re: POSITIVE_ZERO, im: POSITIVE_ZERO }
    }

    /// The real number with pattern `re`, as a complex one: its imaginary
    /// part is `+0.0`.
    pub open spec fn spec_from_real(re: u32) -> ComplexBits {
        ComplexBits { re, im: POSITIVE_ZERO }
    }

    pub fn zero() -> (c: ComplexBits)
        ensures
            c == Self::spec_zero(),
    {
        ComplexBits { re: POSITIVE_ZERO, im: POSITIVE_ZERO }
    }

    pub fn from_real(re: u32) -> (c: ComplexBits)
        ensures
            c == Self::spec_from_real(re),
    {
        ComplexBits { re, im: POSITIVE_ZERO }
    }

    /// `1.0 + 0.0i`.
    pub fn one() -> (c: ComplexBits)
        ensures
            c == Self::spec_from_real(ONE),
    {
        ComplexBits { re: ONE, im: POSITIVE_ZERO }
    }

    /// Whether the imaginary part compares unequal to zero.
    pub fn has_imaginary_part(&self) -> (r: bool)
        ensures
            r == is_nonzero(self.im),
    {
        differs_from_zero(self.im)
    }
}

} // verus!
