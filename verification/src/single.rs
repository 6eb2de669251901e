//! Single-precision numbers by their bit pattern.
//!
//! A host computes with such numbers; this library carries them, compares them
//! and clamps them. All of that can be read off the bits: for two numbers that
//! are not NaN, the sign-and-magnitude reading of the bits orders them as their
//! values do.

use vstd::prelude::*;

verus! {

/// A single-precision number.
#[derive(Debug, Clone, Copy, PartialEq, Eq, Structural)]
pub struct Single {
    /// The IEEE 754 bit pattern.
    pub bits: u32,
}

/// 2 to the power 31: the weight of the sign bit.
pub const SIGN_WEIGHT: u32 = 0x8000_0000;

/// The bits of positive infinity. A larger magnitude is a NaN.
pub const INFINITY_BITS: u32 = 0x7f80_0000;

/// The bits of 1.0.
pub const ONE_BITS: u32 = 0x3f80_0000;

impl Single {
    /// The number with the given bits.
    pub fn from_bits(bits: u32) -> (r: Self)
        ensures
            r.bits == bits,
    {
        Single { bits }
    }

    /// The bits without the sign.
    pub open spec fn magnitude(self) -> int {
        if self.bits >= SIGN_WEIGHT {
            self.bits - SIGN_WEIGHT
        } else {
            self.bits as int
        }
    }

    /// The place of the number in the order of all numbers. Both zeros have
    /// the place zero.
    pub open spec fn key(self) -> int {
        if self.bits >= SIGN_WEIGHT {
            -self.magnitude()
        } else {
            self.magnitude()
        }
    }

    pub open spec fn is_nan_spec(self) -> bool {
        self.magnitude() > INFINITY_BITS
    }

    /// Whether the number is not a number.
    #[verifier::when_used_as_spec(is_nan_spec)]
    pub fn is_nan(self) -> (r: bool)
        ensures
            r == self.is_nan_spec(),
    {
        if self.bits >= SIGN_WEIGHT {
            self.bits - SIGN_WEIGHT > INFINITY_BITS
        } else {
            self.bits > INFINITY_BITS
        }
    }

    /// Whether the number is neither infinite nor a NaN.
    pub fn is_finite(self) -> (r: bool)
        ensures
            r == (self.magnitude() < INFINITY_BITS),
    {
        if self.bits >= SIGN_WEIGHT {
            self.bits - SIGN_WEIGHT < INFINITY_BITS
        } else {
            self.bits < INFINITY_BITS
        }
    }

    pub open spec fn below_spec(self, other: Single) -> bool {
        !self.is_nan() && !other.is_nan() && self.key() < other.key()
    }

    /// Whether the number is less than `other`. A NaN is less than nothing and
    /// nothing is less than a NaN.
    #[verifier::when_used_as_spec(below_spec)]
    pub fn below(self, other: Single) -> (r: bool)
        ensures
            r == self.below_spec(other),
    {
        !self.is_nan() && !other.is_nan() && self.place() < other.place()
    }

    pub open spec fn reaches_spec(self, other: Single) -> bool {
        !self.is_nan() && !other.is_nan() && self.key() >= other.key()
    }

    /// Whether the number is at least `other`. It never is where one of them
    /// is a NaN.
    #[verifier::when_used_as_spec(reaches_spec)]
    pub fn reaches(self, other: Single) -> (r: bool)
        ensures
            r == self.reaches_spec(other),
    {
        !self.is_nan() && !other.is_nan() && self.place() >= other.place()
    }

    /// The place of the number in the order of all numbers.
    pub fn place(self) -> (r: i64)
        ensures
            r == self.key(),
    {
        if self.bits >= SIGN_WEIGHT {
            -((self.bits - SIGN_WEIGHT) as i64)
        } else {
            self.bits as i64
        }
    }

    pub open spec fn in_unit_spec(self) -> bool {
        0 <= self.key() <= ONE_BITS
    }

    /// Whether the number lies in the closed interval from zero to one.
    #[verifier::when_used_as_spec(in_unit_spec)]
    pub fn in_unit(self) -> (r: bool)
        ensures
            r == self.in_unit_spec(),
    {
        self.bits <= ONE_BITS || self.bits == SIGN_WEIGHT
    }

    /// The number held in the closed interval from zero to one. A NaN stays.
    pub open spec fn clamped(self) -> Single {
        if self.is_nan() {
            self
        } else if self.key() < 0 {
            Single { bits: 0 }
        } else if self.key() > ONE_BITS {
            Single { bits: ONE_BITS }
        } else {
            self
        }
    }

    /// Holds the number in the closed interval from zero to one.
    pub fn clamp_unit(self) -> (r: Single)
        ensures
            r == self.clamped(),
    {
        if self.is_nan() {
            self
        } else if self.place() < 0 {
            Single { bits: 0 }
        } else if self.place() > ONE_BITS as i64 {
            Single { bits: ONE_BITS }
        } else {
            self
        }
    }
}

/// A clamped number that is not a NaN lies in the unit interval, and clamping
/// changes no number that lies there.
pub proof fn clamping_lands_in_the_unit_interval(x: Single)
    ensures
        !x.is_nan() ==> x.clamped().in_unit(),
        x.in_unit() ==> x.clamped() == x,
        x.clamped().clamped() == x.clamped(),
{
}

/// Of two numbers that are not NaN, either the first is below the second or it
/// reaches it, and never both.
pub proof fn numbers_are_comparable(x: Single, y: Single)
    requires
        !x.is_nan(),
        !y.is_nan(),
    ensures
        x.below(y) != x.reaches(y),
        x.below(y) ==> !y.below(x),
{
}

/// The order of the numbers is that of their values. Among numbers without a
/// sign the larger bits are the larger number, among numbers with one they are
/// the smaller, a number with a sign is below one without unless both are zero,
/// and nothing is above infinity.
pub proof fn bits_order_as_values_do(x: Single, y: Single)
    requires
        x.bits < 0x8000_0000 ==> x.bits <= 0x7f80_0000,
        y.bits < 0x8000_0000 ==> y.bits <= 0x7f80_0000,
        x.bits >= 0x8000_0000 ==> x.bits <= 0xff80_0000,
        y.bits >= 0x8000_0000 ==> y.bits <= 0xff80_0000,
    ensures
        x.bits < 0x8000_0000 && y.bits < 0x8000_0000 ==> (x.below(y) <==> x.bits < y.bits),
        x.bits >= 0x8000_0000 && y.bits >= 0x8000_0000 ==> (x.below(y) <==> x.bits > y.bits),
        x.bits >= 0x8000_0000 && y.bits < 0x8000_0000 ==> (x.below(y) <==> x.bits > 0x8000_0000
            || y.bits > 0),
        x.bits < 0x8000_0000 && y.bits >= 0x8000_0000 ==> !x.below(y),
        x.reaches(y) <==> !x.below(y),
{
}

/// A NaN is neither below nor at least anything, lies in no interval, and is
/// left as it is.
pub proof fn a_nan_compares_with_nothing(x: Single, y: Single)
    requires
        0x7f80_0000 < x.bits < 0x8000_0000 || x.bits > 0xff80_0000,
    ensures
        x.is_nan(),
        !x.below(y) && !y.below(x) && !x.reaches(y) && !y.reaches(x),
        !x.in_unit(),
        x.clamped() == x,
{
}

/// The unit interval holds what is between zero and one, both included, and
/// what lies outside of it is held at the nearer end.
pub proof fn the_unit_interval_ends_at_zero_and_one(x: Single)
    ensures
        x.in_unit() <==> x.bits <= 0x3f80_0000 || x.bits == 0x8000_0000,
        0x3f80_0000 < x.bits <= 0x7f80_0000 ==> x.clamped().bits == 0x3f80_0000,
        0x8000_0000 < x.bits <= 0xff80_0000 ==> x.clamped().bits == 0,
{
}

} // verus!
