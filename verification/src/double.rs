//! Double-precision numbers by their bit pattern.
//!
//! As with [`crate::single`], a host computes with such numbers; this library
//! carries and compares them.

use vstd::prelude::*;

verus! {

/// A double-precision number.
#[derive(Debug, Clone, Copy, PartialEq, Eq, Structural)]
pub struct Double {
    /// The IEEE 754 bit pattern.
    pub bits: u64,
}

/// 2 to the power 63: the weight of the sign bit.
pub const SIGN_WEIGHT: u64 = 0x8000_0000_0000_0000;

/// The bits of positive infinity. A larger magnitude is a NaN.
pub const INFINITY_BITS: u64 = 0x7ff0_0000_0000_0000;

/// The bits of 1.0.
pub const ONE_BITS: u64 = 0x3ff0_0000_0000_0000;

impl Double {
    /// The number with the given bits.
    pub fn from_bits(bits: u64) -> (r: Self)
        ensures
            r.bits == bits,
    {
        Double { bits }
    }

    /// The bits without the sign.
    pub open spec fn magnitude(self) -> int {
        if self.bits >= SIGN_WEIGHT {
            self.bits - SIGN_WEIGHT
        } else {
            self.bits as int
        }
    }

    /// The place of the number in the order of all numbers. Both zeros have
    /// the place zero.
    pub open spec fn key(self) -> int {
        if self.bits >= SIGN_WEIGHT {
            -self.magnitude()
        } else {
            self.magnitude()
        }
    }

    /// Whether the number is not a number.
    pub open spec fn nan(self) -> bool {
        self.magnitude() > INFINITY_BITS
    }

    /// The place of the number in the order of all numbers.
    fn place(self) -> (r: i128)
        ensures
            r == self.key(),
    {
        if self.bits >= SIGN_WEIGHT {
            -((self.bits - SIGN_WEIGHT) as i128)
        } else {
            self.bits as i128
        }
    }

    /// Whether the number is not a number.
    pub fn is_nan(self) -> (r: bool)
        ensures
            r == self.nan(),
    {
        if self.bits >= SIGN_WEIGHT {
            self.bits - SIGN_WEIGHT > INFINITY_BITS
        } else {
            self.bits > INFINITY_BITS
        }
    }

    /// Whether the number is below another; a NaN never is.
    pub open spec fn under(self, other: Double) -> bool {
        !self.nan() && !other.nan() && self.key() < other.key()
    }

    /// Whether the number is below another.
    pub fn below(self, other: Double) -> (r: bool)
        ensures
            r == self.under(other),
    {
        !self.is_nan() && !other.is_nan() && self.place() < other.place()
    }

    /// Whether the number is another or above it; a NaN never is.
    pub open spec fn at_least(self, other: Double) -> bool {
        !self.nan() && !other.nan() && self.key() >= other.key()
    }

    /// Whether the number is another or above it.
    pub fn reaches(self, other: Double) -> (r: bool)
        ensures
            r == self.at_least(other),
    {
        !self.is_nan() && !other.is_nan() && self.place() >= other.place()
    }

    /// The number held between zero and one. A NaN stays.
    pub open spec fn clamped(self) -> Double {
        if self.under(Double { bits: 0 }) {
            Double { bits: 0 }
        } else if (Double { bits: ONE_BITS }).under(self) {
            Double { bits: ONE_BITS }
        } else {
            self
        }
    }

    /// Holds the number between zero and one.
    pub fn clamp_unit(self) -> (r: Double)
        ensures
            r == self.clamped(),
    {
        let zero = Double::from_bits(0);
        let one = Double::from_bits(ONE_BITS);
        if self.below(zero) {
            zero
        } else if one.below(self) {
            one
        } else {
            self
        }
    }
}

/// The order of the numbers is that of their values. Among numbers without a
/// sign the larger bits are the larger number, among numbers with one they are
/// the smaller, and a number with a sign is below one without unless both are
/// zero.
pub proof fn bits_order_as_values_do(x: Double, y: Double)
    requires
        x.bits < 0x8000_0000_0000_0000 ==> x.bits <= 0x7ff0_0000_0000_0000,
        y.bits < 0x8000_0000_0000_0000 ==> y.bits <= 0x7ff0_0000_0000_0000,
        x.bits >= 0x8000_0000_0000_0000 ==> x.bits <= 0xfff0_0000_0000_0000,
        y.bits >= 0x8000_0000_0000_0000 ==> y.bits <= 0xfff0_0000_0000_0000,
    ensures
        x.bits < 0x8000_0000_0000_0000 && y.bits < 0x8000_0000_0000_0000 ==> (x.under(y) <==> x.bits
            < y.bits),
        x.bits >= 0x8000_0000_0000_0000 && y.bits >= 0x8000_0000_0000_0000 ==> (x.under(y)
            <==> x.bits > y.bits),
        x.bits >= 0x8000_0000_0000_0000 && y.bits < 0x8000_0000_0000_0000 ==> (x.under(y)
            <==> x.bits > 0x8000_0000_0000_0000 || y.bits > 0),
        x.bits < 0x8000_0000_0000_0000 && y.bits >= 0x8000_0000_0000_0000 ==> !x.under(y),
        x.at_least(y) <==> !x.under(y),
{
}

/// A NaN is neither below nor at least anything, and is left as it is.
pub proof fn a_nan_compares_with_nothing(x: Double, y: Double)
    requires
        0x7ff0_0000_0000_0000 < x.bits < 0x8000_0000_0000_0000 || x.bits > 0xfff0_0000_0000_0000,
    ensures
        x.nan(),
        !x.under(y) && !y.under(x) && !x.at_least(y) && !y.at_least(x),
        x.clamped() == x,
{
}

/// A number between zero and one is left as it is, and one outside is held at
/// the nearer end.
pub proof fn clamping_holds_at_the_nearer_end(x: Double)
    ensures
        x.bits <= 0x3ff0_0000_0000_0000 || x.bits == 0x8000_0000_0000_0000 ==> x.clamped() == x,
        0x3ff0_0000_0000_0000 < x.bits <= 0x7ff0_0000_0000_0000 ==> x.clamped().bits
            == 0x3ff0_0000_0000_0000,
        0x8000_0000_0000_0000 < x.bits <= 0xfff0_0000_0000_0000 ==> x.clamped().bits == 0,
{
}

} // verus!
