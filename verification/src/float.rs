//! Floating-point numbers held by their bit patterns.
//!
//! The library never computes with floating-point numbers itself. It stores
//! them as bit patterns, compares them, and leaves arithmetic to an
//! [`crate::fpu::Fpu`]. Everything that only needs the order of the numbers
//! (thresholds, clamping, minima and maxima) is decided here, on integers.

use vstd::prelude::*;

verus! {

/// The sign bit of a single-precision number, as a weight.
pub const SINGLE_SIGN: u32 = 0x8000_0000;

/// The bit pattern of positive infinity in single precision.
pub const SINGLE_INFINITY: u32 = 0x7F80_0000;

/// The sign bit of a double-precision number, as a weight.
pub const DOUBLE_SIGN: u64 = 0x8000_0000_0000_0000;

/// The bit pattern of positive infinity in double precision.
pub const DOUBLE_INFINITY: u64 = 0x7FF0_0000_0000_0000;

/// The bit pattern of `1.0` in single precision.
pub const SINGLE_ONE: u32 = 0x3F80_0000;

/// A single-precision number, held by its bit pattern.
///
/// Two values are equal as Rust values when their bit patterns are equal; the
/// numeric comparisons are the methods below.
#[derive(Debug, Clone, Copy, PartialEq, Eq, Structural)]
pub struct Single {
    pub bits: u32,
}

impl Single {
    /// The bit pattern without its sign.
    pub open spec fn magnitude(self) -> int {
        if self.bits >= SINGLE_SIGN {
            self.bits - SINGLE_SIGN
        } else {
            self.bits as int
        }
    }

    pub open spec fn nan(self) -> bool {
        self.magnitude() > SINGLE_INFINITY
    }

    pub open spec fn finite(self) -> bool {
        self.magnitude() < SINGLE_INFINITY
    }

    /// An integer that orders the numbers: zero for both zeros, and otherwise
    /// the magnitude with the sign of the number.
    pub open spec fn rank(self) -> int {
        if self.bits >= SINGLE_SIGN {
            -self.magnitude()
        } else {
            self.magnitude()
        }
    }

    /// `self < other` as numbers; false when either is not a number.
    pub open spec fn below(self, other: Single) -> bool {
        !self.nan() && !other.nan() && self.rank() < other.rank()
    }

    /// `self <= other` as numbers; false when either is not a number.
    pub open spec fn at_most(self, other: Single) -> bool {
        !self.nan() && !other.nan() && self.rank() <= other.rank()
    }

    /// `self == other` as numbers; false when either is not a number.
    pub open spec fn equals(self, other: Single) -> bool {
        !self.nan() && !other.nan() && self.rank() == other.rank()
    }

    /// The larger of two numbers; where one is not a number, the other one.
    pub open spec fn larger(self, other: Single) -> Single {
        if self.nan() || self.below(other) {
            other
        } else {
            self
        }
    }

    /// The smaller of two numbers; where one is not a number, the other one.
    pub open spec fn smaller(self, other: Single) -> Single {
        if self.nan() || other.below(self) {
            other
        } else {
            self
        }
    }

    /// `self` forced into the interval from `low` to `high`; what is not a
    /// number stays as it is.
    pub open spec fn clamped(self, low: Single, high: Single) -> Single {
        if self.below(low) {
            low
        } else if high.below(self) {
            high
        } else {
            self
        }
    }

    /// Whether this is a number from zero to one.
    pub open spec fn in_unit(self) -> bool {
        (Single { bits: 0 }).at_most(self) && self.at_most(Single { bits: SINGLE_ONE })
    }

    /// `self` forced between zero and one; zero for what is not a number.
    pub open spec fn unit(self) -> Single {
        if self.nan() {
            Single { bits: 0 }
        } else {
            self.clamped(Single { bits: 0 }, Single { bits: SINGLE_ONE })
        }
    }

    /// Position in the order that places every bit pattern, `-0` before `+0`.
    pub open spec fn total_rank(self) -> int {
        if self.bits >= SINGLE_SIGN {
            -self.magnitude() - 1
        } else {
            self.magnitude()
        }
    }

    /// `self` with its sign turned.
    pub open spec fn negated(self) -> Single {
        Single {
            bits: if self.bits >= SINGLE_SIGN {
                (self.bits - SINGLE_SIGN) as u32
            } else {
                (self.bits + SINGLE_SIGN) as u32
            },
        }
    }

    /// `self` without its sign.
    pub open spec fn absolute(self) -> Single {
        Single { bits: self.magnitude() as u32 }
    }

    pub fn from_bits(bits: u32) -> (result: Single)
        ensures
            result.bits == bits,
    {
        Single { bits }
    }

    pub fn zero() -> (result: Single)
        ensures
            result == (Single { bits: 0 }),
    {
        Single { bits: 0 }
    }

    pub fn one() -> (result: Single)
        ensures
            result == (Single { bits: SINGLE_ONE }),
    {
        Single { bits: SINGLE_ONE }
    }

    fn unsigned(&self) -> (result: u32)
        ensures
            result == self.magnitude(),
    {
        if self.bits >= SINGLE_SIGN {
            self.bits - SINGLE_SIGN
        } else {
            self.bits
        }
    }

    fn signed(&self) -> (result: i64)
        ensures
            result == self.rank(),
    {
        if self.bits >= SINGLE_SIGN {
            -(self.unsigned() as i64)
        } else {
            self.unsigned() as i64
        }
    }

    pub fn is_nan(&self) -> (result: bool)
        ensures
            result == self.nan(),
    {
        self.unsigned() > SINGLE_INFINITY
    }

    pub fn is_finite(&self) -> (result: bool)
        ensures
            result == self.finite(),
    {
        self.unsigned() < SINGLE_INFINITY
    }

    pub fn lt(&self, other: &Single) -> (result: bool)
        ensures
            result == self.below(*other),
    {
        !self.is_nan() && !other.is_nan() && self.signed() < other.signed()
    }

    pub fn le(&self, other: &Single) -> (result: bool)
        ensures
            result == self.at_most(*other),
    {
        !self.is_nan() && !other.is_nan() && self.signed() <= other.signed()
    }

    pub fn same_number(&self, other: &Single) -> (result: bool)
        ensures
            result == self.equals(*other),
    {
        !self.is_nan() && !other.is_nan() && self.signed() == other.signed()
    }

    pub fn max(&self, other: &Single) -> (result: Single)
        ensures
            result == self.larger(*other),
    {
        if self.is_nan() || self.lt(other) {
            *other
        } else {
            *self
        }
    }

    pub fn min(&self, other: &Single) -> (result: Single)
        ensures
            result == self.smaller(*other),
    {
        if self.is_nan() || other.lt(self) {
            *other
        } else {
            *self
        }
    }

    pub fn clamp(&self, low: &Single, high: &Single) -> (result: Single)
        ensures
            result == self.clamped(*low, *high),
    {
        if self.lt(low) {
            *low
        } else if high.lt(self) {
            *high
        } else {
            *self
        }
    }

    /// `self` forced between zero and one; zero for what is not a number.
    pub fn to_unit(&self) -> (result: Single)
        ensures
            result == self.unit(),
            result.in_unit(),
    {
        if self.is_nan() {
            Single::zero()
        } else {
            self.clamp(&Single::zero(), &Single::one())
        }
    }

    /// Whether `self` comes after `other` in the order of every bit pattern.
    pub fn after(&self, other: &Single) -> (result: bool)
        ensures
            result == (self.total_rank() > other.total_rank()),
    {
        let own: i64 = if self.bits >= SINGLE_SIGN {
            self.signed() - 1
        } else {
            self.signed()
        };
        let their: i64 = if other.bits >= SINGLE_SIGN {
            other.signed() - 1
        } else {
            other.signed()
        };
        own > their
    }

    pub fn neg(&self) -> (result: Single)
        ensures
            result == self.negated(),
    {
        if self.bits >= SINGLE_SIGN {
            Single { bits: self.bits - SINGLE_SIGN }
        } else {
            Single { bits: self.bits + SINGLE_SIGN }
        }
    }

    pub fn abs(&self) -> (result: Single)
        ensures
            result == self.absolute(),
    {
        Single { bits: self.unsigned() }
    }
}

/// A double-precision number, held by its bit pattern.
#[derive(Debug, Clone, Copy, PartialEq, Eq, Structural)]
pub struct Double {
    pub bits: u64,
}

impl Double {
    /// The bit pattern without its sign.
    pub open spec fn magnitude(self) -> int {
        if self.bits >= DOUBLE_SIGN {
            self.bits - DOUBLE_SIGN
        } else {
            self.bits as int
        }
    }

    pub open spec fn nan(self) -> bool {
        self.magnitude() > DOUBLE_INFINITY
    }

    pub open spec fn finite(self) -> bool {
        self.magnitude() < DOUBLE_INFINITY
    }

    /// An integer that orders the numbers: zero for both zeros, and otherwise
    /// the magnitude with the sign of the number.
    pub open spec fn rank(self) -> int {
        if self.bits >= DOUBLE_SIGN {
            -self.magnitude()
        } else {
            self.magnitude()
        }
    }

    /// `self < other` as numbers; false when either is not a number.
    pub open spec fn below(self, other: Double) -> bool {
        !self.nan() && !other.nan() && self.rank() < other.rank()
    }

    /// `self` with its sign turned.
    pub open spec fn negated(self) -> Double {
        Double {
            bits: if self.bits >= DOUBLE_SIGN {
                (self.bits - DOUBLE_SIGN) as u64
            } else {
                (self.bits + DOUBLE_SIGN) as u64
            },
        }
    }

    fn unsigned(&self) -> (result: u64)
        ensures
            result == self.magnitude(),
    {
        if self.bits >= DOUBLE_SIGN {
            self.bits - DOUBLE_SIGN
        } else {
            self.bits
        }
    }

    fn signed(&self) -> (result: i128)
        ensures
            result == self.rank(),
    {
        if self.bits >= DOUBLE_SIGN {
            -(self.unsigned() as i128)
        } else {
            self.unsigned() as i128
        }
    }

    pub fn is_nan(&self) -> (result: bool)
        ensures
            result == self.nan(),
    {
        self.unsigned() > DOUBLE_INFINITY
    }

    pub fn is_finite(&self) -> (result: bool)
        ensures
            result == self.finite(),
    {
        self.unsigned() < DOUBLE_INFINITY
    }

    pub fn lt(&self, other: &Double) -> (result: bool)
        ensures
            result == self.below(*other),
    {
        !self.is_nan() && !other.is_nan() && self.signed() < other.signed()
    }

    pub fn neg(&self) -> (result: Double)
        ensures
            result == self.negated(),
    {
        if self.bits >= DOUBLE_SIGN {
            Double { bits: self.bits - DOUBLE_SIGN }
        } else {
            Double { bits: self.bits + DOUBLE_SIGN }
        }
    }
}

/// Clamping to an interval lands in the interval, for every number.
pub proof fn clamping_lands_inside(value: Single, low: Single, high: Single)
    requires
        !value.nan(),
        low.at_most(high),
    ensures
        low.at_most(value.clamped(low, high)),
        value.clamped(low, high).at_most(high),
{
}

} // verus!
