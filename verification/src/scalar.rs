//! Double-precision values carried by their IEEE 754 bit pattern.
//!
//! Order, sign and classification are decided here, on the pattern alone.
//! Rounded arithmetic is not: it comes from a [`crate::kernel::Kernel`].

use vstd::prelude::*;

verus! {

/// The sign bit of a pattern.
pub const SIGN_BIT: u64 = 0x8000_0000_0000_0000;

/// The pattern of positive zero.
pub const ZERO: u64 = 0;

/// The pattern of one.
pub const ONE: u64 = 0x3ff0_0000_0000_0000;

/// The pattern of two.
pub const TWO: u64 = 0x4000_0000_0000_0000;

/// The pattern of positive infinity; a larger magnitude is not a number.
pub const INFINITY: u64 = 0x7ff0_0000_0000_0000;

/// The pattern of negative infinity.
pub const NEG_INFINITY: u64 = 0xfff0_0000_0000_0000;

/// A binary64 value, held as its bit pattern.
#[derive(Clone, Copy, PartialEq, Eq, Structural, Debug)]
pub struct Scalar {
    pub bits: u64,
}

impl Scalar {
    /// The pattern without its sign bit.
    pub open spec fn magnitude(self) -> int {
        if self.bits >= SIGN_BIT {
            self.bits - SIGN_BIT
        } else {
            self.bits as int
        }
    }

    /// Whether the value is not a number.
    pub open spec fn nan(self) -> bool {
        self.magnitude() > INFINITY
    }

    /// Whether the value is neither infinite nor a NaN.
    pub open spec fn finite(self) -> bool {
        self.magnitude() < INFINITY
    }

    /// Place of a number on the extended real line; the two zeros share one.
    pub open spec fn rank(self) -> int {
        if self.bits >= SIGN_BIT {
            -self.magnitude()
        } else {
            self.magnitude()
        }
    }

    /// Place in the total order of patterns, where negative zero precedes
    /// positive zero and a NaN lies beyond the infinity of its sign.
    pub open spec fn total_rank(self) -> int {
        if self.bits >= SIGN_BIT {
            -self.magnitude() - 1
        } else {
            self.magnitude()
        }
    }

    /// `self < other` as numbers; a NaN compares with nothing.
    pub open spec fn below(self, other: Scalar) -> bool {
        !self.nan() && !other.nan() && self.rank() < other.rank()
    }

    /// `self <= other` as numbers; a NaN compares with nothing.
    pub open spec fn at_most(self, other: Scalar) -> bool {
        !self.nan() && !other.nan() && self.rank() <= other.rank()
    }

    /// The value without its sign.
    pub open spec fn unsigned(self) -> Scalar {
        if self.bits >= SIGN_BIT {
            Scalar { bits: (self.bits - SIGN_BIT) as u64 }
        } else {
            self
        }
    }

    /// The value with its sign flipped.
    pub open spec fn negated(self) -> Scalar {
        if self.bits >= SIGN_BIT {
            Scalar { bits: (self.bits - SIGN_BIT) as u64 }
        } else {
            Scalar { bits: (self.bits + SIGN_BIT) as u64 }
        }
    }

    /// The smaller of two values, a NaN giving way to the other one.
    pub open spec fn lesser(self, other: Scalar) -> Scalar {
        if self.nan() || other.below(self) {
            other
        } else {
            self
        }
    }

    /// The larger of two values, a NaN giving way to the other one.
    pub open spec fn greater(self, other: Scalar) -> Scalar {
        if self.nan() || self.below(other) {
            other
        } else {
            self
        }
    }

    /// Whether the value is not a number.
    pub fn is_nan(self) -> (r: bool)
        ensures
            r == self.nan(),
    {
        self.abs().bits > INFINITY
    }

    /// Whether the value is neither infinite nor a NaN.
    pub fn is_finite(self) -> (r: bool)
        ensures
            r == self.finite(),
    {
        self.abs().bits < INFINITY
    }

    /// The value without its sign.
    pub fn abs(self) -> (r: Scalar)
        ensures
            r == self.unsigned(),
            r.bits == self.magnitude(),
    {
        if self.bits >= SIGN_BIT {
            Scalar { bits: self.bits - SIGN_BIT }
        } else {
            self
        }
    }

    /// The value with its sign flipped.
    pub fn neg(self) -> (r: Scalar)
        ensures
            r == self.negated(),
    {
        if self.bits >= SIGN_BIT {
            Scalar { bits: self.bits - SIGN_BIT }
        } else {
            Scalar { bits: self.bits + SIGN_BIT }
        }
    }

    fn signed_magnitude(self) -> (r: i64)
        ensures
            r == self.rank(),
    {
        if self.bits >= SIGN_BIT {
            -((self.bits - SIGN_BIT) as i64)
        } else {
            self.bits as i64
        }
    }

    /// `self < other` as numbers.
    pub fn lt(self, other: Scalar) -> (r: bool)
        ensures
            r == self.below(other),
    {
        !self.is_nan() && !other.is_nan() && self.signed_magnitude() < other.signed_magnitude()
    }

    /// `self <= other` as numbers.
    pub fn le(self, other: Scalar) -> (r: bool)
        ensures
            r == self.at_most(other),
    {
        !self.is_nan() && !other.is_nan() && self.signed_magnitude() <= other.signed_magnitude()
    }

    /// Whether `self` strictly precedes `other` in the total order of patterns.
    pub fn total_lt(self, other: Scalar) -> (r: bool)
        ensures
            r == (self.total_rank() < other.total_rank()),
    {
        if self.bits >= SIGN_BIT {
            if other.bits >= SIGN_BIT {
                self.bits > other.bits
            } else {
                true
            }
        } else {
            other.bits < SIGN_BIT && self.bits < other.bits
        }
    }

    /// The smaller of two values, a NaN giving way to the other one.
    pub fn min(self, other: Scalar) -> (r: Scalar)
        ensures
            r == self.lesser(other),
    {
        if self.is_nan() || other.lt(self) {
            other
        } else {
            self
        }
    }

    /// The larger of two values, a NaN giving way to the other one.
    pub fn max(self, other: Scalar) -> (r: Scalar)
        ensures
            r == self.greater(other),
    {
        if self.is_nan() || self.lt(other) {
            other
        } else {
            self
        }
    }
}

/// The order of numbers is total: of two values that are not NaNs exactly one
/// of `a < b` and `b <= a` holds.
pub proof fn order_is_total(a: Scalar, b: Scalar)
    requires
        !a.nan(),
        !b.nan(),
    ensures
        a.below(b) <==> !b.at_most(a),
{
}

/// The order of numbers is transitive.
pub proof fn order_is_transitive(a: Scalar, b: Scalar, c: Scalar)
    requires
        a.at_most(b),
        b.at_most(c),
    ensures
        a.at_most(c),
        a.below(b) || b.below(c) ==> a.below(c),
{
}

/// The total order tells every two patterns apart and agrees with the order of
/// numbers wherever that one decides.
pub proof fn total_order_refines(a: Scalar, b: Scalar)
    ensures
        a.total_rank() == b.total_rank() ==> a == b,
        a.below(b) ==> a.total_rank() < b.total_rank(),
{
}

} // verus!
