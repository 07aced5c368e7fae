//! Real numbers as the model stores them: binary64 patterns.
//!
//! The library stores, compares and hands on real numbers; it computes none.
//! A pattern orders as its sign and magnitude say, a NaN is ordered against
//! nothing, and the two zeros are equal.

use vstd::prelude::*;

verus! {

/// The pattern of the sign alone.
pub const SIGN: u64 = 0x8000_0000_0000_0000;

/// The magnitude of infinity; any larger magnitude is a NaN.
pub const INFINITY: u64 = 0x7FF0_0000_0000_0000;

/// A real number by its binary64 pattern.
#[derive(Clone, Copy, Debug, PartialEq, Eq, Structural)]
pub struct Real {
    /// The pattern.
    pub bits: u64,
}

impl Real {
    /// The pattern without its sign.
    pub open spec fn magnitude(self) -> int {
        if self.bits >= SIGN {
            self.bits - SIGN
        } else {
            self.bits as int
        }
    }

    /// Where the number stands among all others; equal for the two zeros.
    pub open spec fn rank(self) -> int {
        if self.bits >= SIGN {
            -self.magnitude()
        } else {
            self.magnitude()
        }
    }

    /// Whether the pattern is not a number.
    pub open spec fn nan(self) -> bool {
        self.magnitude() > INFINITY
    }

    /// Whether the first is below the second.
    pub open spec fn below(self, other: Real) -> bool {
        !self.nan() && !other.nan() && self.rank() < other.rank()
    }

    /// Whether the first is below or equal to the second.
    pub open spec fn at_most(self, other: Real) -> bool {
        !self.nan() && !other.nan() && self.rank() <= other.rank()
    }

    /// The number with a given pattern.
    pub fn from_bits(bits: u64) -> (r: Real)
        ensures
            r.bits == bits,
    {
        Real { bits }
    }

    /// Whether the pattern is not a number.
    pub fn is_nan(self) -> (r: bool)
        ensures
            r == self.nan(),
    {
        let magnitude: u64 = if self.bits >= SIGN {
            self.bits - SIGN
        } else {
            self.bits
        };
        magnitude > INFINITY
    }

    /// `<`.
    pub fn lt(self, other: Real) -> (r: bool)
        ensures
            r == self.below(other),
    {
        if self.is_nan() || other.is_nan() {
            return false;
        }
        if self.bits >= SIGN {
            if other.bits >= SIGN {
                self.bits > other.bits
            } else {
                self.bits > SIGN || other.bits > 0
            }
        } else {
            other.bits < SIGN && self.bits < other.bits
        }
    }

    /// `<=`.
    pub fn le(self, other: Real) -> (r: bool)
        ensures
            r == self.at_most(other),
    {
        !self.is_nan() && !other.is_nan() && !other.lt(self)
    }

    /// `>`.
    pub fn gt(self, other: Real) -> (r: bool)
        ensures
            r == other.below(self),
    {
        other.lt(self)
    }

    /// `>=`.
    pub fn ge(self, other: Real) -> (r: bool)
        ensures
            r == other.at_most(self),
    {
        other.le(self)
    }

    /// The number with the opposite sign.
    pub open spec fn negated(self) -> Real {
        if self.bits >= SIGN {
            Real { bits: (self.bits - SIGN) as u64 }
        } else {
            Real { bits: (self.bits + SIGN) as u64 }
        }
    }

    /// Unary `-`.
    pub fn neg(self) -> (r: Real)
        ensures
            r == self.negated(),
            r.rank() == -self.rank(),
            r.nan() == self.nan(),
    {
        if self.bits >= SIGN {
            Real { bits: self.bits - SIGN }
        } else {
            Real { bits: self.bits + SIGN }
        }
    }

    /// The number without its sign.
    pub open spec fn unsigned(self) -> Real {
        Real { bits: self.magnitude() as u64 }
    }

    /// The absolute value.
    pub fn abs(self) -> (r: Real)
        ensures
            r == self.unsigned(),
            r.rank() == (if self.rank() < 0 {
                -self.rank()
            } else {
                self.rank()
            }),
            r.nan() == self.nan(),
    {
        if self.bits >= SIGN {
            Real { bits: self.bits - SIGN }
        } else {
            self
        }
    }
}

/// The larger of two numbers; a NaN yields to the other.
pub open spec fn larger(a: Real, b: Real) -> Real {
    if a.nan() || a.below(b) {
        b
    } else {
        a
    }
}

/// The smaller of two numbers; a NaN yields to the other.
pub open spec fn smaller(a: Real, b: Real) -> Real {
    if a.nan() || b.below(a) {
        b
    } else {
        a
    }
}

/// The larger of two numbers.
pub fn max(a: Real, b: Real) -> (r: Real)
    ensures
        r == larger(a, b),
{
    if a.is_nan() || a.lt(b) {
        b
    } else {
        a
    }
}

/// The smaller of two numbers.
pub fn min(a: Real, b: Real) -> (r: Real)
    ensures
        r == smaller(a, b),
{
    if a.is_nan() || b.lt(a) {
        b
    } else {
        a
    }
}

/// Clamp `v` into `[lo, hi]`.
pub fn clamp(v: Real, lo: Real, hi: Real) -> (r: Real)
    ensures
        r == smaller(larger(v, lo), hi),
        !lo.nan() && !hi.nan() && lo.at_most(hi) ==> lo.at_most(r) && r.at_most(hi),
{
    let raised = if v.is_nan() || v.lt(lo) {
        lo
    } else {
        v
    };
    if raised.is_nan() || hi.lt(raised) {
        hi
    } else {
        raised
    }
}

/// The order on numbers is a strict order whose incomparable numbers are equal
/// in rank: exactly one of below, above and equal holds, and it carries over.
pub proof fn law_real_order(a: Real, b: Real, c: Real)
    requires
        !a.nan(),
        !b.nan(),
        !c.nan(),
    ensures
        !a.below(a),
        a.below(b) || b.below(a) || a.rank() == b.rank(),
        !(a.below(b) && b.below(a)),
        a.below(b) && b.below(c) ==> a.below(c),
        a.at_most(b) <==> !b.below(a),
        a.below(b) <==> b.negated().below(a.negated()),
{
}

/// Of two numbers the larger is one of them and not below either, the smaller is
/// one of them and neither is below it; a NaN yields to the other.
pub proof fn law_larger_and_smaller(a: Real, b: Real)
    ensures
        larger(a, b) == a || larger(a, b) == b,
        smaller(a, b) == a || smaller(a, b) == b,
        !a.nan() && !b.nan() ==> a.at_most(larger(a, b)) && b.at_most(larger(a, b)) && smaller(
            a,
            b,
        ).at_most(a) && smaller(a, b).at_most(b),
        a.nan() ==> larger(a, b) == b && smaller(a, b) == b,
        b.nan() && !a.nan() ==> larger(a, b) == a && smaller(a, b) == a,
{
}

/// The sign of a number is that of its rank: a number is its absolute value or
/// the negation of it, negating twice changes nothing, and zero is its own
/// negation in rank.
pub proof fn law_signs(a: Real)
    ensures
        a.negated().negated() == a,
        a.unsigned() == a || a.unsigned() == a.negated(),
        !a.unsigned().below(Real { bits: 0 }),
        !a.nan() ==> (Real { bits: 0 }).at_most(a.unsigned()) && a.at_most(a.unsigned()),
        a.nan() <==> !a.at_most(a),
        (Real { bits: 0 }).rank() == (Real { bits: 0 }).negated().rank(),
{
}

} // verus!
