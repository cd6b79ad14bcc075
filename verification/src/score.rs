//! Scores: IEEE 754 double-precision numbers, by their bits.
//!
//! A score is worked out by the host in floating point. Here it is stored,
//! handed on and compared, for which the bits are enough.
use vstd::prelude::*;

verus! {

/// A double-precision number, as the host's `f64::to_bits` gives it.
#[derive(Clone, Copy, Debug, PartialEq, Eq, Structural)]
pub struct Score {
    pub bits: u64,
}

/// The sign bit.
pub const SIGN: u64 = 0x8000_0000_0000_0000;

/// The bits of positive infinity.
pub const INFINITY: u64 = 0x7ff0_0000_0000_0000;

impl Score {
    /// The bits without the sign.
    pub open spec fn magnitude(self) -> int {
        if self.bits >= SIGN {
            self.bits - SIGN
        } else {
            self.bits as int
        }
    }

    /// Not a number.
    pub open spec fn nan(self) -> bool {
        self.magnitude() > INFINITY
    }

    /// A number that is not infinite.
    pub open spec fn finite(self) -> bool {
        self.magnitude() < INFINITY
    }

    /// Where the number stands among all numbers; both zeros stand at 0.
    pub open spec fn rank(self) -> int {
        if self.bits >= SIGN {
            -self.magnitude()
        } else {
            self.magnitude()
        }
    }

    /// `self <= other`, as floating point has it.
    pub open spec fn le(self, other: Score) -> bool {
        !self.nan() && !other.nan() && self.rank() <= other.rank()
    }

    /// `self > 0.0`, as floating point has it.
    pub open spec fn positive(self) -> bool {
        !self.nan() && self.rank() > 0
    }

    /// The score 0.0.
    pub open spec fn nil() -> Score {
        Score { bits: 0 }
    }

    /// The score 0.0.
    pub fn zero() -> (r: Score)
        ensures
            r == Score::nil(),
    {
        Score { bits: 0 }
    }

    fn unsigned(self) -> (r: u64)
        ensures
            r == self.magnitude(),
    {
        if self.bits >= SIGN {
            self.bits - SIGN
        } else {
            self.bits
        }
    }

    /// Whether this is not a number.
    pub fn is_nan(self) -> (r: bool)
        ensures
            r == self.nan(),
    {
        self.unsigned() > INFINITY
    }

    /// `self <= other`; never so where either is not a number.
    pub fn at_most(self, other: Score) -> (r: bool)
        ensures
            r == self.le(other),
    {
        if self.is_nan() || other.is_nan() {
            return false;
        }
        let a: u64 = self.unsigned();
        let b: u64 = other.unsigned();
        if self.bits >= SIGN {
            if other.bits >= SIGN {
                b <= a
            } else {
                true
            }
        } else if other.bits >= SIGN {
            a == 0 && b == 0
        } else {
            a <= b
        }
    }

    /// `self > 0.0`; not so where this is not a number.
    pub fn is_positive(self) -> (r: bool)
        ensures
            r == self.positive(),
    {
        self.bits < SIGN && self.bits != 0 && !self.is_nan()
    }
}

/// Scores that are numbers are in a line: of any two one is at most the other,
/// and the order carries over.
pub proof fn law_scores_are_ordered(a: Score, b: Score, c: Score)
    requires
        !a.nan(),
        !b.nan(),
        !c.nan(),
    ensures
        a.le(a),
        a.le(b) || b.le(a),
        a.le(b) && b.le(c) ==> a.le(c),
{
}

/// Numbers without a sign are ordered as their bits are, numbers with one the
/// other way round, and a number with a sign is at most any without; the two
/// zeros are at most each other. What is not a number is at most nothing, and
/// nothing is at most it.
pub proof fn law_order_is_by_bits(a: Score, b: Score)
    ensures
        a.bits <= 0x7ff0_0000_0000_0000 && b.bits <= 0x7ff0_0000_0000_0000 ==> (a.le(b)
            <==> a.bits <= b.bits),
        0x8000_0000_0000_0000 <= a.bits <= 0xfff0_0000_0000_0000 && 0x8000_0000_0000_0000 <= b.bits
            <= 0xfff0_0000_0000_0000 ==> (a.le(b) <==> a.bits >= b.bits),
        0x8000_0000_0000_0000 <= a.bits <= 0xfff0_0000_0000_0000 && b.bits <= 0x7ff0_0000_0000_0000
            ==> a.le(b) && (b.le(a) <==> a.bits == 0x8000_0000_0000_0000 && b.bits == 0),
        a.nan() <==> 0x7ff0_0000_0000_0000 < a.bits < 0x8000_0000_0000_0000 || a.bits
            > 0xfff0_0000_0000_0000,
        a.nan() ==> !a.le(b) && !b.le(a),
        a.positive() <==> 0 < a.bits <= 0x7ff0_0000_0000_0000,
        a.finite() <==> a.bits < 0x7ff0_0000_0000_0000 || 0x8000_0000_0000_0000 <= a.bits
            < 0xfff0_0000_0000_0000,
        Score::nil().bits == 0,
{
}

} // verus!
