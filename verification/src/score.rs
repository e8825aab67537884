//! Relevance scores: double-precision numbers, held as their bit patterns.
use vstd::prelude::*;

verus! {

/// A double-precision number, as its bit pattern in the form of IEEE 754.
#[derive(Clone, Copy, Debug, PartialEq, Eq, Structural)]
pub struct Score {
    pub bits: u64,
}

/// The bits of zero.
pub const ZERO_BITS: u64 = 0;

/// The bits of one.
pub const ONE_BITS: u64 = 0x3ff0_0000_0000_0000;

/// The bits of ten.
pub const TEN_BITS: u64 = 0x4024_0000_0000_0000;

/// The bits of infinity.
pub const INFINITY_BITS: u64 = 0x7ff0_0000_0000_0000;

/// The bit that marks a negative number.
pub const SIGN_BIT: u64 = 0x8000_0000_0000_0000;

impl Score {
    /// The bits without the sign.
    pub open spec fn magnitude(self) -> int {
        if self.bits >= SIGN_BIT {
            self.bits - SIGN_BIT
        } else {
            self.bits as int
        }
    }

    /// Holds where the bits are no number.
    pub open spec fn is_nan(self) -> bool {
        self.magnitude() > INFINITY_BITS
    }

    /// A number by which scores are ordered: larger scores have larger ones, and the two zeros
    /// have the same.
    pub open spec fn rank(self) -> int {
        if self.bits >= SIGN_BIT {
            -self.magnitude()
        } else {
            self.magnitude()
        }
    }

    /// Holds where the score is at least the other. Nothing is comparable with what is no number.
    pub open spec fn at_least(self, other: Score) -> bool {
        !self.is_nan() && !other.is_nan() && self.rank() >= other.rank()
    }

    /// The bits without the sign.
    fn get_magnitude(&self) -> (r: u64)
        ensures
            r == self.magnitude(),
    {
        if self.bits >= SIGN_BIT {
            self.bits - SIGN_BIT
        } else {
            self.bits
        }
    }

    /// Tells whether the bits are no number.
    pub fn no_number(&self) -> (r: bool)
        ensures
            r == self.is_nan(),
    {
        self.get_magnitude() > INFINITY_BITS
    }

    /// A number by which scores are ordered.
    pub fn get_rank(&self) -> (r: i128)
        ensures
            r == self.rank(),
            -0x8000_0000_0000_0000 <= r <= 0x8000_0000_0000_0000,
    {
        let m = self.get_magnitude();
        if self.bits >= SIGN_BIT {
            -(m as i128)
        } else {
            m as i128
        }
    }

    /// Tells whether the score is at least the other.
    pub fn is_at_least(&self, other: &Score) -> (r: bool)
        ensures
            r == self.at_least(*other),
    {
        !self.no_number() && !other.no_number() && self.get_rank() >= other.get_rank()
    }
}

/// Of two scores that are numbers one is at least the other, and a score is at least itself.
pub proof fn law_scores_are_ordered(a: Score, b: Score, c: Score)
    requires
        !a.is_nan(),
        !b.is_nan(),
        !c.is_nan(),
    ensures
        a.at_least(a),
        a.at_least(b) || b.at_least(a),
        a.at_least(b) && b.at_least(c) ==> a.at_least(c),
{
}

/// Scores compare as the numbers that their bits stand for: among numbers that are not negative
/// the larger bits are the larger number, among negative ones the smaller bits are, and a negative
/// number is at least another only where both are zero. What is no number is comparable with
/// nothing.
pub proof fn law_scores_compare_as_numbers(a: Score, b: Score)
    ensures
        a.bits <= 0x7ff0_0000_0000_0000 && b.bits <= 0x7ff0_0000_0000_0000 ==> (a.at_least(b)
            <==> a.bits >= b.bits),
        0x8000_0000_0000_0000 <= a.bits <= 0xfff0_0000_0000_0000 && 0x8000_0000_0000_0000
            <= b.bits <= 0xfff0_0000_0000_0000 ==> (a.at_least(b) <==> a.bits <= b.bits),
        a.bits <= 0x7ff0_0000_0000_0000 && 0x8000_0000_0000_0000 <= b.bits
            <= 0xfff0_0000_0000_0000 ==> a.at_least(b) && (b.at_least(a) <==> a.bits == 0 && b.bits
            == 0x8000_0000_0000_0000),
        0x7ff0_0000_0000_0000 < a.bits < 0x8000_0000_0000_0000 || a.bits > 0xfff0_0000_0000_0000
            ==> !a.at_least(b) && !b.at_least(a),
        !a.is_nan() && !b.is_nan() ==> (a.at_least(b) <==> a.rank() >= b.rank()),
{
}

} // verus!
