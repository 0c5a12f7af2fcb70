//! Probabilities as they travel: IEEE 754 doubles, held by their bits.

use vstd::prelude::*;

verus! {

/// A double-precision number, held by its bits.
#[derive(Clone, Copy, Debug, PartialEq, Eq, Structural)]
pub struct Score {
    pub bits: u64,
}

impl View for Score {
    type V = Score;

    open spec fn view(&self) -> Score {
        *self
    }
}

/// The bits of the double 0.
pub const ZERO_BITS: u64 = 0;

/// The bits of the double 1/2.
pub const HALF_BITS: u64 = 0x3FE0_0000_0000_0000;

/// The bits of the double 1.
pub const ONE_BITS: u64 = 0x3FF0_0000_0000_0000;

/// The bits of the negative zero, which is equal to zero.
pub const MINUS_ZERO_BITS: u64 = 0x8000_0000_0000_0000;

impl Score {
    /// Whether the number lies between 0 and 1. Doubles of positive sign are
    /// ordered as their bits are, with infinity and what is not a number above
    /// all finite ones.
    pub open spec fn probability(self) -> bool {
        self.bits <= ONE_BITS || self.bits == MINUS_ZERO_BITS
    }

    /// Whether the number lies between 0 and 1.
    pub fn is_probability(&self) -> (b: bool)
        ensures
            b == self.probability(),
    {
        self.bits <= ONE_BITS || self.bits == MINUS_ZERO_BITS
    }
}

/// The doubles between zero and one are those of positive sign up to one, and the
/// negative zero.
pub proof fn probabilities_by_their_bits(score: Score)
    ensures
        score.bits <= 0x3FF0_0000_0000_0000 ==> score.probability(),
        score.bits == 0x8000_0000_0000_0000 ==> score.probability(),
        score.probability() ==> score.bits <= 0x3FF0_0000_0000_0000 || score.bits
            == 0x8000_0000_0000_0000,
{
}

/// A number is seen as it is.
pub proof fn score_view_is_itself(score: Score)
    ensures
        score@.bits == score.bits,
{
}

} // verus!
