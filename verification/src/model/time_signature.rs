//! A time signature: beats per measure over the beat unit.

use vstd::prelude::*;

verus! {

/// `numerator / denominator`, e.g. 3 over 4 for a waltz. Both components
/// are positive; the denominator is kept for bookkeeping only and takes
/// no part in duration arithmetic.
#[derive(Debug, Clone, Copy, PartialEq, Eq, Structural)]
pub struct TimeSignature {
    pub numerator: u32,
    pub denominator: u32,
}

impl TimeSignature {
    /// Both components positive.
    pub open spec fn well_formed(&self) -> bool {
        self.numerator >= 1 && self.denominator >= 1
    }

    pub fn new(numerator: u32, denominator: u32) -> (r: TimeSignature)
        requires
            numerator >= 1,
            denominator >= 1,
        ensures
            r == (TimeSignature { numerator, denominator }),
            r.well_formed(),
    {
        TimeSignature { numerator, denominator }
    }

    /// How many beats one measure holds: the numerator.
    pub fn beats_per_measure(&self) -> (r: u32)
        ensures
            r == self.numerator,
    {
        self.numerator
    }
}

} // verus!
