//! The pitch-diversity summary of a piece.

use vstd::prelude::*;

verus! {

/// How many distinct spelled pitches a piece uses, and how many
/// distinct physical piano keys they collapse to.
#[derive(Debug, Clone, Copy, PartialEq, Eq, Structural)]
pub struct DiversityMetrics {
    pub total_unique_pitches: u32,
    pub total_unique_keys: u32,
}

} // verus!
