//! The note-density summary of a piece.

use vstd::prelude::*;
use crate::rational::Rational;

verus! {

/// Density metrics of one piece: the duration-weighted average and the
/// peak of notes per second, the 1-based index of the first measure
/// reaching the peak (0 only when there are no measures), and the
/// total note count.
#[derive(Debug, PartialEq)]
pub struct DensityMetrics {
    pub average_notes_per_second: Rational,
    pub peak_notes_per_second: Rational,
    pub peak_measure: u32,
    pub total_note_count: u32,
}

} // verus!
