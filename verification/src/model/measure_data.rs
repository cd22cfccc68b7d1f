//! The record the extraction pass emits for each measure.

use vstd::prelude::*;
use crate::model::pitch::pitch_semitone;
use crate::model::pitch_set::PitchSet;
use crate::model::time_signature::TimeSignature;
use crate::rational::{frac_eq, spec_normalize, Rational};

verus! {

/// One measure's extracted data: how many pitched notes sounded, the
/// tempo and time signature in force, and the set of distinct spelled
/// pitches.
#[derive(Debug, PartialEq)]
pub struct MeasureData {
    pub note_count: u32,
    pub tempo_bpm: Rational,
    pub time_signature: TimeSignature,
    pub pitches: PitchSet,
}

impl MeasureData {
    /// The data-model invariant: a positive tempo, a positive time
    /// signature, a duplicate-free pitch set whose members lie in the
    /// piano-key range.
    pub open spec fn well_formed(&self) -> bool {
        &&& self.tempo_bpm.well_formed()
        &&& self.tempo_bpm@.0 > 0
        &&& self.time_signature.well_formed()
        &&& self.pitches.well_formed()
        &&& forall|p| self.pitches@.contains(p)
            ==> 0 <= #[trigger] pitch_semitone(p) <= 12 * 255 + 11
    }

    /// The measure's duration in seconds as a specification fraction:
    /// `(60 / tempo) * beats`, i.e. `60 * beats * tempo_den / tempo_num`.
    pub open spec fn duration_frac(&self) -> (int, int) {
        (60 * (self.time_signature.numerator as int) * self.tempo_bpm@.1, self.tempo_bpm@.0)
    }

    /// The measure's note density in notes per second as a specification
    /// fraction: `note_count / duration`.
    pub open spec fn density_frac(&self) -> (int, int) {
        (
            (self.note_count as int) * self.tempo_bpm@.0,
            60 * (self.time_signature.numerator as int) * self.tempo_bpm@.1,
        )
    }

    /// Seconds one measure lasts: seconds per beat (`60 / tempo`) times
    /// beats per measure. `None` only when the exact value cannot be
    /// represented.
    pub fn get_measure_duration_seconds(&self) -> (r: Option<Rational>)
        requires
            self.well_formed(),
        ensures
            r is Some <==> spec_normalize(self.duration_frac()) is Some,
            r matches Some(q) ==> q.well_formed() && q@.0 > 0 && frac_eq(
                q@,
                self.duration_frac(),
            ) && q@ == spec_normalize(self.duration_frac()).unwrap(),
    {
        let beats: u32 = self.time_signature.beats_per_measure();
        let sixty_beats: i64 = 60 * (beats as i64);
        let numerator = Rational::from_int(sixty_beats);
        let r = numerator.checked_div(&self.tempo_bpm);
        proof {
            assert(crate::rational::frac_div(numerator@, self.tempo_bpm@)
                == self.duration_frac());
            if r is Some {
                crate::rational::lemma_norm_frac(
                    self.duration_frac().0,
                    self.duration_frac().1,
                );
                assert(self.duration_frac().0 > 0) by (nonlinear_arith)
                    requires
                        self.duration_frac().0 == 60 * (self.time_signature.numerator as int)
                            * self.tempo_bpm@.1,
                        self.time_signature.numerator >= 1,
                        self.tempo_bpm@.1 >= 1,
                {}
            }
        }
        r
    }
}

} // verus!
