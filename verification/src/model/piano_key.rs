//! The physical piano key a spelled pitch sounds: its chromatic class
//! and octave. Enharmonically equivalent spellings share one key.

use vstd::prelude::*;
use crate::model::pitch::{Accidental, NoteName, Pitch};
use crate::model::pitch::{accidental_offset, letter_semitone, pitch_semitone};

verus! {

/// The twelve semitone classes of an octave.
#[derive(Debug, Clone, Copy, PartialEq, Eq, Structural)]
pub enum ChromaticNoteName {
    C,
    CSharp,
    D,
    DSharp,
    E,
    F,
    FSharp,
    G,
    GSharp,
    A,
    ASharp,
    B,
}

/// Semitone offset of a chromatic class within its octave, from C.
pub open spec fn chromatic_semitone(c: ChromaticNoteName) -> int {
    match c {
        ChromaticNoteName::C => 0,
        ChromaticNoteName::CSharp => 1,
        ChromaticNoteName::D => 2,
        ChromaticNoteName::DSharp => 3,
        ChromaticNoteName::E => 4,
        ChromaticNoteName::F => 5,
        ChromaticNoteName::FSharp => 6,
        ChromaticNoteName::G => 7,
        ChromaticNoteName::GSharp => 8,
        ChromaticNoteName::A => 9,
        ChromaticNoteName::ASharp => 10,
        ChromaticNoteName::B => 11,
    }
}

/// Canonical physical-key identity: chromatic class plus octave.
#[derive(Debug, Clone, Copy, PartialEq, Eq, Structural)]
pub struct PianoKey {
    pub note_name: ChromaticNoteName,
    pub octave: u8,
}

/// Absolute semitone position of a piano key from C0.
pub open spec fn key_semitone(k: PianoKey) -> int {
    12 * (k.octave as int) + chromatic_semitone(k.note_name)
}

impl PianoKey {
    /// Resolve a spelled pitch to its physical key, correcting the
    /// octave when the accidental crosses an octave boundary (B sharp
    /// climbs into the next octave, C flat drops into the one below).
    pub fn from_pitch(pitch: &Pitch) -> (r: PianoKey)
        requires
            pitch_semitone(*pitch) >= 0,
            pitch_semitone(*pitch) <= 12 * 255 + 11,
        ensures
            key_semitone(r) == pitch_semitone(*pitch),
            r == spec_key_of(*pitch),
    {
        let (chromatic_note, octave_adjustment) =
            convert_to_chromatic_note_with_octave(pitch.note_name, pitch.accidental);

        let octave: u8 = if octave_adjustment < 0 {
            pitch.octave - 1
        } else if octave_adjustment > 0 {
            pitch.octave + 1
        } else {
            pitch.octave
        };
        let key = PianoKey { note_name: chromatic_note, octave };
        proof {
            lemma_spec_key_of_semitone(*pitch);
            lemma_enharmonic_same_key(key, spec_key_of(*pitch));
        }
        key
    }
}

/// Total map from spelled letter and accidental to chromatic class and
/// octave correction. Only B sharp and C flat (and their double-accidental
/// analogues) cross an octave boundary.
pub fn convert_to_chromatic_note_with_octave(
    note_name: NoteName,
    accidental: Accidental,
) -> (r: (ChromaticNoteName, i8))
    ensures
        chromatic_semitone(r.0) + 12 * (r.1 as int)
            == letter_semitone(note_name) + accidental_offset(accidental),
        -1 <= r.1 <= 1,
{
    match (note_name, accidental) {
        (NoteName::C, Accidental::DoubleFlat) => (ChromaticNoteName::ASharp, -1),
        (NoteName::C, Accidental::Flat) => (ChromaticNoteName::B, -1),
        (NoteName::C, Accidental::Natural) => (ChromaticNoteName::C, 0),
        (NoteName::C, Accidental::Sharp) => (ChromaticNoteName::CSharp, 0),
        (NoteName::C, Accidental::DoubleSharp) => (ChromaticNoteName::D, 0),
        (NoteName::D, Accidental::DoubleFlat) => (ChromaticNoteName::C, 0),
        (NoteName::D, Accidental::Flat) => (ChromaticNoteName::CSharp, 0),
        (NoteName::D, Accidental::Natural) => (ChromaticNoteName::D, 0),
        (NoteName::D, Accidental::Sharp) => (ChromaticNoteName::DSharp, 0),
        (NoteName::D, Accidental::DoubleSharp) => (ChromaticNoteName::E, 0),
        (NoteName::E, Accidental::DoubleFlat) => (ChromaticNoteName::D, 0),
        (NoteName::E, Accidental::Flat) => (ChromaticNoteName::DSharp, 0),
        (NoteName::E, Accidental::Natural) => (ChromaticNoteName::E, 0),
        (NoteName::E, Accidental::Sharp) => (ChromaticNoteName::F, 0),
        (NoteName::E, Accidental::DoubleSharp) => (ChromaticNoteName::FSharp, 0),
        (NoteName::F, Accidental::DoubleFlat) => (ChromaticNoteName::DSharp, 0),
        (NoteName::F, Accidental::Flat) => (ChromaticNoteName::E, 0),
        (NoteName::F, Accidental::Natural) => (ChromaticNoteName::F, 0),
        (NoteName::F, Accidental::Sharp) => (ChromaticNoteName::FSharp, 0),
        (NoteName::F, Accidental::DoubleSharp) => (ChromaticNoteName::G, 0),
        (NoteName::G, Accidental::DoubleFlat) => (ChromaticNoteName::F, 0),
        (NoteName::G, Accidental::Flat) => (ChromaticNoteName::FSharp, 0),
        (NoteName::G, Accidental::Natural) => (ChromaticNoteName::G, 0),
        (NoteName::G, Accidental::Sharp) => (ChromaticNoteName::GSharp, 0),
        (NoteName::G, Accidental::DoubleSharp) => (ChromaticNoteName::A, 0),
        (NoteName::A, Accidental::DoubleFlat) => (ChromaticNoteName::G, 0),
        (NoteName::A, Accidental::Flat) => (ChromaticNoteName::GSharp, 0),
        (NoteName::A, Accidental::Natural) => (ChromaticNoteName::A, 0),
        (NoteName::A, Accidental::Sharp) => (ChromaticNoteName::ASharp, 0),
        (NoteName::A, Accidental::DoubleSharp) => (ChromaticNoteName::B, 0),
        (NoteName::B, Accidental::DoubleFlat) => (ChromaticNoteName::A, 0),
        (NoteName::B, Accidental::Flat) => (ChromaticNoteName::ASharp, 0),
        (NoteName::B, Accidental::Natural) => (ChromaticNoteName::B, 0),
        (NoteName::B, Accidental::Sharp) => (ChromaticNoteName::C, 1),
        (NoteName::B, Accidental::DoubleSharp) => (ChromaticNoteName::CSharp, 1),
    }
}

/// The chromatic class at a semitone offset within the octave.
pub open spec fn chromatic_of_index(i: int) -> ChromaticNoteName
    recommends 0 <= i < 12,
{
    if i == 0 {
        ChromaticNoteName::C
    } else if i == 1 {
        ChromaticNoteName::CSharp
    } else if i == 2 {
        ChromaticNoteName::D
    } else if i == 3 {
        ChromaticNoteName::DSharp
    } else if i == 4 {
        ChromaticNoteName::E
    } else if i == 5 {
        ChromaticNoteName::F
    } else if i == 6 {
        ChromaticNoteName::FSharp
    } else if i == 7 {
        ChromaticNoteName::G
    } else if i == 8 {
        ChromaticNoteName::GSharp
    } else if i == 9 {
        ChromaticNoteName::A
    } else if i == 10 {
        ChromaticNoteName::ASharp
    } else {
        ChromaticNoteName::B
    }
}

/// The piano key a spelled pitch sounds, at the specification level:
/// octave and chromatic class of its absolute semitone position.
pub open spec fn spec_key_of(p: Pitch) -> PianoKey {
    PianoKey {
        note_name: chromatic_of_index(pitch_semitone(p) % 12),
        octave: (pitch_semitone(p) / 12) as u8,
    }
}

/// For pitches in the key range, `spec_key_of` sounds at the pitch's
/// own semitone position.
pub proof fn lemma_spec_key_of_semitone(p: Pitch)
    requires
        0 <= pitch_semitone(p) <= 12 * 255 + 11,
    ensures
        key_semitone(spec_key_of(p)) == pitch_semitone(p),
{
    let sem = pitch_semitone(p);
    assert(0 <= sem % 12 < 12);
    assert(chromatic_semitone(chromatic_of_index(sem % 12)) == sem % 12);
    assert(0 <= sem / 12 <= 255);
    assert(12 * (sem / 12) + sem % 12 == sem);
}

/// Enharmonic equivalence: two spelled pitches at the same absolute
/// semitone position resolve to the same piano key.
pub proof fn lemma_enharmonic_same_key(a: PianoKey, b: PianoKey)
    requires
        key_semitone(a) == key_semitone(b),
    ensures
        a == b,
{
    assert(chromatic_semitone(a.note_name) < 12 && chromatic_semitone(a.note_name) >= 0);
    assert(chromatic_semitone(b.note_name) < 12 && chromatic_semitone(b.note_name) >= 0);
    assert(a.octave == b.octave);
    assert(chromatic_semitone(a.note_name) == chromatic_semitone(b.note_name));
    assert(a.note_name == b.note_name);
}

} // verus!
