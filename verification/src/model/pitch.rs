//! A spelled pitch: letter name, octave and accidental.

use vstd::prelude::*;

verus! {

/// The seven letter names of Western notation.
#[derive(Debug, Clone, Copy, PartialEq, Eq, Structural)]
pub enum NoteName {
    C,
    D,
    E,
    F,
    G,
    A,
    B,
}

/// Accidentals from double flat to double sharp.
#[derive(Debug, Clone, Copy, PartialEq, Eq, Structural)]
pub enum Accidental {
    DoubleFlat,
    Flat,
    Natural,
    Sharp,
    DoubleSharp,
}

/// A spelled pitch. Equality is exact spelled identity: C sharp and
/// D flat are different `Pitch` values even though they sound alike.
#[derive(Debug, Clone, Copy, PartialEq, Eq, Structural)]
pub struct Pitch {
    pub note_name: NoteName,
    pub octave: u8,
    pub accidental: Accidental,
}

impl Pitch {
    pub fn new(note_name: NoteName, octave: u8, accidental: Accidental) -> (r: Pitch)
        ensures
            r == (Pitch { note_name, octave, accidental }),
    {
        Pitch { note_name, octave, accidental }
    }
}

/// Semitone offset of a letter name within its octave, from C.
pub open spec fn letter_semitone(n: NoteName) -> int {
    match n {
        NoteName::C => 0,
        NoteName::D => 2,
        NoteName::E => 4,
        NoteName::F => 5,
        NoteName::G => 7,
        NoteName::A => 9,
        NoteName::B => 11,
    }
}

/// Semitone shift an accidental applies.
pub open spec fn accidental_offset(a: Accidental) -> int {
    match a {
        Accidental::DoubleFlat => -2,
        Accidental::Flat => -1,
        Accidental::Natural => 0,
        Accidental::Sharp => 1,
        Accidental::DoubleSharp => 2,
    }
}

/// Absolute semitone position of a spelled pitch from C0.
pub open spec fn pitch_semitone(p: Pitch) -> int {
    12 * (p.octave as int) + letter_semitone(p.note_name) + accidental_offset(p.accidental)
}

} // verus!
