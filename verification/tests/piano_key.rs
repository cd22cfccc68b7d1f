use musicxml_analysis::model::{Accidental, ChromaticNoteName, NoteName, PianoKey, Pitch};

fn key_of(note_name: NoteName, octave: u8, accidental: Accidental) -> PianoKey {
    PianoKey::from_pitch(&Pitch::new(note_name, octave, accidental))
}

fn assert_key(
    note_name: NoteName,
    octave: u8,
    accidental: Accidental,
    expected_chromatic: ChromaticNoteName,
    expected_octave: u8,
) {
    let piano_key = key_of(note_name, octave, accidental);
    assert_eq!(piano_key.note_name, expected_chromatic);
    assert_eq!(piano_key.octave, expected_octave);
}

#[test]
fn test_piano_key_naturals() {
    assert_key(NoteName::C, 4, Accidental::Natural, ChromaticNoteName::C, 4);
    assert_key(NoteName::D, 4, Accidental::Natural, ChromaticNoteName::D, 4);
    assert_key(NoteName::E, 4, Accidental::Natural, ChromaticNoteName::E, 4);
    assert_key(NoteName::F, 4, Accidental::Natural, ChromaticNoteName::F, 4);
    assert_key(NoteName::G, 4, Accidental::Natural, ChromaticNoteName::G, 4);
    assert_key(NoteName::A, 4, Accidental::Natural, ChromaticNoteName::A, 4);
    assert_key(NoteName::B, 4, Accidental::Natural, ChromaticNoteName::B, 4);
}

#[test]
fn test_piano_key_sharps() {
    assert_key(NoteName::C, 4, Accidental::Sharp, ChromaticNoteName::CSharp, 4);
    assert_key(NoteName::D, 4, Accidental::Sharp, ChromaticNoteName::DSharp, 4);
    assert_key(NoteName::F, 4, Accidental::Sharp, ChromaticNoteName::FSharp, 4);
    assert_key(NoteName::G, 4, Accidental::Sharp, ChromaticNoteName::GSharp, 4);
    assert_key(NoteName::A, 4, Accidental::Sharp, ChromaticNoteName::ASharp, 4);
}

#[test]
fn test_piano_key_flats() {
    assert_key(NoteName::D, 4, Accidental::Flat, ChromaticNoteName::CSharp, 4);
    assert_key(NoteName::E, 4, Accidental::Flat, ChromaticNoteName::DSharp, 4);
    assert_key(NoteName::G, 4, Accidental::Flat, ChromaticNoteName::FSharp, 4);
    assert_key(NoteName::A, 4, Accidental::Flat, ChromaticNoteName::GSharp, 4);
    assert_key(NoteName::B, 4, Accidental::Flat, ChromaticNoteName::ASharp, 4);
}

#[test]
fn test_piano_key_octave_boundaries() {
    assert_key(NoteName::B, 4, Accidental::Sharp, ChromaticNoteName::C, 5);
    assert_key(NoteName::C, 4, Accidental::Flat, ChromaticNoteName::B, 3);
    assert_key(NoteName::E, 4, Accidental::Sharp, ChromaticNoteName::F, 4);
    assert_key(NoteName::F, 4, Accidental::Flat, ChromaticNoteName::E, 4);
}

#[test]
fn test_piano_key_double_sharps() {
    assert_key(NoteName::C, 4, Accidental::DoubleSharp, ChromaticNoteName::D, 4);
    assert_key(NoteName::D, 4, Accidental::DoubleSharp, ChromaticNoteName::E, 4);
    assert_key(NoteName::E, 4, Accidental::DoubleSharp, ChromaticNoteName::FSharp, 4);
    assert_key(NoteName::F, 4, Accidental::DoubleSharp, ChromaticNoteName::G, 4);
    assert_key(NoteName::G, 4, Accidental::DoubleSharp, ChromaticNoteName::A, 4);
    assert_key(NoteName::A, 4, Accidental::DoubleSharp, ChromaticNoteName::B, 4);
    assert_key(NoteName::B, 4, Accidental::DoubleSharp, ChromaticNoteName::CSharp, 5);
}

#[test]
fn test_piano_key_double_flats() {
    assert_key(NoteName::C, 4, Accidental::DoubleFlat, ChromaticNoteName::ASharp, 3);
    assert_key(NoteName::D, 4, Accidental::DoubleFlat, ChromaticNoteName::C, 4);
    assert_key(NoteName::E, 4, Accidental::DoubleFlat, ChromaticNoteName::D, 4);
    assert_key(NoteName::F, 4, Accidental::DoubleFlat, ChromaticNoteName::DSharp, 4);
    assert_key(NoteName::G, 4, Accidental::DoubleFlat, ChromaticNoteName::F, 4);
    assert_key(NoteName::A, 4, Accidental::DoubleFlat, ChromaticNoteName::G, 4);
    assert_key(NoteName::B, 4, Accidental::DoubleFlat, ChromaticNoteName::A, 4);
}

#[test]
fn test_enharmonic_equivalents_collapse_to_one_key() {
    // C sharp and D flat.
    assert_eq!(
        key_of(NoteName::C, 4, Accidental::Sharp),
        key_of(NoteName::D, 4, Accidental::Flat)
    );
    // D, C double sharp, and E double flat.
    assert_eq!(
        key_of(NoteName::D, 4, Accidental::Natural),
        key_of(NoteName::C, 4, Accidental::DoubleSharp)
    );
    assert_eq!(
        key_of(NoteName::D, 4, Accidental::Natural),
        key_of(NoteName::E, 4, Accidental::DoubleFlat)
    );
    // F, E sharp, and G double flat.
    assert_eq!(
        key_of(NoteName::F, 4, Accidental::Natural),
        key_of(NoteName::E, 4, Accidental::Sharp)
    );
    assert_eq!(
        key_of(NoteName::F, 4, Accidental::Natural),
        key_of(NoteName::G, 4, Accidental::DoubleFlat)
    );
}
