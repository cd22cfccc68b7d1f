use musicxml_analysis::model::{Accidental, NoteName, Pitch};

#[test]
fn test_pitch_creation() {
    // Act
    let pitch = Pitch::new(NoteName::C, 4, Accidental::Flat);

    // Assert
    assert_eq!(pitch.note_name, NoteName::C);
    assert_eq!(pitch.octave, 4);
    assert_eq!(pitch.accidental, Accidental::Flat);
}

#[test]
fn test_pitch_equality() {
    // Arrange
    let pitch1 = Pitch::new(NoteName::C, 4, Accidental::Natural);
    let pitch2 = Pitch::new(NoteName::C, 4, Accidental::Natural);
    let pitch3 = Pitch::new(NoteName::D, 4, Accidental::Natural);

    // Assert
    assert_eq!(pitch1, pitch2);
    assert_ne!(pitch1, pitch3);
}

#[test]
fn test_pitch_equality_with_unequal_accidentals() {
    // Arrange
    let pitch1 = Pitch::new(NoteName::C, 4, Accidental::Natural);
    let pitch2 = Pitch::new(NoteName::C, 4, Accidental::Sharp);

    // Act
    let result = pitch1.eq(&pitch2);

    // Assert
    assert!(!result);
}
