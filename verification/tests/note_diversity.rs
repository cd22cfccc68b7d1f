use musicxml_analysis::analysis::{calculate_diversity_metrics, DiversityMetrics};
use musicxml_analysis::model::{Accidental, MeasureData, NoteName, Pitch, PitchSet, TimeSignature};
use musicxml_analysis::Rational;

fn measure_with_pitches(pitches: Vec<Pitch>) -> MeasureData {
    let mut set = PitchSet::new();
    let note_count = pitches.len() as u32;
    for p in pitches {
        set.insert(p);
    }
    MeasureData {
        note_count,
        tempo_bpm: Rational::from_int(120),
        time_signature: TimeSignature::new(4, 4),
        pitches: set,
    }
}

#[test]
fn test_calculate_diversity_metrics_empty_data() {
    // Arrange
    let measure_data = vec![];

    // Act
    let actual = calculate_diversity_metrics(&measure_data);

    // Assert
    let expected = DiversityMetrics { total_unique_pitches: 0, total_unique_keys: 0 };
    assert_eq!(actual, expected);
}

#[test]
fn test_calculate_diversity_metrics_single_measure_with_unique_pitches() {
    // Arrange
    let measure_data = vec![measure_with_pitches(vec![
        Pitch::new(NoteName::C, 4, Accidental::Natural),
        Pitch::new(NoteName::D, 4, Accidental::Natural),
        Pitch::new(NoteName::E, 4, Accidental::Natural),
    ])];

    // Act
    let actual = calculate_diversity_metrics(&measure_data);

    // Assert
    let expected = DiversityMetrics { total_unique_pitches: 3, total_unique_keys: 3 };
    assert_eq!(actual, expected);
}

#[test]
fn test_calculate_diversity_metrics_multiple_measures_same_note() {
    // Arrange
    let c4_pitch = Pitch::new(NoteName::C, 4, Accidental::Natural);

    let measure_data = vec![
        measure_with_pitches(vec![c4_pitch]),
        measure_with_pitches(vec![c4_pitch]),
    ];

    // Act
    let actual = calculate_diversity_metrics(&measure_data);

    // Assert
    let expected = DiversityMetrics { total_unique_pitches: 1, total_unique_keys: 1 };
    assert_eq!(actual, expected);
}

#[test]
fn test_calculate_diversity_metrics_enharmonic_spellings_share_a_key() {
    // C sharp 4 in one measure, D flat 4 in another: two spelled
    // pitches, one piano key.
    let measure_data = vec![
        measure_with_pitches(vec![Pitch::new(NoteName::C, 4, Accidental::Sharp)]),
        measure_with_pitches(vec![Pitch::new(NoteName::D, 4, Accidental::Flat)]),
    ];

    let actual = calculate_diversity_metrics(&measure_data);

    let expected = DiversityMetrics { total_unique_pitches: 2, total_unique_keys: 1 };
    assert_eq!(actual, expected);
}
