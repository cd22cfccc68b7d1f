use musicxml_analysis::model::{MeasureData, PitchSet, TimeSignature};
use musicxml_analysis::Rational;

#[test]
fn test_get_measure_duration_seconds_standard_4_4_at_120_bpm() {
    // Arrange
    let measure_data = MeasureData {
        note_count: 4,
        tempo_bpm: Rational::from_int(120),
        time_signature: TimeSignature::new(4, 4),
        pitches: PitchSet::new(),
    };

    // Act
    let actual = measure_data.get_measure_duration_seconds();

    // Assert
    // 120 BPM = 0.5 seconds per beat
    // 4/4 time = 4 beats per measure
    // Duration = 0.5 * 4 = 2.0 seconds
    let expected = Rational::from_int(2);
    assert_eq!(actual, Some(expected));
}

#[test]
fn test_get_measure_duration_seconds_waltz_at_90_bpm() {
    let measure_data = MeasureData {
        note_count: 0,
        tempo_bpm: Rational::from_int(90),
        time_signature: TimeSignature::new(3, 4),
        pitches: PitchSet::new(),
    };

    // 90 BPM = 2/3 seconds per beat, 3 beats per measure = 2 seconds.
    assert_eq!(measure_data.get_measure_duration_seconds(), Some(Rational::from_int(2)));
}
