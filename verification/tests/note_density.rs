use musicxml_analysis::analysis::calculate_density_metrics;
use musicxml_analysis::model::{MeasureData, PitchSet, TimeSignature};
use musicxml_analysis::Rational;

fn plain_measure(note_count: u32, bpm: i64, numerator: u32, denominator: u32) -> MeasureData {
    MeasureData {
        note_count,
        tempo_bpm: Rational::from_int(bpm),
        time_signature: TimeSignature::new(numerator, denominator),
        pitches: PitchSet::new(),
    }
}

#[test]
fn test_calculate_density_metrics_empty_data() {
    // Arrange
    let measure_data = vec![];

    // Act
    let metrics = calculate_density_metrics(&measure_data).unwrap();

    // Assert
    assert_eq!(metrics.average_notes_per_second, Rational::from_int(0));
    assert_eq!(metrics.peak_notes_per_second, Rational::from_int(0));
}

#[test]
fn test_calculate_density_metrics_zero_notes() {
    // Arrange
    let measure_data = vec![plain_measure(0, 120, 4, 4)];

    // Act
    let metrics = calculate_density_metrics(&measure_data).unwrap();

    // Assert: the maximum density is 0, first reached in measure 1.
    assert_eq!(metrics.average_notes_per_second, Rational::from_int(0));
    assert_eq!(metrics.peak_notes_per_second, Rational::from_int(0));
    assert_eq!(metrics.peak_measure, 1);
}

#[test]
fn test_calculate_density_metrics_all_zero_densities_peak_at_first_measure() {
    // Several silent measures: the peak is 0, and the first measure
    // reaches it.
    let measure_data = vec![
        plain_measure(0, 120, 4, 4),
        plain_measure(0, 90, 3, 4),
        plain_measure(0, 60, 4, 4),
    ];

    let metrics = calculate_density_metrics(&measure_data).unwrap();

    assert_eq!(metrics.peak_notes_per_second, Rational::from_int(0));
    assert_eq!(metrics.peak_measure, 1);
    assert_eq!(metrics.total_note_count, 0);
}

#[test]
fn test_calculate_density_metrics_single_measure() {
    // Arrange
    let measure_data = vec![plain_measure(2, 120, 4, 4)];

    // Act
    let metrics = calculate_density_metrics(&measure_data).unwrap();

    // Assert
    // 120 BPM = 0.5 sec/beat, 4/4 = 2 sec/measure
    // 2 notes in 2 seconds = 1.0 notes/sec
    assert_eq!(metrics.average_notes_per_second, Rational::from_int(1));
    assert_eq!(metrics.peak_notes_per_second, Rational::from_int(1));
    assert_eq!(metrics.peak_measure, 1);
}

#[test]
fn test_calculate_density_metrics_with_tempo_change() {
    // Arrange
    let measure_data = vec![plain_measure(1, 120, 4, 4), plain_measure(2, 60, 4, 4)];

    // Act
    let metrics = calculate_density_metrics(&measure_data).unwrap();

    // Assert
    // Measure 1: 120 BPM, 1 quarter note = 1 note in 2 seconds = 0.5 notes/sec
    // Measure 2: 60 BPM, 2 quarter notes = 2 notes in 4 seconds = 0.5 notes/sec
    // Average: 3 notes in 6 seconds = 0.5 notes/sec
    // Peak: 0.5 notes/sec (same for both measures)
    assert_eq!(metrics.average_notes_per_second, Rational::new(1, 2));
    assert_eq!(metrics.peak_notes_per_second, Rational::new(1, 2));
    assert_eq!(metrics.peak_measure, 1);
}

#[test]
fn test_calculate_density_metrics_with_time_signature_change() {
    // Arrange
    let measure_data = vec![plain_measure(1, 120, 4, 4), plain_measure(1, 120, 3, 4)];

    // Act
    let metrics = calculate_density_metrics(&measure_data).unwrap();

    // Assert
    // Measure 1: 4/4 time, 1 quarter note = 1 note in 2 seconds = 0.5 notes/sec
    // Measure 2: 3/4 time, 1 quarter note = 1 note in 1.5 seconds = 0.667 notes/sec
    // Average: 2 notes in 3.5 seconds = 0.571 notes/sec
    // Peak: 0.667 notes/sec (second measure)
    assert_eq!(metrics.average_notes_per_second, Rational::new(4, 7));
    assert_eq!(metrics.peak_notes_per_second, Rational::new(2, 3));
    assert_eq!(metrics.peak_measure, 2);
}

#[test]
fn test_calculate_density_metrics_average_between_measures() {
    // Two measures at 120 BPM in 4/4: 1 note, then 4 notes.
    let measure_data = vec![plain_measure(1, 120, 4, 4), plain_measure(4, 120, 4, 4)];

    let metrics = calculate_density_metrics(&measure_data).unwrap();

    // 5 notes in 4 seconds: average 1.25; peak 2.0 in the second measure.
    assert_eq!(metrics.average_notes_per_second, Rational::new(5, 4));
    assert_eq!(metrics.peak_notes_per_second, Rational::from_int(2));
    assert_eq!(metrics.peak_measure, 2);
    assert_eq!(metrics.total_note_count, 5);
}

#[test]
fn test_calculate_density_metrics_total_note_count() {
    let measure_data = vec![
        plain_measure(3, 100, 4, 4),
        plain_measure(0, 100, 4, 4),
        plain_measure(7, 100, 4, 4),
    ];

    let metrics = calculate_density_metrics(&measure_data).unwrap();

    assert_eq!(metrics.total_note_count, 10);
}

#[test]
fn test_calculate_density_metrics_average_never_exceeds_peak() {
    let measure_data = vec![
        plain_measure(5, 90, 3, 4),
        plain_measure(2, 140, 4, 4),
        plain_measure(9, 66, 6, 8),
        plain_measure(1, 203, 2, 2),
    ];

    let metrics = calculate_density_metrics(&measure_data).unwrap();

    assert!(metrics.average_notes_per_second.le(&metrics.peak_notes_per_second));
    assert!(Rational::from_int(0).le(&metrics.average_notes_per_second));
}

#[test]
fn test_calculate_density_metrics_fractional_tempo() {
    // A tempo of 63.5 BPM in 4/4: one measure lasts 240/63.5 seconds.
    let measure_data = vec![MeasureData {
        note_count: 2,
        tempo_bpm: Rational::new(127, 2),
        time_signature: TimeSignature::new(4, 4),
        pitches: PitchSet::new(),
    }];

    let metrics = calculate_density_metrics(&measure_data).unwrap();

    // 2 notes / (240 / 63.5) s = 127 / 240 notes per second.
    assert_eq!(metrics.average_notes_per_second, Rational::new(127, 240));
    assert_eq!(metrics.peak_notes_per_second, Rational::new(127, 240));
    assert_eq!(metrics.peak_measure, 1);
}
