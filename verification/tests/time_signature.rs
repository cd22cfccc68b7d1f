use musicxml_analysis::model::TimeSignature;

#[test]
fn test_time_signature_beats_per_measure() {
    // Arrange
    let sut = TimeSignature::new(3, 4);

    // Act
    let actual = sut.beats_per_measure();

    // Assert
    let expected = 3;
    assert_eq!(actual, expected);
}
