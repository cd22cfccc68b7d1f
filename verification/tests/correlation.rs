use musicxml_analysis::statistics::{calculate_pearson_correlation, Correlation};
use musicxml_analysis::Rational;

fn rationals(values: Vec<i64>) -> Vec<Rational> {
    values.into_iter().map(Rational::from_int).collect()
}

fn zero_correlation() -> Correlation {
    Correlation {
        numerator: Rational::from_int(0),
        denominator_squared: Rational::from_int(1),
    }
}

/// `r == expected` exactly, given that `r = numerator / sqrt(denominator_squared)`:
/// the numerator's sign matches and its square equals `expected^2` times the
/// squared denominator.
fn assert_correlation_is(c: &Correlation, expected: i64) {
    let num_sq = c.numerator.checked_mul(&c.numerator).unwrap();
    let expected_sq = Rational::from_int(expected * expected)
        .checked_mul(&c.denominator_squared)
        .unwrap();
    assert_eq!(num_sq, expected_sq);
    if expected > 0 {
        assert!(c.numerator.is_positive());
    } else if expected < 0 {
        assert!(!c.numerator.is_positive() && !c.numerator.is_zero());
    } else {
        assert!(c.numerator.is_zero());
    }
}

#[test]
fn test_perfect_positive_correlation() {
    // Arrange
    let x = rationals(vec![1, 2, 3, 4, 5]);
    let y = rationals(vec![2, 4, 6, 8, 10]);

    // Act
    let correlation = calculate_pearson_correlation(&x, &y).unwrap();

    // Assert
    assert_correlation_is(&correlation, 1);
}

#[test]
fn test_perfect_negative_correlation() {
    // Arrange
    let x = rationals(vec![1, 2, 3, 4, 5]);
    let y = rationals(vec![10, 8, 6, 4, 2]);

    // Act
    let correlation = calculate_pearson_correlation(&x, &y).unwrap();

    // Assert
    assert_correlation_is(&correlation, -1);
}

#[test]
fn test_no_correlation() {
    // Arrange
    let x = rationals(vec![1, 2, 3, 4]);
    let y = rationals(vec![1, 4, 2, 3]);

    // Act
    let correlation = calculate_pearson_correlation(&x, &y).unwrap();

    // Assert: |r| at most 0.5, i.e. numerator^2 * 4 <= denominator^2.
    let num_sq = correlation.numerator.checked_mul(&correlation.numerator).unwrap();
    let four_num_sq = num_sq.checked_mul(&Rational::from_int(4)).unwrap();
    assert!(four_num_sq.le(&correlation.denominator_squared));
}

#[test]
fn test_exact_fractional_correlation() {
    // n = 4, Sx = Sy = 10, Sxy = 27, Sxx = Syy = 30:
    // numerator = 8, denominator^2 = 20 * 20 = 400, so r = 8/20 = 0.4.
    let x = rationals(vec![1, 2, 3, 4]);
    let y = rationals(vec![1, 4, 2, 3]);

    let correlation = calculate_pearson_correlation(&x, &y).unwrap();

    assert_eq!(correlation.numerator, Rational::from_int(8));
    assert_eq!(correlation.denominator_squared, Rational::from_int(400));
}

#[test]
fn test_empty_data() {
    // Arrange
    let x = vec![];
    let y = vec![];

    // Act
    let correlation = calculate_pearson_correlation(&x, &y).unwrap();

    // Assert
    assert_eq!(correlation, zero_correlation());
}

#[test]
fn test_mismatched_lengths() {
    // Arrange
    let x = rationals(vec![1, 2, 3]);
    let y = rationals(vec![1, 2]);

    // Act
    let correlation = calculate_pearson_correlation(&x, &y).unwrap();

    // Assert
    assert_eq!(correlation, zero_correlation());
}

#[test]
fn test_single_value() {
    // Arrange
    let x = rationals(vec![5]);
    let y = rationals(vec![10]);

    // Act
    let correlation = calculate_pearson_correlation(&x, &y).unwrap();

    // Assert
    assert_eq!(correlation, zero_correlation());
}

#[test]
fn test_constant_values() {
    // Arrange
    let x = rationals(vec![3, 3, 3, 3]);
    let y = rationals(vec![7, 7, 7, 7]);

    // Act
    let correlation = calculate_pearson_correlation(&x, &y).unwrap();

    // Assert
    assert_eq!(correlation, zero_correlation());
}

#[test]
fn test_correlation_of_fractional_values() {
    // x = [1/2, 1, 3/2], y = [1, 2, 3]: perfectly linear.
    let x = vec![Rational::new(1, 2), Rational::from_int(1), Rational::new(3, 2)];
    let y = rationals(vec![1, 2, 3]);

    let correlation = calculate_pearson_correlation(&x, &y).unwrap();

    assert_correlation_is(&correlation, 1);
}
