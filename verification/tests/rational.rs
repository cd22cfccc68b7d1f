use musicxml_analysis::Rational;

#[test]
fn test_new_reduces_to_lowest_terms() {
    let r = Rational::new(2, 4);
    assert_eq!(r.numer(), 1);
    assert_eq!(r.denom(), 2);
}

#[test]
fn test_equality_is_by_value() {
    assert_eq!(Rational::new(1, 2), Rational::new(2, 4));
    assert_ne!(Rational::new(1, 2), Rational::new(2, 3));
}

#[test]
fn test_checked_add_is_exact() {
    let a = Rational::new(1, 3);
    let b = Rational::new(1, 6);
    assert_eq!(a.checked_add(&b), Some(Rational::new(1, 2)));
}

#[test]
fn test_checked_sub_can_go_negative() {
    let a = Rational::new(1, 4);
    let b = Rational::new(3, 4);
    let d = a.checked_sub(&b).unwrap();
    assert_eq!(d, Rational::new(-1, 2));
    assert!(!d.is_positive());
}

#[test]
fn test_checked_mul_is_exact() {
    let a = Rational::new(2, 3);
    let b = Rational::new(9, 4);
    assert_eq!(a.checked_mul(&b), Some(Rational::new(3, 2)));
}

#[test]
fn test_checked_div_is_exact() {
    let a = Rational::new(1, 2);
    let b = Rational::new(3, 4);
    assert_eq!(a.checked_div(&b), Some(Rational::new(2, 3)));
}

#[test]
fn test_checked_div_by_negative_keeps_denominator_positive() {
    let a = Rational::from_int(1);
    let b = Rational::new(-2, 3);
    let q = a.checked_div(&b).unwrap();
    assert_eq!(q, Rational::new(-3, 2));
    assert!(q.denom() > 0);
}

#[test]
fn test_checked_add_overflow_is_none() {
    let a = Rational::from_int(i64::MAX);
    assert_eq!(a.checked_add(&a), None);
}

#[test]
fn test_checked_mul_overflow_is_none() {
    let a = Rational::from_int(i64::MAX);
    assert_eq!(a.checked_mul(&a), None);
}

#[test]
fn test_comparisons() {
    let a = Rational::new(1, 3);
    let b = Rational::new(1, 2);
    assert!(a.lt(&b));
    assert!(a.le(&b));
    assert!(!b.lt(&a));
    assert!(b.le(&b));
}

#[test]
fn test_zero_and_one() {
    assert!(Rational::zero().is_zero());
    assert!(Rational::one().is_positive());
    assert_eq!(Rational::zero(), Rational::from_int(0));
    assert_eq!(Rational::one(), Rational::from_int(1));
}
