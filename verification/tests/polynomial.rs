use knot_math::polynomial::{exceeds_threshold, Polynomial, SIGNIFICANCE};

fn numerators(p: &Polynomial) -> Vec<i32> {
    (0..p.len()).map(|i| p.coefficient(i)).collect()
}

#[test]
fn test_polynomial_evaluation() {
    // Test polynomial: 1 + 2x + 3x²
    let poly = Polynomial::new(vec![1, 2, 3]);

    // At x = 0: should be 1
    assert_eq!(poly.evaluate(0), Some(1));

    // At x = 1: should be 1 + 2 + 3 = 6
    assert_eq!(poly.evaluate(1), Some(6));
}

#[test]
fn test_evaluate_polynomial() {
    let poly = Polynomial::new(vec![1, 2, 3]);
    let value = poly.evaluate(1).unwrap() as f64 / poly.denominator() as f64;
    assert!((value - 6.0).abs() < 1e-10);
}

#[test]
fn test_polynomial_degree() {
    let poly = Polynomial::new(vec![1, 2, 3, 0]);
    assert_eq!(poly.degree(), 2); // Highest non-zero is degree 2
}

#[test]
fn test_polynomial_add() {
    let left = Polynomial::new(vec![1, 2]);
    let right = Polynomial::new(vec![3, 4, 5]);
    let sum = left.add(&right).unwrap();

    // Should be: 1+3, 2+4, 0+5 = [4, 6, 5]
    assert_eq!(sum.denominator(), 1);
    assert_eq!(sum.coefficient(0), 4);
    assert_eq!(sum.coefficient(1), 6);
    assert_eq!(sum.coefficient(2), 5);
}

#[test]
fn test_polynomial_multiply() {
    let left = Polynomial::new(vec![1, 2]); // 1 + 2x
    let right = Polynomial::new(vec![3, 4]); // 3 + 4x
    let product = left.multiply(&right).unwrap();

    // Should be: (1+2x)(3+4x) = 3 + 10x + 8x²
    assert_eq!(product.denominator(), 1);
    assert_eq!(product.coefficient(0), 3);
    assert_eq!(product.coefficient(1), 10);
    assert_eq!(product.coefficient(2), 8);
}

#[test]
fn polynomial_test_polynomial_distance() {
    let left = Polynomial::new(vec![1, 2, 3]);
    let right = Polynomial::new(vec![1, 2, 4]);
    let (n, d) = left.distance_squared(&right).unwrap();
    assert_eq!((n, d), (1, 1));
    let dist = (n as f64 / d as f64).sqrt();

    // Distance should be |3-4| = 1
    assert!((dist - 1.0).abs() < 1e-10);
}

#[test]
fn api_test_polynomial_distance() {
    let poly_a = Polynomial::new(vec![1, 2, 3]);
    let poly_b = Polynomial::new(vec![1, 2, 4]);
    let (n, d) = poly_a.distance_squared(&poly_b).unwrap();
    assert!(((n as f64 / d as f64).sqrt() - 1.0).abs() < 1e-10);
}

#[test]
fn coefficient_beyond_the_end_is_zero() {
    let p = Polynomial::new(vec![7, -8]);
    assert_eq!(p.coefficient(0), 7);
    assert_eq!(p.coefficient(1), -8);
    assert_eq!(p.coefficient(2), 0);
    assert_eq!(p.coefficient(usize::MAX), 0);
    assert_eq!(p.len(), 2);
}

#[test]
fn degree_of_zero_and_of_empty_polynomials_is_zero() {
    assert_eq!(Polynomial::new(vec![]).degree(), 0);
    assert_eq!(Polynomial::new(vec![0, 0, 0]).degree(), 0);
    assert_eq!(Polynomial::new(vec![5]).degree(), 0);
    assert_eq!(Polynomial::new(vec![0, 0, -1]).degree(), 2);
}

#[test]
fn significance_is_one_part_in_ten_thousand_million() {
    assert_eq!(SIGNIFICANCE, 10_000_000_000);
    assert!(exceeds_threshold(1, i32::MAX));
    assert!(exceeds_threshold(-1, 1));
    assert!(!exceeds_threshold(0, 1));
}

#[test]
fn with_denominator_wants_a_positive_denominator() {
    assert!(Polynomial::with_denominator(vec![1], 0).is_none());
    assert!(Polynomial::with_denominator(vec![1], -3).is_none());
    let p = Polynomial::with_denominator(vec![1, 2], 3).unwrap();
    assert_eq!(numerators(&p), vec![1, 2]);
    assert_eq!(p.denominator(), 3);
}

#[test]
fn add_brings_fractions_over_a_common_denominator() {
    // 1/2 + (1/3) x   plus   1/5
    let a = Polynomial::with_denominator(vec![15, 10], 30).unwrap();
    let b = Polynomial::with_denominator(vec![1], 5).unwrap();
    let sum = a.add(&b).unwrap();
    assert_eq!(numerators(&sum), vec![15 * 5 + 30, 10 * 5]);
    assert_eq!(sum.denominator(), 150);
}

#[test]
fn add_is_commutative_on_examples() {
    let a = Polynomial::with_denominator(vec![1, -2, 3], 7).unwrap();
    let b = Polynomial::with_denominator(vec![4, 5], 3).unwrap();
    let ab = a.add(&b).unwrap();
    let ba = b.add(&a).unwrap();
    assert_eq!(numerators(&ab), numerators(&ba));
    assert_eq!(ab.denominator(), ba.denominator());
    assert_eq!(numerators(&ab), vec![3 + 28, -6 + 35, 9]);
}

#[test]
fn add_reports_what_does_not_fit() {
    let big = Polynomial::new(vec![i32::MAX]);
    assert!(big.add(&Polynomial::new(vec![1])).is_none());
    assert!(big.add(&Polynomial::new(vec![0])).is_some());
    let fine = Polynomial::with_denominator(vec![1], 65536).unwrap();
    assert!(fine.add(&fine).is_none());
}

#[test]
fn multiply_is_a_convolution() {
    let a = Polynomial::new(vec![1, 1, 1]);
    let b = Polynomial::new(vec![1, -1]);
    let product = a.multiply(&b).unwrap();
    assert_eq!(numerators(&product), vec![1, 0, 0, -1]);
    assert_eq!(product.len(), 3 + 2 - 1);
}

#[test]
fn multiply_adds_degrees() {
    let a = Polynomial::new(vec![2, 0, 5]);
    let b = Polynomial::new(vec![1, 3, 0, -4]);
    let product = a.multiply(&b).unwrap();
    assert_eq!(product.degree(), a.degree() + b.degree());
    assert_eq!(product.coefficient(5), -20);
}

#[test]
fn multiply_with_an_empty_polynomial() {
    let a = Polynomial::new(vec![1, 2, 3]);
    let empty = Polynomial::new(vec![]);
    let product = a.multiply(&empty).unwrap();
    assert_eq!(numerators(&product), vec![0, 0]);
}

#[test]
fn multiply_reports_what_does_not_fit() {
    let a = Polynomial::new(vec![65536]);
    assert!(a.multiply(&a).is_none());
    let b = Polynomial::new(vec![46340]);
    assert_eq!(numerators(&b.multiply(&b).unwrap()), vec![2147395600]);
}

#[test]
fn normalize_divides_by_the_last_coefficient() {
    let p = Polynomial::with_denominator(vec![2, -4, -8], 3).unwrap();
    let n = p.normalize().unwrap();
    assert_eq!(numerators(&n), vec![-2, 4, 8]);
    assert_eq!(n.denominator(), 8);
}

#[test]
fn normalize_leaves_a_zero_leading_coefficient_alone() {
    let p = Polynomial::with_denominator(vec![2, 4, 0], 3).unwrap();
    let n = p.normalize().unwrap();
    assert_eq!(numerators(&n), vec![2, 4, 0]);
    assert_eq!(n.denominator(), 3);
    let empty = Polynomial::new(vec![]).normalize().unwrap();
    assert_eq!(empty.len(), 0);
}

#[test]
fn normalize_reports_what_does_not_fit() {
    assert!(Polynomial::new(vec![1, i32::MIN]).normalize().is_none());
    assert!(Polynomial::new(vec![i32::MIN, -1]).normalize().is_none());
    assert!(Polynomial::new(vec![i32::MIN, 1]).normalize().is_some());
}

#[test]
fn distance_to_itself_is_zero() {
    let p = Polynomial::with_denominator(vec![3, -1, 4, 1, -5], 9).unwrap();
    assert_eq!(p.distance_squared(&p), Some((0, 81 * 81)));
}

#[test]
fn distance_pads_the_shorter_with_zeros() {
    let a = Polynomial::new(vec![1]);
    let b = Polynomial::new(vec![1, 3, 4]);
    assert_eq!(a.distance_squared(&b), Some((25, 1)));
    assert_eq!(b.distance_squared(&a), Some((25, 1)));
}

#[test]
fn distance_of_fractions() {
    // 1/2 against 1/3: difference 1/6, squared 1/36.
    let a = Polynomial::with_denominator(vec![1], 2).unwrap();
    let b = Polynomial::with_denominator(vec![1], 3).unwrap();
    assert_eq!(a.distance_squared(&b), Some((1, 36)));
}

#[test]
fn distance_reports_what_does_not_fit() {
    let a = Polynomial::with_denominator(vec![i32::MIN; 20], i32::MAX).unwrap();
    let b = Polynomial::with_denominator(vec![i32::MAX; 20], i32::MAX).unwrap();
    assert!(a.distance_squared(&b).is_none());
}

#[test]
fn evaluate_at_integers() {
    let p = Polynomial::new(vec![1, -2, 0, 3]);
    assert_eq!(p.evaluate(2), Some(1 - 4 + 24));
    assert_eq!(p.evaluate(-1), Some(1 + 2 - 3));
    assert_eq!(Polynomial::new(vec![]).evaluate(5), Some(0));
}

#[test]
fn evaluate_reports_what_does_not_fit() {
    let p = Polynomial::new(vec![0, 0, 0, 0, 1]);
    assert_eq!(p.evaluate(65536), None);
    assert_eq!(p.evaluate(1 << 15), Some(1 << 60));
}

#[test]
fn blend_weighs_two_polynomials() {
    let a = Polynomial::with_denominator(vec![11, 1], 11).unwrap();
    let b = Polynomial::new(vec![1, -2, 1]);
    let h = a.blend(&b, 3, 2, 5).unwrap();
    assert_eq!(numerators(&h), vec![33 + 22, 3 - 44, 22]);
    assert_eq!(h.denominator(), 55);
}

#[test]
fn clone_of_a_polynomial_is_equal() {
    let p = Polynomial::with_denominator(vec![1, 2, 3], 4).unwrap();
    let q = p.clone();
    assert_eq!(numerators(&q), vec![1, 2, 3]);
    assert_eq!(q.denominator(), 4);
}
