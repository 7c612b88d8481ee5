use knot_math::braid_group::Braid;
use knot_math::error::ValidationError;
use knot_math::knot_invariants::{
    arf_invariant, binomial_coefficient, bridge_number, calculate_alexander_polynomial,
    calculate_crossing_number, calculate_jones_polynomial, calculate_writhe,
    checked_binomial_coefficient, hyperbolic_volume, knot_determinant, unknotting_number_bound,
    KnotInvariants,
};
use knot_math::polynomial::Polynomial;
use knot_math::determinant::band_matrix_determinant;
use knot_math::seifert::{estimated_rank, matrix_signature, seifert_matrix};

fn braid(strands: usize, crossings: &[(usize, bool)]) -> Braid {
    let mut braid = Braid::new(strands);
    for (strand, over) in crossings {
        braid.add_crossing(*strand, *over).unwrap();
    }
    braid
}

fn numerators(p: &Polynomial) -> Vec<i32> {
    (0..p.len()).map(|i| p.coefficient(i)).collect()
}

#[test]
fn test_crossing_number() {
    let mut braid = Braid::new(3);
    braid.add_crossing(0, true).unwrap();
    braid.add_crossing(1, true).unwrap();

    let invariants = KnotInvariants::from_braid(&braid).unwrap();
    assert_eq!(invariants.crossing_number, 2);
}

#[test]
fn test_writhe() {
    let mut braid = Braid::new(3);
    braid.add_crossing(0, true).unwrap(); // +1
    braid.add_crossing(1, false).unwrap(); // -1
    braid.add_crossing(0, true).unwrap(); // +1

    let writhe = calculate_writhe(&braid);
    assert_eq!(writhe, 1); // +1 -1 +1 = 1
}

#[test]
fn test_jones_polynomial_unknot() {
    let braid = Braid::new(3);
    let jones = calculate_jones_polynomial(&braid);

    // Unknot should have J(q) = 1
    assert_eq!(jones.evaluate(1), Some(1));
    assert_eq!(jones.denominator(), 1);
    let value = jones.evaluate(1).unwrap() as f64 / jones.denominator() as f64;
    assert!((value - 1.0).abs() < 1e-10);
}

#[test]
fn test_alexander_polynomial_unknot() {
    let braid = Braid::new(3);
    let alexander = calculate_alexander_polynomial(&braid).unwrap();

    // Unknot should have Δ(t) = 1
    assert_eq!(alexander.evaluate(1), Some(1));
    assert_eq!(alexander.denominator(), 1);
    let value = alexander.evaluate(1).unwrap() as f64 / alexander.denominator() as f64;
    assert!((value - 1.0).abs() < 1e-10);
}

#[test]
fn test_binomial_coefficient() {
    assert_eq!(binomial_coefficient(5, 2), 10);
    assert_eq!(binomial_coefficient(4, 0), 1);
    assert_eq!(binomial_coefficient(4, 4), 1);
    assert_eq!(binomial_coefficient(6, 3), 20);
}

#[test]
fn binomial_coefficient_beyond_the_row_is_zero() {
    assert_eq!(binomial_coefficient(3, 4), 0);
    assert_eq!(checked_binomial_coefficient(0, 1), Some(0));
    assert_eq!(checked_binomial_coefficient(0, 0), Some(1));
}

#[test]
fn binomial_coefficient_uses_the_symmetry_of_the_row() {
    assert_eq!(checked_binomial_coefficient(100, 98), Some(4950));
    assert_eq!(checked_binomial_coefficient(60, 30), Some(118264581564861424));
    assert_eq!(checked_binomial_coefficient(usize::MAX, usize::MAX - 1), Some(usize::MAX));
}

#[test]
fn binomial_coefficient_reports_what_does_not_fit() {
    assert_eq!(checked_binomial_coefficient(200, 100), None);
    assert_eq!(checked_binomial_coefficient(usize::MAX, 2), None);
}

#[test]
fn unknot_has_trivial_invariants() {
    let invariants = KnotInvariants::from_braid(&Braid::new(3)).unwrap();
    assert_eq!(numerators(&invariants.jones_polynomial), vec![1]);
    assert_eq!(numerators(&invariants.alexander_polynomial), vec![1]);
    assert_eq!(invariants.jones_polynomial.evaluate(1), Some(1));
    assert_eq!(invariants.alexander_polynomial.evaluate(1), Some(1));
    assert_eq!(invariants.signature, 0);
    assert_eq!(invariants.crossing_number, 0);
    assert_eq!(invariants.writhe, 0);
    assert_eq!(invariants.determinant, Some(1));
    assert_eq!(invariants.arf_invariant, Some(1));
    assert_eq!(invariants.unknotting_number, Some(0));
    assert_eq!(invariants.bridge_number, Some(1));
    assert_eq!(invariants.braid_index, Some(3));
    assert_eq!(invariants.hyperbolic_volume, None);
    let homfly = invariants.homfly_polynomial.unwrap();
    assert_eq!(numerators(&homfly), vec![5]);
    assert_eq!(homfly.denominator(), 5);
}

#[test]
fn writhe_counts_over_less_under() {
    let crossings = [(0, true), (1, false), (1, false), (0, true), (0, false), (1, false)];
    let b = braid(3, &crossings);
    let over = crossings.iter().filter(|c| c.1).count() as i32;
    let under = crossings.iter().filter(|c| !c.1).count() as i32;
    assert_eq!(calculate_writhe(&b), over - under);
    assert_eq!(calculate_writhe(&b), -2);
    assert_eq!(calculate_crossing_number(&b), 6);
}

#[test]
fn jones_of_two_over_crossings() {
    let jones = calculate_jones_polynomial(&braid(3, &[(0, true), (1, true)]));
    assert_eq!(numerators(&jones), vec![0, 0, 11, 1, 0]);
    assert_eq!(jones.denominator(), 11);
}

#[test]
fn jones_of_a_negative_writhe_has_no_shift() {
    let jones = calculate_jones_polynomial(&braid(3, &[(0, false), (1, false), (0, true)]));
    assert_eq!(numerators(&jones), vec![9, -1, 1, 0]);
    assert_eq!(jones.denominator(), 9);
}

#[test]
fn seifert_matrix_of_a_braid() {
    let m = seifert_matrix(&braid(4, &[(0, true), (1, false), (0, true), (2, true)]));
    assert_eq!(m.size(), 3);
    let rows: Vec<Vec<i64>> = (0..3).map(|r| (0..3).map(|c| m.get(r, c)).collect()).collect();
    assert_eq!(rows, vec![vec![0, 2, 0], vec![-2, 0, -1], vec![0, 1, 0]]);
    assert_eq!(estimated_rank(&m), 3);
    assert_eq!(band_matrix_determinant(&m), Some(0));
    assert_eq!(matrix_signature(&m), 0);
}

#[test]
fn seifert_matrix_of_two_strands_is_a_single_zero() {
    let m = seifert_matrix(&braid(2, &[(0, true), (0, true), (0, true)]));
    assert_eq!(m.size(), 1);
    assert_eq!(m.get(0, 0), 0);
    assert_eq!(estimated_rank(&m), 0);
}

#[test]
fn alexander_of_two_strands() {
    let alexander = calculate_alexander_polynomial(&braid(2, &[(0, true)])).unwrap();
    assert_eq!(numerators(&alexander), vec![0, 0]);
}

#[test]
fn alexander_of_three_strands() {
    let alexander = calculate_alexander_polynomial(&braid(3, &[(0, true), (1, true)])).unwrap();
    assert_eq!(numerators(&alexander), vec![1, -2, 1]);
    assert_eq!(alexander.denominator(), 1);
}

#[test]
fn alexander_of_five_strands() {
    // Entries beside the diagonal: 3, 0 (one over, one under), 2.
    let b = braid(
        5,
        &[(0, true), (0, true), (0, true), (1, true), (1, false), (2, false), (2, false), (3, true)],
    );
    let m = seifert_matrix(&b);
    assert_eq!(band_matrix_determinant(&m), Some(36));
    assert_eq!(estimated_rank(&m), 4);
    let alexander = calculate_alexander_polynomial(&b).unwrap();
    assert_eq!(numerators(&alexander), vec![36, -144, 216, -144, 36]);
}

#[test]
fn invariants_of_two_over_crossings() {
    let invariants = KnotInvariants::from_braid(&braid(3, &[(0, true), (1, true)])).unwrap();
    assert_eq!(invariants.crossing_number, 2);
    assert_eq!(invariants.writhe, 2);
    assert_eq!(invariants.signature, 0);
    assert_eq!(invariants.determinant, Some(4));
    assert_eq!(invariants.arf_invariant, Some(0));
    assert_eq!(invariants.unknotting_number, Some(1));
    assert_eq!(invariants.bridge_number, Some(2));
    assert_eq!(invariants.braid_index, Some(3));
    assert_eq!(invariants.hyperbolic_volume, None);
    let homfly = invariants.homfly_polynomial.unwrap();
    assert_eq!(numerators(&homfly), vec![22, -44, 55, 3, 0]);
    assert_eq!(homfly.denominator(), 55);
}

#[test]
fn volume_and_blend_depend_on_the_crossing_count() {
    let four = KnotInvariants::from_braid(&braid(3, &[(0, true); 4])).unwrap();
    assert_eq!(four.hyperbolic_volume, Some(8));
    assert!(four.homfly_polynomial.is_some());
    let nine = KnotInvariants::from_braid(&braid(3, &[(1, false); 9])).unwrap();
    assert_eq!(nine.hyperbolic_volume, Some(18));
    assert!(nine.homfly_polynomial.is_some());
    let ten = KnotInvariants::from_braid(&braid(3, &[(1, false); 10])).unwrap();
    assert_eq!(ten.hyperbolic_volume, Some(20));
    assert!(ten.homfly_polynomial.is_none());
    assert_eq!(hyperbolic_volume(3), None);
}

#[test]
fn invariants_of_a_knot_are_those_of_its_braid() {
    let b = braid(4, &[(0, true), (1, false), (2, true)]);
    let knot = b.close_to_knot();
    let from_knot = KnotInvariants::from_knot(&knot).unwrap();
    let from_braid = KnotInvariants::from_braid(&b).unwrap();
    assert_eq!(from_knot.writhe, from_braid.writhe);
    assert_eq!(from_knot.crossing_number, 3);
    assert_eq!(
        numerators(&from_knot.jones_polynomial),
        numerators(&from_braid.jones_polynomial)
    );
    assert_eq!(
        numerators(&from_knot.alexander_polynomial),
        numerators(&from_braid.alexander_polynomial)
    );
}

#[test]
fn new_records_what_it_is_given() {
    let invariants = KnotInvariants::new(
        Polynomial::new(vec![1, 2]),
        Polynomial::new(vec![3]),
        7,
        -3,
    );
    assert_eq!(numerators(&invariants.jones_polynomial), vec![1, 2]);
    assert_eq!(numerators(&invariants.alexander_polynomial), vec![3]);
    assert_eq!(invariants.crossing_number, 7);
    assert_eq!(invariants.writhe, -3);
    assert_eq!(invariants.signature, 0);
    assert_eq!(invariants.determinant, None);
    assert!(invariants.homfly_polynomial.is_none());
}

#[test]
fn large_determinants_are_reported() {
    // Five strands, 70000 crossings on each of the outer pairs: the
    // determinant is 70000^4, beyond the coefficients of a polynomial.
    let mut b = Braid::new(5);
    for _ in 0..70000 {
        b.add_crossing(0, true).unwrap();
        b.add_crossing(2, true).unwrap();
    }
    assert_eq!(
        calculate_alexander_polynomial(&b).err(),
        Some(ValidationError::CoefficientOverflow)
    );
    assert_eq!(KnotInvariants::from_braid(&b).err(), Some(ValidationError::CoefficientOverflow));
}

#[test]
fn determinant_rounds_the_value_at_minus_one() {
    assert_eq!(knot_determinant(&Polynomial::new(vec![1, -2, 1])), Some(4));
    assert_eq!(knot_determinant(&Polynomial::new(vec![1, 3])), Some(2));
    let halves = Polynomial::with_denominator(vec![3], 2).unwrap();
    assert_eq!(knot_determinant(&halves), Some(2));
    let thirds = Polynomial::with_denominator(vec![-4], 3).unwrap();
    assert_eq!(knot_determinant(&thirds), Some(1));
}

#[test]
fn unknotting_bound_is_capped_by_the_crossings() {
    assert_eq!(unknotting_number_bound(0, 2, 2), 1);
    assert_eq!(unknotting_number_bound(-4, -3, 10), 3);
    assert_eq!(unknotting_number_bound(6, 9, 5), 5);
    assert_eq!(unknotting_number_bound(i32::MIN, i32::MIN, usize::MAX), 1 << 31);
}

#[test]
fn bridge_number_is_capped_by_strands_and_crossings() {
    assert_eq!(bridge_number(3, 0), 1);
    assert_eq!(bridge_number(3, 2), 2);
    assert_eq!(bridge_number(3, 7), 3);
    assert_eq!(bridge_number(0, 7), 0);
}

#[test]
fn arf_is_a_parity() {
    assert_eq!(arf_invariant(0, 4), 0);
    assert_eq!(arf_invariant(0, 1), 1);
    assert_eq!(arf_invariant(-3, 4), 1);
    assert_eq!(arf_invariant(-3, 5), 0);
}

#[test]
fn signature_of_small_matrices_is_exact() {
    let invariants = KnotInvariants::from_braid(&braid(3, &[(0, true), (1, false)])).unwrap();
    assert_eq!(invariants.signature, 0);
    let m = seifert_matrix(&braid(6, &[(0, true), (3, false), (4, true)]));
    assert_eq!(matrix_signature(&m), 0);
}

#[test]
fn a_seifert_matrix_beyond_any_allocation_is_reported() {
    let mut b = Braid::new(1 << 40);
    b.add_crossing(5, true).unwrap();
    assert_eq!(calculate_alexander_polynomial(&b).err(), Some(ValidationError::MatrixTooLarge));
    assert_eq!(KnotInvariants::from_braid(&b).err(), Some(ValidationError::MatrixTooLarge));
    let unknot = KnotInvariants::from_braid(&Braid::new(1 << 40)).unwrap();
    assert_eq!(unknot.signature, 0);
    assert_eq!(unknot.braid_index, Some(1 << 40));
}
