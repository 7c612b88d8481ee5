use knot_math::braid_group::{Braid, BraidCrossing, Knot, MAX_CROSSINGS};
use knot_math::error::ValidationError;

#[test]
fn test_braid_creation() {
    let braid = Braid::new(4);
    assert_eq!(braid.strands(), 4);
    assert_eq!(braid.get_crossings().len(), 0);
}

#[test]
fn test_add_crossing() {
    let mut braid = Braid::new(4);
    braid.add_crossing(1, true).unwrap();
    assert_eq!(braid.get_crossings().len(), 1);
}

#[test]
fn test_crossing_out_of_range() {
    let mut braid = Braid::new(4);
    let result = braid.add_crossing(4, true);
    assert!(result.is_err());
}

#[test]
fn add_crossing_fails_exactly_from_the_last_strand_on() {
    for strands in 2..9usize {
        for strand in 0..12usize {
            let mut braid = Braid::new(strands);
            let result = braid.add_crossing(strand, strand % 2 == 0);
            assert_eq!(result.is_err(), strand >= strands - 1);
            if strand >= strands - 1 {
                assert_eq!(result, Err(ValidationError::StrandOutOfRange { strand, strands }));
                assert_eq!(braid.get_crossings().len(), 0);
            } else {
                assert_eq!(
                    braid.get_crossings(),
                    &[BraidCrossing { strand, is_over: strand % 2 == 0 }][..]
                );
            }
        }
    }
}

#[test]
fn add_crossing_on_too_few_strands_fails() {
    let mut none = Braid::new(0);
    assert_eq!(
        none.add_crossing(0, true),
        Err(ValidationError::StrandOutOfRange { strand: 0, strands: 0 })
    );
    let mut one = Braid::new(1);
    assert!(one.add_crossing(0, false).is_err());
}

#[test]
fn a_refused_crossing_leaves_the_braid_unchanged() {
    let mut braid = Braid::new(3);
    braid.add_crossing(0, true).unwrap();
    braid.add_crossing(1, false).unwrap();
    assert!(braid.add_crossing(2, true).is_err());
    assert_eq!(
        braid.get_crossings(),
        &[
            BraidCrossing { strand: 0, is_over: true },
            BraidCrossing { strand: 1, is_over: false }
        ][..]
    );
    assert_eq!(braid.strands(), 3);
}

#[test]
fn the_crossing_limit_fits_a_signed_32_bit_count() {
    assert_eq!(MAX_CROSSINGS, i32::MAX as usize);
}

#[test]
fn braid_word_of_the_empty_braid_is_empty() {
    assert_eq!(Braid::new(3).braid_word(), "");
}

#[test]
fn braid_word_marks_under_crossings() {
    let mut braid = Braid::new(3);
    braid.add_crossing(0, true).unwrap();
    braid.add_crossing(1, false).unwrap();
    braid.add_crossing(0, true).unwrap();
    assert_eq!(braid.braid_word(), "σ1 σ2⁻¹ σ1");
}

#[test]
fn braid_word_writes_strand_numbers_in_decimal() {
    let mut braid = Braid::new(1200);
    braid.add_crossing(9, false).unwrap();
    braid.add_crossing(1098, true).unwrap();
    assert_eq!(braid.braid_word(), "σ10⁻¹ σ1099");
}

fn rows(braid: &Braid) -> Vec<Vec<i64>> {
    let m = braid.to_matrix();
    (0..m.size()).map(|r| (0..m.size()).map(|c| m.get(r, c)).collect()).collect()
}

#[test]
fn matrix_of_the_empty_braid_is_the_identity() {
    assert_eq!(rows(&Braid::new(3)), vec![vec![1, 0, 0], vec![0, 1, 0], vec![0, 0, 1]]);
}

#[test]
fn matrix_of_one_over_crossing_exchanges_two_strands() {
    let mut braid = Braid::new(3);
    braid.add_crossing(0, true).unwrap();
    assert_eq!(rows(&braid), vec![vec![0, 1, 0], vec![1, 0, 0], vec![0, 0, 1]]);
}

#[test]
fn matrix_of_one_under_crossing_carries_the_sign() {
    let mut braid = Braid::new(2);
    braid.add_crossing(0, false).unwrap();
    assert_eq!(rows(&braid), vec![vec![0, -1], vec![-1, 0]]);
}

#[test]
fn later_crossings_multiply_from_the_left() {
    let mut braid = Braid::new(3);
    braid.add_crossing(0, true).unwrap();
    braid.add_crossing(1, false).unwrap();
    assert_eq!(rows(&braid), vec![vec![0, 1, 0], vec![0, 0, -1], vec![-1, 0, 0]]);
}

#[test]
fn matrix_is_a_signed_permutation() {
    let mut braid = Braid::new(4);
    for (strand, over) in [(0, true), (2, false), (1, true), (0, false), (2, true)] {
        braid.add_crossing(strand, over).unwrap();
    }
    let m = rows(&braid);
    for r in 0..4 {
        assert_eq!(m[r].iter().filter(|v| **v != 0).count(), 1);
        assert_eq!((0..4).filter(|c| m[*c][r] != 0).count(), 1);
        assert!(m[r].iter().all(|v| (-1..=1).contains(v)));
    }
}

#[test]
fn close_to_knot_keeps_braid_and_crossing_count() {
    let mut braid = Braid::new(3);
    braid.add_crossing(0, true).unwrap();
    braid.add_crossing(1, true).unwrap();
    let knot = braid.close_to_knot();
    assert_eq!(knot.crossing_number(), 2);
    assert_eq!(knot.crossing_number, 2);
    assert_eq!(knot.braid.strands(), 3);
    assert_eq!(knot.braid.get_crossings(), braid.get_crossings());
}

#[test]
fn knot_from_braid_counts_crossings() {
    let mut braid = Braid::new(5);
    braid.add_crossing(3, false).unwrap();
    let knot = Knot::from_braid(braid);
    assert_eq!(knot.crossing_number(), 1);
    assert_eq!(knot.braid.get_crossings()[0], BraidCrossing { strand: 3, is_over: false });
}

#[test]
fn clone_of_a_braid_is_equal() {
    let mut braid = Braid::new(4);
    braid.add_crossing(2, true).unwrap();
    let copy = braid.clone();
    assert_eq!(copy.strands(), 4);
    assert_eq!(copy.get_crossings(), braid.get_crossings());
}

#[test]
fn error_messages_name_the_numbers() {
    assert_eq!(
        ValidationError::StrandOutOfRange { strand: 4, strands: 4 }.message(),
        "Strand index 4 out of range for 4 strands"
    );
    assert_eq!(
        ValidationError::StrandOutOfRange { strand: 120, strands: 7 }.message(),
        "Strand index 120 out of range for 7 strands"
    );
    assert_eq!(
        ValidationError::TooFewStrands { strands: 1 }.message(),
        "Braid must have at least 2 strands, got 1"
    );
    assert_eq!(ValidationError::TooManyCrossings.message(), "Braid cannot hold more crossings");
    assert_eq!(ValidationError::CoefficientOverflow.message(), "Coefficient out of range");
    assert_eq!(ValidationError::MatrixTooLarge.message(), "Too many strands for a matrix");
}
