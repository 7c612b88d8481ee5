use knot_math::api::{
    braid_from_crossings, calculate_alexander_polynomial, calculate_crossing_number_from_braid,
    calculate_jones_polynomial, calculate_writhe_from_braid, encoded_crossing_count,
    energy_point_count, generate_knot_from_braid, stability_point_count,
};
use knot_math::braid_group::BraidCrossing;
use knot_math::error::ValidationError;

/// Reads the flat encoding of a braid: the strand count, then one strand
/// and one flag per crossing.
fn decode(braid_data: &[f64]) -> (usize, Vec<BraidCrossing>) {
    let strands = braid_data[0] as usize;
    let crossings = braid_data[1..]
        .chunks_exact(2)
        .map(|pair| BraidCrossing { strand: pair[0] as usize, is_over: pair[1] > 0.5 })
        .collect();
    (strands, crossings)
}

#[test]
fn test_generate_knot_from_braid() {
    // Braid with 3 strands, 2 crossings
    let braid_data = vec![3.0, 0.0, 1.0, 1.0, 1.0];
    let (strands, crossings) = decode(&braid_data);
    let result = generate_knot_from_braid(strands, &crossings).unwrap();

    assert_eq!(result.crossing_number, 2);
    assert_eq!(result.writhe, 2); // Both crossings are over (+1 each)
    assert!(result.jones_polynomial.len() != 0);
    assert!(result.alexander_polynomial.len() != 0);
    assert_eq!(result.knot_data, vec![3]);
}

#[test]
fn test_calculate_jones_polynomial() {
    let braid_data = vec![3.0, 0.0, 1.0];
    let (strands, crossings) = decode(&braid_data);
    let jones = calculate_jones_polynomial(strands, &crossings).unwrap();
    assert!(jones.len() != 0);
}

#[test]
fn test_calculate_alexander_polynomial() {
    let braid_data = vec![3.0, 0.0, 1.0];
    let (strands, crossings) = decode(&braid_data);
    let alexander = calculate_alexander_polynomial(strands, &crossings).unwrap();
    assert!(alexander.len() != 0);
}

#[test]
fn test_calculate_writhe_from_braid() {
    // Braid with mixed crossings: +1, -1, +1 = writhe = 1
    let braid_data = vec![3.0, 0.0, 1.0, 1.0, 0.0, 0.0, 1.0];
    let (strands, crossings) = decode(&braid_data);
    let writhe = calculate_writhe_from_braid(strands, &crossings).unwrap();
    assert_eq!(writhe, 1);
}

#[test]
fn crossing_number_from_braid_counts_the_pairs() {
    let (strands, crossings) = decode(&[3.0, 0.0, 1.0, 1.0, 1.0]);
    assert_eq!(calculate_crossing_number_from_braid(strands, &crossings), Ok(2));
    let (strands, crossings) = decode(&[3.0, 0.0, 1.0, 1.0]);
    assert_eq!(calculate_crossing_number_from_braid(strands, &crossings), Ok(1));
}

#[test]
fn a_braid_needs_two_strands_to_generate_a_knot() {
    assert_eq!(
        generate_knot_from_braid(1, &vec![]).err(),
        Some(ValidationError::TooFewStrands { strands: 1 })
    );
    assert_eq!(
        generate_knot_from_braid(0, &vec![BraidCrossing { strand: 0, is_over: true }]).err(),
        Some(ValidationError::TooFewStrands { strands: 0 })
    );
    assert!(generate_knot_from_braid(2, &vec![]).is_ok());
}

#[test]
fn the_first_crossing_out_of_range_is_reported() {
    let crossings = vec![
        BraidCrossing { strand: 0, is_over: true },
        BraidCrossing { strand: 5, is_over: true },
        BraidCrossing { strand: 9, is_over: false },
    ];
    let expected = ValidationError::StrandOutOfRange { strand: 5, strands: 3 };
    assert_eq!(braid_from_crossings(3, &crossings).err(), Some(expected));
    assert_eq!(generate_knot_from_braid(3, &crossings).err(), Some(expected));
    assert_eq!(calculate_jones_polynomial(3, &crossings).err(), Some(expected));
    assert_eq!(calculate_alexander_polynomial(3, &crossings).err(), Some(expected));
    assert_eq!(calculate_writhe_from_braid(3, &crossings).err(), Some(expected));
    assert_eq!(calculate_crossing_number_from_braid(3, &crossings).err(), Some(expected));
}

#[test]
fn braid_from_crossings_keeps_the_order() {
    let crossings = vec![
        BraidCrossing { strand: 2, is_over: false },
        BraidCrossing { strand: 0, is_over: true },
    ];
    let braid = braid_from_crossings(4, &crossings).unwrap();
    assert_eq!(braid.strands(), 4);
    assert_eq!(braid.get_crossings(), &crossings[..]);
}

#[test]
fn test_calculate_knot_energy_invalid_input() {
    // Invalid: not multiple of 3
    let points = vec![0.0, 0.0, 0.0, 1.0];
    assert!(energy_point_count(points.len()).is_err());

    // Invalid: too few points
    let points = vec![0.0, 0.0, 0.0, 1.0, 0.0, 0.0];
    assert!(energy_point_count(points.len()).is_err());
}

#[test]
fn point_counts_are_checked() {
    assert_eq!(energy_point_count(4), Err(ValidationError::PointsNotTriples { values: 4 }));
    assert_eq!(energy_point_count(6), Err(ValidationError::TooFewPoints { values: 6 }));
    assert_eq!(energy_point_count(0), Err(ValidationError::TooFewPoints { values: 0 }));
    assert_eq!(energy_point_count(9), Ok(3));
    assert_eq!(energy_point_count(12), Ok(4));
    assert_eq!(stability_point_count(0), Err(ValidationError::EmptyInput));
    assert_eq!(stability_point_count(5), Err(ValidationError::PointsNotTriples { values: 5 }));
    assert_eq!(stability_point_count(3), Ok(1));
}

#[test]
fn encoded_crossings_are_counted_in_pairs() {
    assert_eq!(encoded_crossing_count(0), Err(ValidationError::EmptyInput));
    assert_eq!(encoded_crossing_count(1), Ok(0));
    assert_eq!(encoded_crossing_count(2), Ok(0));
    assert_eq!(encoded_crossing_count(3), Ok(1));
    assert_eq!(encoded_crossing_count(7), Ok(3));
}

#[test]
fn messages_of_rejected_inputs() {
    assert_eq!(ValidationError::EmptyInput.message(), "Input cannot be empty");
    assert_eq!(
        ValidationError::PointsNotTriples { values: 4 }.message(),
        "Knot points must be multiple of 3 (x, y, z coordinates), got 4"
    );
    assert_eq!(
        ValidationError::TooFewPoints { values: 6 }.message(),
        "Need at least 3 points (9 values) for energy calculation, got 6"
    );
}
