use knot_math::knot_energy::{curvature_stencil, Stencil};

#[test]
fn fewer_than_three_points_have_no_curvature() {
    assert_eq!(curvature_stencil(0, 0), None);
    assert_eq!(curvature_stencil(2, 1), None);
    assert_eq!(curvature_stencil(2, 7), None);
}

#[test]
fn the_difference_is_central_inside_the_curve() {
    assert_eq!(curvature_stencil(5, 1), Some(Stencil { first: 0, middle: 1, last: 2 }));
    assert_eq!(curvature_stencil(5, 2), Some(Stencil { first: 1, middle: 2, last: 3 }));
    assert_eq!(curvature_stencil(5, 3), Some(Stencil { first: 2, middle: 3, last: 4 }));
}

#[test]
fn the_difference_is_one_sided_at_both_ends() {
    assert_eq!(curvature_stencil(5, 0), Some(Stencil { first: 0, middle: 1, last: 2 }));
    assert_eq!(curvature_stencil(5, 4), Some(Stencil { first: 2, middle: 3, last: 4 }));
    assert_eq!(curvature_stencil(3, 0), Some(Stencil { first: 0, middle: 1, last: 2 }));
    assert_eq!(curvature_stencil(3, 2), Some(Stencil { first: 0, middle: 1, last: 2 }));
}

#[test]
fn test_curvature_from_points() {
    // Straight line: all points on line, should have low curvature
    let points = vec![[0.0, 0.0, 0.0], [1.0, 0.0, 0.0], [2.0, 0.0, 0.0]];
    let s = curvature_stencil(points.len(), 1).unwrap();
    let second: Vec<f64> = (0..3)
        .map(|k| {
            (points[s.last][k] - points[s.middle][k]) - (points[s.middle][k] - points[s.first][k])
        })
        .collect();
    let curvature = second.iter().map(|x| x * x).sum::<f64>().sqrt();
    // Straight line should have zero curvature
    assert!(curvature.abs() < 1e-6);
}
