//! Behavioral properties of the search: determinism, tolerance
//! monotonicity, containment of positive results, the degenerate-input
//! policy, and both error paths.

use polylabel::{contains_point, polylabel, signed_distance, Point, Polygon, PolylabelError};

fn pt(x: i64, y: i64) -> Point {
    Point { x, y }
}

fn ring(coords: &[(i64, i64)]) -> Vec<Point> {
    coords.iter().map(|&(x, y)| pt(x, y)).collect()
}

fn l_shape() -> Polygon {
    let coords = [
        (0, 0),
        (4096, 0),
        (4096, 1024),
        (1024, 1024),
        (1024, 4096),
        (0, 4096),
        (0, 0),
    ];
    Polygon { exterior: ring(&coords), holes: vec![] }
}

fn square_with_hole() -> Polygon {
    let outer = [(0, 0), (102400, 0), (102400, 102400), (0, 102400)];
    let inner = [(61440, 61440), (61440, 81920), (81920, 81920), (81920, 61440)];
    Polygon { exterior: ring(&outer), holes: vec![ring(&inner)] }
}

#[test]
fn repeated_calls_bit_identical() {
    let poly = l_shape();
    let first = polylabel(&poly, 102);
    let second = polylabel(&poly, 102);
    assert_eq!(first, second);
    let third = polylabel(&square_with_hole(), 1024);
    let fourth = polylabel(&square_with_hole(), 1024);
    assert_eq!(third, fourth);
}

#[test]
fn decreasing_tolerance_never_decreases_distance() {
    let poly = l_shape();
    let tolerances = [2048i64, 1024, 512, 102, 10, 1];
    let mut last = i64::MIN;
    for &tol in tolerances.iter() {
        let res = polylabel(&poly, tol).unwrap();
        let d = signed_distance(res, &poly);
        assert!(d >= last);
        last = d;
    }
    // converging toward the true pole: 600 / 1024 of a unit
    assert_eq!(last, 599);
}

#[test]
fn positive_result_passes_containment() {
    let poly = square_with_hole();
    let res = polylabel(&poly, 1024).unwrap();
    assert!(signed_distance(res, &poly) > 0);
    assert!(contains_point(&poly, res));

    let l = l_shape();
    let res_l = polylabel(&l, 102).unwrap();
    assert!(signed_distance(res_l, &l) > 0);
    assert!(contains_point(&l, res_l));
}

#[test]
fn zero_area_fallback_is_bbox_min_corner() {
    // collinear ring away from the origin: the fallback is the bounding
    // box's minimum corner, not (0, 0)
    let coords = [(5120, 2048), (7168, 2048), (9216, 2048)];
    let poly = Polygon { exterior: ring(&coords), holes: vec![] };
    let res = polylabel(&poly, 1024).unwrap();
    assert_eq!(res, pt(5120, 2048));
}

#[test]
fn zero_width_bbox_short_circuits() {
    let coords = [(0, 0), (0, 2048)];
    let poly = Polygon { exterior: ring(&coords), holes: vec![] };
    let res = polylabel(&poly, 1024).unwrap();
    assert_eq!(res, pt(0, 0));
}

#[test]
fn empty_exterior_is_rect_error() {
    let poly = Polygon { exterior: vec![], holes: vec![] };
    let res = polylabel(&poly, 1024);
    assert_eq!(res, Err(PolylabelError::RectCalculation));
    assert_eq!(
        PolylabelError::RectCalculation.message(),
        "Couldn't calculate a bounding box for the input Polygon"
    );
}

#[test]
fn out_of_range_centroid_is_centroid_error() {
    // a self-overlapping ring with two opposing lobes: the net signed area
    // is tiny while the area-weighted x sum is huge, so the centroid lands
    // far outside the coordinate range
    let m: i64 = 0x400_0000;
    let k: i64 = 16;
    let coords = [(m - k, 0), (m, 0), (m, k), (0, 0), (0, k), (m - 1, 0)];
    let poly = Polygon { exterior: ring(&coords), holes: vec![] };
    let res = polylabel(&poly, 1024);
    assert_eq!(res, Err(PolylabelError::CentroidCalculation));
    assert_eq!(
        PolylabelError::CentroidCalculation.message(),
        "Couldn't calculate a centroid for the input Polygon"
    );
}

#[test]
fn signed_distance_square() {
    let sq = Polygon { exterior: ring(&[(0, 0), (2048, 0), (2048, 2048), (0, 2048)]), holes: vec![] };
    assert_eq!(signed_distance(pt(1024, 1024), &sq), 1024);
    assert_eq!(signed_distance(pt(3072, 1024), &sq), -1024);
    assert_eq!(signed_distance(pt(0, 1024), &sq), 0);
    assert!(contains_point(&sq, pt(1024, 1024)));
    assert!(!contains_point(&sq, pt(3072, 1024)));
}

#[test]
fn hole_repels_the_label() {
    // distance inside the square but within the hole is negative
    let poly = square_with_hole();
    let in_hole = pt(71680, 71680);
    assert!(!contains_point(&poly, in_hole));
    assert!(signed_distance(in_hole, &poly) < 0);
}

#[test]
fn large_polygon() {
    // a 360-vertex circle-like polygon of radius 50000 centered at
    // (60000, 60000): the search terminates quickly and the answer sits
    // inside near the center
    let mut exterior = Vec::new();
    for step in 0..360u32 {
        let theta = (step as f64) * std::f64::consts::PI / 180.0;
        let x = 60000.0 + 50000.0 * theta.cos();
        let y = 60000.0 + 50000.0 * theta.sin();
        exterior.push(pt(x.round() as i64, y.round() as i64));
    }
    let poly = Polygon { exterior, holes: vec![] };
    let res = polylabel(&poly, 16).unwrap();
    assert!(contains_point(&poly, res));
    let d = signed_distance(res, &poly);
    assert!(d > 49000);
}
