//! Label-position scenarios over fixed-point coordinates: the classic
//! shapes, at a scale of 1024 units per input coordinate unit.

use polylabel::{polylabel, Cell, CellQueue, Point, Polygon};

fn pt(x: i64, y: i64) -> Point {
    Point { x, y }
}

fn ring(coords: &[(i64, i64)]) -> Vec<Point> {
    coords.iter().map(|&(x, y)| pt(x, y)).collect()
}

#[test]
fn polygon_l_test() {
    // an L shape: (0,0),(4,0),(4,1),(1,1),(1,4),(0,4) at scale 1024,
    // tolerance 0.1 of a unit
    let coords = [
        (0, 0),
        (4096, 0),
        (4096, 1024),
        (1024, 1024),
        (1024, 4096),
        (0, 4096),
        (0, 0),
    ];
    let poly = Polygon { exterior: ring(&coords), holes: vec![] };
    let res = polylabel(&poly, 102).unwrap();
    // 576 = 0.5625 * 1024
    assert_eq!(res, pt(576, 576));
}

#[test]
fn degenerate_polygon_test() {
    let a_coords = [(0, 0), (1024, 0), (2048, 0), (0, 0)];
    let a_poly = Polygon { exterior: ring(&a_coords), holes: vec![] };
    let a_res = polylabel(&a_poly, 1024).unwrap();
    assert_eq!(a_res, pt(0, 0));
}

#[test]
fn degenerate_polygon_test_2() {
    let b_coords = [(0, 0), (1024, 0), (1024, 1024), (1024, 0), (0, 0)];
    let b_poly = Polygon { exterior: ring(&b_coords), holes: vec![] };
    let b_res = polylabel(&b_poly, 1024).unwrap();
    assert_eq!(b_res, pt(0, 0));
}

#[test]
fn polygon_with_hole_test() {
    // a 100 x 100 square with a hole from (60,60) to (80,80), scale 1024,
    // tolerance of one unit
    let outer = [(0, 0), (102400, 0), (102400, 102400), (0, 102400)];
    let inner = [(61440, 61440), (61440, 81920), (81920, 81920), (81920, 61440)];
    let hole_poly = Polygon { exterior: ring(&outer), holes: vec![ring(&inner)] };
    let hole_res = polylabel(&hole_poly, 1024).unwrap();
    // 36000 = 35.15625 * 1024
    assert_eq!(hole_res, pt(36000, 36000));
}

#[test]
fn cell_upper_bound() {
    // a cell's bound is its distance plus ceil(half_extent * sqrt(2))
    let sq = Polygon {
        exterior: ring(&[(0, 0), (2048, 0), (2048, 2048), (0, 2048)]),
        holes: vec![],
    };
    let cell = Cell::new(pt(1024, 1024), 100, &sq);
    assert_eq!(cell.distance, 1024);
    assert_eq!(cell.max_distance, 1024 + 142);
    assert_eq!(cell.half_extent, 100);
    let seed = Cell::new(pt(1024, 1024), 0, &sq);
    assert_eq!(seed.max_distance, seed.distance);
}

#[test]
fn add_quad_pushes_four_quadrants() {
    let sq = Polygon {
        exterior: ring(&[(0, 0), (2048, 0), (2048, 2048), (0, 2048)]),
        holes: vec![],
    };
    let parent = Cell::new(pt(1024, 1024), 512, &sq);
    let mut q = CellQueue::new();
    q.add_quad(&parent, 256, &sq);
    assert_eq!(q.len(), 4);
    // the four quadrant centers tie on max_distance, so they pop in
    // insertion order
    assert_eq!(q.pop().centroid, pt(768, 768));
    assert_eq!(q.pop().centroid, pt(1280, 768));
    assert_eq!(q.pop().centroid, pt(768, 1280));
    assert_eq!(q.pop().centroid, pt(1280, 1280));
}

#[test]
fn test_queue() {
    // is our priority queue behaving as it should?
    let a = Cell { centroid: pt(1, 2), half_extent: 3, distance: 4, max_distance: 8 };
    let b = Cell { centroid: pt(1, 2), half_extent: 3, distance: 4, max_distance: 7 };
    let c = Cell { centroid: pt(1, 2), half_extent: 3, distance: 4, max_distance: 9 };
    let mut q = CellQueue::new();
    q.push(a);
    q.push(b);
    q.push(c);
    assert_eq!(q.pop().max_distance, 9);
    assert_eq!(q.pop().max_distance, 8);
    assert_eq!(q.pop().max_distance, 7);
    assert!(q.is_empty());
}
