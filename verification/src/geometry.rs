//! The polygon data model: points, rings, bounding boxes, signed area and
//! the even-odd containment test, all over exact integer arithmetic.

use vstd::prelude::*;

verus! {

/// Largest coordinate magnitude a polygon vertex may have. Keeping vertices
/// in this range lets every squared distance and cross product fit
/// comfortably in 128-bit intermediates.
pub const COORD_LIMIT: i64 = 0x400_0000;

/// Largest coordinate magnitude for a query point handed to the distance
/// oracle. The search only ever evaluates points near the bounding box, but
/// the public entry points accept anything up to this bound.
pub const QUERY_LIMIT: i64 = 0x2000_0000;

/// Cap on the total number of vertices across all rings, so that the
/// centroid accumulators cannot overflow.
pub const VERTEX_LIMIT: usize = 0x10_0000;

/// A point in the plane, in the caller's fixed-point units.
#[derive(Clone, Copy, PartialEq, Eq, Structural, Debug)]
pub struct Point {
    pub x: i64,
    pub y: i64,
}

/// A polygon: one exterior ring and zero or more hole rings. Each ring is an
/// ordered closed loop of vertices; the closing edge back to the first vertex
/// is implicit, and a ring that repeats its first vertex at the end is also
/// accepted (the duplicate only contributes a degenerate edge).
#[derive(Clone, Debug)]
pub struct Polygon {
    pub exterior: Vec<Point>,
    pub holes: Vec<Vec<Point>>,
}

/// Spec-level image of a polygon: the exterior ring and the hole rings as
/// sequences of points.
pub ghost struct PolyView {
    pub ext: Seq<Point>,
    pub holes: Seq<Seq<Point>>,
}

impl View for Polygon {
    type V = PolyView;

    open spec fn view(&self) -> PolyView {
        PolyView {
            ext: self.exterior@,
            holes: self.holes@.map_values(|h: Vec<Point>| h@),
        }
    }
}

pub open spec fn coord_ok(v: int) -> bool {
    -(COORD_LIMIT as int) <= v <= COORD_LIMIT as int
}

pub open spec fn query_ok(p: Point) -> bool {
    -(QUERY_LIMIT as int) <= p.x as int <= QUERY_LIMIT as int
        && -(QUERY_LIMIT as int) <= p.y as int <= QUERY_LIMIT as int
}

pub open spec fn ring_bounded(r: Seq<Point>) -> bool {
    forall|i: int|
        0 <= i < r.len() ==> coord_ok((#[trigger] r[i]).x as int) && coord_ok(r[i].y as int)
}

impl Polygon {
    /// Every vertex within the coordinate range, every hole ring non-empty,
    /// and not more vertices in total than the accumulators can take.
    /// The exterior ring may be empty: `polylabel` reports that as an error
    /// rather than refusing the input.
    pub open spec fn bounded(&self) -> bool {
        &&& ring_bounded(self@.ext)
        &&& forall|k: int| 0 <= k < self@.holes.len() ==> ring_bounded(#[trigger] self@.holes[k])
        &&& forall|k: int| 0 <= k < self@.holes.len() ==> (#[trigger] self@.holes[k]).len() >= 1
        &&& self@.ext.len() + total_hole_vertices(self@.holes, self@.holes.len() as int)
            <= VERTEX_LIMIT as int
    }
}

/// Number of vertices in the first `k` hole rings.
pub open spec fn total_hole_vertices(holes: Seq<Seq<Point>>, k: int) -> int
    decreases k,
{
    if k <= 0 {
        0
    } else {
        total_hole_vertices(holes, k - 1) + holes[k - 1].len()
    }
}

/// Second endpoint of edge `j` of a ring: the next vertex, wrapping around
/// to the first vertex for the closing edge.
pub open spec fn edge_b(r: Seq<Point>, j: int) -> Point {
    if j + 1 == r.len() {
        r[0]
    } else {
        r[j + 1]
    }
}

/// Twice the signed area contributed by edge `(a, b)` of a ring
/// (one term of the shoelace sum).
pub open spec fn cross_term(a: Point, b: Point) -> int {
    a.x as int * b.y as int - b.x as int * a.y as int
}

/// Shoelace sum over the first `i` edges of a ring: twice the signed area
/// once all edges are taken.
pub open spec fn ring_area2(r: Seq<Point>, i: int) -> int
    decreases i,
{
    if i <= 0 {
        0
    } else {
        ring_area2(r, i - 1) + cross_term(r[i - 1], edge_b(r, i - 1))
    }
}

/// Shoelace sums of the first `k` hole rings.
pub open spec fn holes_area2(holes: Seq<Seq<Point>>, k: int) -> int
    decreases k,
{
    if k <= 0 {
        0
    } else {
        holes_area2(holes, k - 1) + ring_area2(holes[k - 1], holes[k - 1].len() as int)
    }
}

/// Twice the signed area of the polygon: the exterior ring's shoelace sum
/// plus the hole rings' sums with the orientation they were given. A hole
/// wound opposite to the exterior subtracts its area.
pub open spec fn poly_area2(v: PolyView) -> int {
    ring_area2(v.ext, v.ext.len() as int) + holes_area2(v.holes, v.holes.len() as int)
}

/// Does the upward ray-casting edge test count edge `(a, b)` as crossed by a
/// ray going right from `p`? The half-open vertical straddle check counts
/// each vertex once; the product comparison places the intersection strictly
/// right of `p` without any division.
pub open spec fn edge_crosses(p: Point, a: Point, b: Point) -> bool {
    ((a.y as int > p.y as int) != (b.y as int > p.y as int)) && {
        let d = b.y as int - a.y as int;
        if d > 0 {
            (b.x as int - a.x as int) * (p.y as int - a.y as int) > (p.x as int - a.x as int) * d
        } else {
            (b.x as int - a.x as int) * (p.y as int - a.y as int) < (p.x as int - a.x as int) * d
        }
    }
}

/// How many of the first `i` edges of the ring the rightward ray from `p`
/// crosses.
pub open spec fn ring_crossings(p: Point, r: Seq<Point>, i: int) -> nat
    decreases i,
{
    if i <= 0 {
        0
    } else {
        ring_crossings(p, r, i - 1) + if edge_crosses(p, r[i - 1], edge_b(r, i - 1)) {
            1nat
        } else {
            0nat
        }
    }
}

/// Even-odd containment in a single ring.
pub open spec fn in_ring(p: Point, r: Seq<Point>) -> bool {
    ring_crossings(p, r, r.len() as int) % 2 == 1
}

/// The polygon's containment test: inside the exterior ring and outside
/// every hole ring. Points exactly on a ring may resolve either way.
pub open spec fn poly_contains(v: PolyView, p: Point) -> bool {
    in_ring(p, v.ext) && forall|k: int| 0 <= k < v.holes.len() ==> !in_ring(p, #[trigger] v.holes[k])
}

/// Smallest x coordinate among the first `i` vertices of a non-empty ring.
pub open spec fn ring_min_x(r: Seq<Point>, i: int) -> int
    decreases i,
{
    if i <= 1 {
        r[0].x as int
    } else if (r[i - 1].x as int) < ring_min_x(r, i - 1) {
        r[i - 1].x as int
    } else {
        ring_min_x(r, i - 1)
    }
}

pub open spec fn ring_min_y(r: Seq<Point>, i: int) -> int
    decreases i,
{
    if i <= 1 {
        r[0].y as int
    } else if (r[i - 1].y as int) < ring_min_y(r, i - 1) {
        r[i - 1].y as int
    } else {
        ring_min_y(r, i - 1)
    }
}

pub open spec fn ring_max_x(r: Seq<Point>, i: int) -> int
    decreases i,
{
    if i <= 1 {
        r[0].x as int
    } else if r[i - 1].x as int > ring_max_x(r, i - 1) {
        r[i - 1].x as int
    } else {
        ring_max_x(r, i - 1)
    }
}

pub open spec fn ring_max_y(r: Seq<Point>, i: int) -> int
    decreases i,
{
    if i <= 1 {
        r[0].y as int
    } else if r[i - 1].y as int > ring_max_y(r, i - 1) {
        r[i - 1].y as int
    } else {
        ring_max_y(r, i - 1)
    }
}

/// Minimum corner of the exterior ring's bounding rectangle.
pub open spec fn bbox_min(v: PolyView) -> Point {
    Point { x: ring_min_x(v.ext, v.ext.len() as int) as i64, y: ring_min_y(v.ext, v.ext.len() as int) as i64 }
}

/// Maximum corner of the exterior ring's bounding rectangle.
pub open spec fn bbox_max(v: PolyView) -> Point {
    Point { x: ring_max_x(v.ext, v.ext.len() as int) as i64, y: ring_max_y(v.ext, v.ext.len() as int) as i64 }
}

/// The bounding rectangle of the polygon's exterior ring, as its minimum and
/// maximum corners.
pub fn bounding_box(poly: &Polygon) -> (r: (Point, Point))
    requires
        poly.bounded(),
        poly@.ext.len() >= 1,
    ensures
        r.0 == bbox_min(poly@),
        r.1 == bbox_max(poly@),
{
    let ring = &poly.exterior;
    let n = ring.len();
    let mut min_x = ring[0].x;
    let mut min_y = ring[0].y;
    let mut max_x = ring[0].x;
    let mut max_y = ring[0].y;
    let mut i: usize = 1;
    while i < n
        invariant
            1 <= i <= n,
            n == ring@.len(),
            ring_bounded(ring@),
            min_x as int == ring_min_x(ring@, i as int),
            min_y as int == ring_min_y(ring@, i as int),
            max_x as int == ring_max_x(ring@, i as int),
            max_y as int == ring_max_y(ring@, i as int),
        decreases n - i,
    {
        let p = ring[i];
        if p.x < min_x {
            min_x = p.x;
        }
        if p.y < min_y {
            min_y = p.y;
        }
        if p.x > max_x {
            max_x = p.x;
        }
        if p.y > max_y {
            max_y = p.y;
        }
        i = i + 1;
    }
    (Point { x: min_x, y: min_y }, Point { x: max_x, y: max_y })
}

} // verus!
