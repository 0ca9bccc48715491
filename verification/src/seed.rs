//! Initial-guess computation and degenerate-input handling: signed area,
//! the area-weighted centroid seed, the bounding-box dimensions and the
//! layout of the seed grid.

use vstd::prelude::*;
use vstd::arithmetic::div_mod::{lemma_fundamental_div_mod, lemma_fundamental_div_mod_converse};
use crate::geometry::{
    coord_ok, cross_term, edge_b, holes_area2, poly_area2, ring_area2, ring_bounded, ring_max_x,
    ring_max_y, ring_min_x, ring_min_y, total_hole_vertices, Point, PolyView, Polygon, COORD_LIMIT,
    VERTEX_LIMIT,
};
use crate::distance::{lemma_mul_bound, min2};
use crate::cell::iabs;

verus! {

/// Magnitude bound on one shoelace term for in-range vertices.
pub const AREA_TERM_BOUND: i128 = 0x20_0000_0000_0000;

/// Magnitude bound on one centroid-sum term for in-range vertices.
pub const CENTROID_TERM_BOUND: i128 = 0x100_0000_0000_0000_0000_0000;

/// Bounds of the running min/max over a prefix of a coordinate-bounded ring.
pub proof fn lemma_ring_extent_bounds(r: Seq<Point>, i: int)
    requires
        ring_bounded(r),
        1 <= i <= r.len(),
    ensures
        coord_ok(ring_min_x(r, i)),
        coord_ok(ring_min_y(r, i)),
        coord_ok(ring_max_x(r, i)),
        coord_ok(ring_max_y(r, i)),
        ring_min_x(r, i) <= ring_max_x(r, i),
        ring_min_y(r, i) <= ring_max_y(r, i),
    decreases i,
{
    if i > 1 {
        lemma_ring_extent_bounds(r, i - 1);
    }
}

/// One shoelace term stays within `AREA_TERM_BOUND`.
pub proof fn lemma_cross_term_bound(a: Point, b: Point)
    requires
        coord_ok(a.x as int),
        coord_ok(a.y as int),
        coord_ok(b.x as int),
        coord_ok(b.y as int),
    ensures
        iabs(cross_term(a, b)) <= AREA_TERM_BOUND as int,
{
    lemma_mul_bound(a.x as int, b.y as int, COORD_LIMIT as int, COORD_LIMIT as int);
    lemma_mul_bound(b.x as int, a.y as int, COORD_LIMIT as int, COORD_LIMIT as int);
}

/// The shoelace sum of a prefix is bounded by the number of its terms.
pub proof fn lemma_ring_area2_bound(r: Seq<Point>, i: int)
    requires
        ring_bounded(r),
        0 <= i <= r.len(),
    ensures
        iabs(ring_area2(r, i)) <= i * (AREA_TERM_BOUND as int),
    decreases i,
{
    if i > 0 {
        lemma_ring_area2_bound(r, i - 1);
        lemma_cross_term_bound(r[i - 1], edge_b(r, i - 1));
    }
}

/// Shoelace sum of one full ring, in exact 128-bit arithmetic.
fn ring_area2_exec(ring: &Vec<Point>) -> (a: i128)
    requires
        ring_bounded(ring@),
        ring@.len() <= VERTEX_LIMIT,
    ensures
        a as int == ring_area2(ring@, ring@.len() as int),
        iabs(a as int) <= ring@.len() * (AREA_TERM_BOUND as int),
{
    let n = ring.len();
    let mut acc: i128 = 0;
    let mut i: usize = 0;
    while i < n
        invariant
            0 <= i <= n,
            n == ring@.len(),
            n <= VERTEX_LIMIT,
            ring_bounded(ring@),
            acc as int == ring_area2(ring@, i as int),
            iabs(acc as int) <= i * (AREA_TERM_BOUND as int),
        decreases n - i,
    {
        let a = ring[i];
        let b = if i + 1 == n {
            ring[0]
        } else {
            ring[i + 1]
        };
        proof {
            lemma_cross_term_bound(a, b);
            lemma_mul_bound(a.x as int, b.y as int, COORD_LIMIT as int, COORD_LIMIT as int);
            lemma_mul_bound(b.x as int, a.y as int, COORD_LIMIT as int, COORD_LIMIT as int);
            assert((i + 1) * (AREA_TERM_BOUND as int) == i * (AREA_TERM_BOUND as int)
                + AREA_TERM_BOUND as int) by (nonlinear_arith);
        }
        let t: i128 = (a.x as i128) * (b.y as i128) - (b.x as i128) * (a.y as i128);
        acc = acc + t;
        i = i + 1;
    }
    acc
}

/// Twice the polygon's signed area: exterior plus holes, each ring with the
/// orientation it was given.
pub fn polygon_area2(poly: &Polygon) -> (a: i128)
    requires
        poly.bounded(),
    ensures
        a as int == poly_area2(poly@),
        iabs(a as int) <= (VERTEX_LIMIT as int) * (AREA_TERM_BOUND as int),
{
    proof {
        lemma_ring_area2_bound(poly@.ext, poly@.ext.len() as int);
        lemma_total_hole_vertices_nonneg(poly@.holes, poly@.holes.len() as int);
    }
    let mut acc: i128 = ring_area2_exec(&poly.exterior);
    let nh = poly.holes.len();
    let mut k: usize = 0;
    while k < nh
        invariant
            0 <= k <= nh,
            nh == poly@.holes.len(),
            poly.bounded(),
            acc as int == ring_area2(poly@.ext, poly@.ext.len() as int) + holes_area2(
                poly@.holes,
                k as int,
            ),
            iabs(acc as int) <= (poly@.ext.len() + total_hole_vertices(poly@.holes, k as int)) * (
            AREA_TERM_BOUND as int),
        decreases nh - k,
    {
        proof {
            assert(poly@.holes[k as int] == poly.holes@[k as int]@);
            lemma_total_hole_vertices_nonneg(poly@.holes, k as int);
            lemma_total_hole_vertices_mono(poly@.holes, k as int + 1, poly@.holes.len() as int);
            assert((poly@.ext.len() + total_hole_vertices(poly@.holes, k as int)
                + poly@.holes[k as int].len()) * (AREA_TERM_BOUND as int) == (poly@.ext.len()
                + total_hole_vertices(poly@.holes, k as int)) * (AREA_TERM_BOUND as int)
                + poly@.holes[k as int].len() * (AREA_TERM_BOUND as int)) by (nonlinear_arith);
        }
        let ha = ring_area2_exec(&poly.holes[k]);
        acc = acc + ha;
        k = k + 1;
    }
    proof {
        assert(iabs(acc as int) <= (VERTEX_LIMIT as int) * (AREA_TERM_BOUND as int))
            by (nonlinear_arith)
            requires
                iabs(acc as int) <= (poly@.ext.len() + total_hole_vertices(
                    poly@.holes,
                    poly@.holes.len() as int,
                )) * (AREA_TERM_BOUND as int),
                poly@.ext.len() + total_hole_vertices(poly@.holes, poly@.holes.len() as int)
                    <= VERTEX_LIMIT as int,
                0 <= poly@.ext.len() + total_hole_vertices(poly@.holes, poly@.holes.len() as int),
        ;
    }
    acc
}

/// The hole-vertex count of a prefix is never negative.
pub proof fn lemma_total_hole_vertices_nonneg(holes: Seq<Seq<Point>>, k: int)
    requires
        0 <= k <= holes.len(),
    ensures
        0 <= total_hole_vertices(holes, k),
    decreases k,
{
    if k > 0 {
        lemma_total_hole_vertices_nonneg(holes, k - 1);
    }
}

/// Prefixes of the hole-vertex count are monotone (every ring is non-empty
/// in a bounded polygon, but 0-length rings would not break this either).
pub proof fn lemma_total_hole_vertices_mono(holes: Seq<Seq<Point>>, k1: int, k2: int)
    requires
        0 <= k1 <= k2 <= holes.len(),
    ensures
        total_hole_vertices(holes, k1) <= total_hole_vertices(holes, k2),
    decreases k2 - k1,
{
    if k1 < k2 {
        lemma_total_hole_vertices_mono(holes, k1, k2 - 1);
    }
}

/// Centroid x numerator over the first `i` edges of a ring:
/// the sum of `(x_a + x_b) * cross_term(a, b)`.
pub open spec fn ring_cx6(r: Seq<Point>, i: int) -> int
    decreases i,
{
    if i <= 0 {
        0
    } else {
        ring_cx6(r, i - 1) + (r[i - 1].x as int + edge_b(r, i - 1).x as int) * cross_term(
            r[i - 1],
            edge_b(r, i - 1),
        )
    }
}

/// Centroid y numerator over the first `i` edges of a ring.
pub open spec fn ring_cy6(r: Seq<Point>, i: int) -> int
    decreases i,
{
    if i <= 0 {
        0
    } else {
        ring_cy6(r, i - 1) + (r[i - 1].y as int + edge_b(r, i - 1).y as int) * cross_term(
            r[i - 1],
            edge_b(r, i - 1),
        )
    }
}

pub open spec fn holes_cx6(holes: Seq<Seq<Point>>, k: int) -> int
    decreases k,
{
    if k <= 0 {
        0
    } else {
        holes_cx6(holes, k - 1) + ring_cx6(holes[k - 1], holes[k - 1].len() as int)
    }
}

pub open spec fn holes_cy6(holes: Seq<Seq<Point>>, k: int) -> int
    decreases k,
{
    if k <= 0 {
        0
    } else {
        holes_cy6(holes, k - 1) + ring_cy6(holes[k - 1], holes[k - 1].len() as int)
    }
}

/// Centroid x numerator of the whole polygon (six times area times x).
pub open spec fn poly_cx6(v: PolyView) -> int {
    ring_cx6(v.ext, v.ext.len() as int) + holes_cx6(v.holes, v.holes.len() as int)
}

pub open spec fn poly_cy6(v: PolyView) -> int {
    ring_cy6(v.ext, v.ext.len() as int) + holes_cy6(v.holes, v.holes.len() as int)
}

/// Floor division for a non-zero divisor of either sign.
pub open spec fn fdiv(a: int, b: int) -> int {
    if b < 0 {
        (-a) / (-b)
    } else {
        a / b
    }
}

/// The polygon's area-weighted centroid, rounded toward minus infinity in
/// each coordinate. Meaningful only when the signed area is non-zero.
pub open spec fn centroid_x(v: PolyView) -> int {
    fdiv(poly_cx6(v), 3 * poly_area2(v))
}

pub open spec fn centroid_y(v: PolyView) -> int {
    fdiv(poly_cy6(v), 3 * poly_area2(v))
}

/// Whether the centroid seed can be represented within the vertex
/// coordinate range. A simple polygon's centroid always lies in its
/// bounding box, so this only fails for degenerate (for example
/// self-overlapping, almost zero-area) vertex sets.
pub open spec fn centroid_in_range(v: PolyView) -> bool {
    coord_ok(centroid_x(v)) && coord_ok(centroid_y(v))
}

/// The centroid seed as a point.
pub open spec fn centroid_point(v: PolyView) -> Point {
    Point { x: centroid_x(v) as i64, y: centroid_y(v) as i64 }
}

/// Width of the exterior ring's bounding box.
pub open spec fn bb_w(v: PolyView) -> int {
    ring_max_x(v.ext, v.ext.len() as int) - ring_min_x(v.ext, v.ext.len() as int)
}

/// Height of the exterior ring's bounding box.
pub open spec fn bb_h(v: PolyView) -> int {
    ring_max_y(v.ext, v.ext.len() as int) - ring_min_y(v.ext, v.ext.len() as int)
}

/// Half-extent of the seed cells: half the smaller bounding-box dimension.
pub open spec fn half0(v: PolyView) -> int {
    min2(bb_w(v), bb_h(v)) / 2
}

/// The center of the bounding box (rounded toward the minimum corner).
pub open spec fn bb_center(v: PolyView) -> Point {
    Point {
        x: (ring_min_x(v.ext, v.ext.len() as int) + bb_w(v) / 2) as i64,
        y: (ring_min_y(v.ext, v.ext.len() as int) + bb_h(v) / 2) as i64,
    }
}

/// Number of grid columns: the bounding-box width covered by cells of side
/// `2 * half0`.
pub open spec fn grid_nx(v: PolyView) -> int {
    (bb_w(v) + 2 * half0(v) - 1) / (2 * half0(v))
}

/// Number of grid rows.
pub open spec fn grid_ny(v: PolyView) -> int {
    (bb_h(v) + 2 * half0(v) - 1) / (2 * half0(v))
}

/// Center of seed-grid cell `(i, j)`: the grid starts at the bounding box's
/// minimum corner and tiles it with cells of side `2 * half0`.
pub open spec fn grid_point(v: PolyView, i: int, j: int) -> Point {
    Point {
        x: (ring_min_x(v.ext, v.ext.len() as int) + i * (2 * half0(v)) + half0(v)) as i64,
        y: (ring_min_y(v.ext, v.ext.len() as int) + j * (2 * half0(v)) + half0(v)) as i64,
    }
}

/// Floor division of 128-bit values, for a positive divisor.
fn fdiv_i128(a: i128, b: i128) -> (q: i128)
    requires
        0 < b,
        -0x4000_0000_0000_0000_0000_0000_0000_0000 < a,
        b < 0x4000_0000_0000_0000_0000_0000_0000_0000,
        a < 0x4000_0000_0000_0000_0000_0000_0000_0000,
    ensures
        q as int == fdiv(a as int, b as int),
{
    if a >= 0 {
        (((a as u128) / (b as u128))) as i128
    } else {
        let m: u128 = (-a) as u128;
        let du: u128 = b as u128;
        let qq: u128 = (m + du - 1) / du;
        proof {
            let mi = m as int;
            let di = du as int;
            lemma_fundamental_div_mod(mi + di - 1, di);
            let q1 = (mi + di - 1) / di;
            let r1 = (mi + di - 1) % di;
            assert((-q1) * di + (di - 1 - r1) == -mi) by (nonlinear_arith)
                requires
                    mi + di - 1 == di * q1 + r1,
            ;
            lemma_fundamental_div_mod_converse(-mi, di, -q1, di - 1 - r1);
        }
        -(qq as i128)
    }
}

/// One centroid-sum term stays within `CENTROID_TERM_BOUND`.
pub proof fn lemma_centroid_term_bound(a: Point, b: Point)
    requires
        coord_ok(a.x as int),
        coord_ok(a.y as int),
        coord_ok(b.x as int),
        coord_ok(b.y as int),
    ensures
        iabs((a.x as int + b.x as int) * cross_term(a, b)) <= CENTROID_TERM_BOUND as int,
        iabs((a.y as int + b.y as int) * cross_term(a, b)) <= CENTROID_TERM_BOUND as int,
{
    lemma_cross_term_bound(a, b);
    lemma_mul_bound(
        a.x as int + b.x as int,
        cross_term(a, b),
        2 * COORD_LIMIT as int,
        AREA_TERM_BOUND as int,
    );
    lemma_mul_bound(
        a.y as int + b.y as int,
        cross_term(a, b),
        2 * COORD_LIMIT as int,
        AREA_TERM_BOUND as int,
    );
}

/// Prefix bound for the centroid numerators.
pub proof fn lemma_ring_c6_bound(r: Seq<Point>, i: int)
    requires
        ring_bounded(r),
        0 <= i <= r.len(),
    ensures
        iabs(ring_cx6(r, i)) <= i * (CENTROID_TERM_BOUND as int),
        iabs(ring_cy6(r, i)) <= i * (CENTROID_TERM_BOUND as int),
    decreases i,
{
    if i > 0 {
        lemma_ring_c6_bound(r, i - 1);
        lemma_centroid_term_bound(r[i - 1], edge_b(r, i - 1));
    }
}

/// Centroid numerators of one ring.
fn ring_c6_exec(ring: &Vec<Point>) -> (s: (i128, i128))
    requires
        ring_bounded(ring@),
        ring@.len() <= VERTEX_LIMIT,
    ensures
        s.0 as int == ring_cx6(ring@, ring@.len() as int),
        s.1 as int == ring_cy6(ring@, ring@.len() as int),
        iabs(s.0 as int) <= ring@.len() * (CENTROID_TERM_BOUND as int),
        iabs(s.1 as int) <= ring@.len() * (CENTROID_TERM_BOUND as int),
{
    let n = ring.len();
    let mut sx: i128 = 0;
    let mut sy: i128 = 0;
    let mut i: usize = 0;
    while i < n
        invariant
            0 <= i <= n,
            n == ring@.len(),
            n <= VERTEX_LIMIT,
            ring_bounded(ring@),
            sx as int == ring_cx6(ring@, i as int),
            sy as int == ring_cy6(ring@, i as int),
            iabs(sx as int) <= i * (CENTROID_TERM_BOUND as int),
            iabs(sy as int) <= i * (CENTROID_TERM_BOUND as int),
        decreases n - i,
    {
        let a = ring[i];
        let b = if i + 1 == n {
            ring[0]
        } else {
            ring[i + 1]
        };
        proof {
            lemma_centroid_term_bound(a, b);
            lemma_cross_term_bound(a, b);
            lemma_mul_bound(a.x as int, b.y as int, COORD_LIMIT as int, COORD_LIMIT as int);
            lemma_mul_bound(b.x as int, a.y as int, COORD_LIMIT as int, COORD_LIMIT as int);
            assert((i + 1) * (CENTROID_TERM_BOUND as int) == i * (CENTROID_TERM_BOUND as int)
                + CENTROID_TERM_BOUND as int) by (nonlinear_arith);
        }
        let ct: i128 = (a.x as i128) * (b.y as i128) - (b.x as i128) * (a.y as i128);
        sx = sx + (a.x as i128 + b.x as i128) * ct;
        sy = sy + (a.y as i128 + b.y as i128) * ct;
        i = i + 1;
    }
    (sx, sy)
}

/// The centroid seed of the polygon, or `None` when it does not fit in the
/// coordinate range (a degenerate vertex set).
pub fn centroid_seed(poly: &Polygon) -> (r: Option<Point>)
    requires
        poly.bounded(),
        poly_area2(poly@) != 0,
    ensures
        centroid_in_range(poly@) <==> r is Some,
        r is Some ==> r == Some(centroid_point(poly@)),
{
    proof {
        lemma_ring_c6_bound(poly@.ext, poly@.ext.len() as int);
        lemma_total_hole_vertices_nonneg(poly@.holes, poly@.holes.len() as int);
    }
    let sums = ring_c6_exec(&poly.exterior);
    let mut sx: i128 = sums.0;
    let mut sy: i128 = sums.1;
    let nh = poly.holes.len();
    let mut k: usize = 0;
    while k < nh
        invariant
            0 <= k <= nh,
            nh == poly@.holes.len(),
            poly.bounded(),
            sx as int == ring_cx6(poly@.ext, poly@.ext.len() as int) + holes_cx6(
                poly@.holes,
                k as int,
            ),
            sy as int == ring_cy6(poly@.ext, poly@.ext.len() as int) + holes_cy6(
                poly@.holes,
                k as int,
            ),
            iabs(sx as int) <= (poly@.ext.len() + total_hole_vertices(poly@.holes, k as int)) * (
            CENTROID_TERM_BOUND as int),
            iabs(sy as int) <= (poly@.ext.len() + total_hole_vertices(poly@.holes, k as int)) * (
            CENTROID_TERM_BOUND as int),
        decreases nh - k,
    {
        proof {
            assert(poly@.holes[k as int] == poly.holes@[k as int]@);
            lemma_total_hole_vertices_nonneg(poly@.holes, k as int);
            lemma_total_hole_vertices_mono(poly@.holes, k as int + 1, poly@.holes.len() as int);
            assert((poly@.ext.len() + total_hole_vertices(poly@.holes, k as int)
                + poly@.holes[k as int].len()) * (CENTROID_TERM_BOUND as int) == (poly@.ext.len()
                + total_hole_vertices(poly@.holes, k as int)) * (CENTROID_TERM_BOUND as int)
                + poly@.holes[k as int].len() * (CENTROID_TERM_BOUND as int)) by (nonlinear_arith);
        }
        let hs = ring_c6_exec(&poly.holes[k]);
        sx = sx + hs.0;
        sy = sy + hs.1;
        k = k + 1;
    }
    proof {
        assert(iabs(sx as int) <= (VERTEX_LIMIT as int) * (CENTROID_TERM_BOUND as int)
            && iabs(sy as int) <= (VERTEX_LIMIT as int) * (CENTROID_TERM_BOUND as int))
            by (nonlinear_arith)
            requires
                iabs(sx as int) <= (poly@.ext.len() + total_hole_vertices(
                    poly@.holes,
                    poly@.holes.len() as int,
                )) * (CENTROID_TERM_BOUND as int),
                iabs(sy as int) <= (poly@.ext.len() + total_hole_vertices(
                    poly@.holes,
                    poly@.holes.len() as int,
                )) * (CENTROID_TERM_BOUND as int),
                poly@.ext.len() + total_hole_vertices(poly@.holes, poly@.holes.len() as int)
                    <= VERTEX_LIMIT as int,
                0 <= poly@.ext.len() + total_hole_vertices(poly@.holes, poly@.holes.len() as int),
        ;
    }
    let area2 = polygon_area2(poly);
    let den: i128 = 3 * area2;
    let (num_x, num_y, den_pos): (i128, i128, i128) = if den < 0 {
        (-sx, -sy, -den)
    } else {
        (sx, sy, den)
    };
    let cx = fdiv_i128(num_x, den_pos);
    let cy = fdiv_i128(num_y, den_pos);
    proof {
        assert(cx as int == fdiv(sx as int, 3 * poly_area2(poly@)) && cy as int == fdiv(
            sy as int,
            3 * poly_area2(poly@),
        ));
    }
    if cx > COORD_LIMIT as i128 || cx < -(COORD_LIMIT as i128) || cy > COORD_LIMIT as i128 || cy
        < -(COORD_LIMIT as i128) {
        None
    } else {
        Some(Point { x: cx as i64, y: cy as i64 })
    }
}

} // verus!
