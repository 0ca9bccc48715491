//! Search cells: one immutable square region of the subdivision, with its
//! centroid's signed distance and the upper bound on the distance achievable
//! anywhere in the region.

use vstd::prelude::*;
use crate::geometry::{query_ok, Point, PolyView, Polygon, COORD_LIMIT, QUERY_LIMIT};
use crate::distance::{isqrt, isqrt_u64, lemma_isqrt_bounds, lemma_mul_bound, sdist, signed_distance};

verus! {

/// One square search region: its center, half of its side length, the signed
/// distance at the center, and `distance + ceil(half_extent * sqrt(2))`, an
/// upper bound on the signed distance at any point of the region.
#[derive(Clone, Copy, PartialEq, Eq, Structural, Debug)]
pub struct Cell {
    pub centroid: Point,
    pub half_extent: i64,
    pub distance: i64,
    pub max_distance: i64,
}

pub open spec fn iabs(x: int) -> int {
    if x < 0 {
        -x
    } else {
        x
    }
}

/// Ceiling of `h * sqrt(2)`: the distance from a square's center to its
/// corner, for half-extent `h`, rounded up.
pub open spec fn sqrt2_ceil(h: int) -> int {
    let s = isqrt(2 * (h * h));
    if s * s == 2 * (h * h) {
        s
    } else {
        s + 1
    }
}

/// `sqrt2_ceil` is 0 at 0 and stays between 0 and `2h + 1`.
pub proof fn lemma_sqrt2_ceil_bounds(h: int)
    requires
        0 <= h,
    ensures
        0 <= sqrt2_ceil(h) <= 2 * h + 1,
        h == 0 ==> sqrt2_ceil(h) == 0,
{
    let t = 2 * (h * h);
    assert(t >= 0) by (nonlinear_arith)
        requires
            t == 2 * (h * h),
            h >= 0,
    ;
    lemma_isqrt_bounds(t);
    let s = isqrt(t);
    assert(s <= 2 * h) by (nonlinear_arith)
        requires
            s >= 0,
            h >= 0,
            s * s <= 2 * (h * h),
    ;
    if h == 0 {
        assert(t == 0);
        assert(isqrt(0) == 0);
    }
}

/// The exact cell the search builds for center `p` and half-extent `h`:
/// every field is a function of the polygon, `p` and `h` alone.
pub open spec fn mk_cell(v: PolyView, p: Point, h: int) -> Cell {
    Cell {
        centroid: p,
        half_extent: h as i64,
        distance: sdist(p, v) as i64,
        max_distance: (sdist(p, v) + sqrt2_ceil(h)) as i64,
    }
}

/// A cell as the search maintains it: the stored distance is the signed
/// distance at the centroid, the bound is `distance + ceil(h * sqrt(2))`,
/// and centroid and half-extent leave room for subdivision within the
/// query range.
pub open spec fn cell_wf(c: Cell, v: PolyView) -> bool {
    &&& c.distance as int == sdist(c.centroid, v)
    &&& -0x1_0000_0000 <= c.distance as int <= 0x1_0000_0000
    &&& c.max_distance as int == c.distance as int + sqrt2_ceil(c.half_extent as int)
    &&& 0 <= c.half_extent as int <= COORD_LIMIT as int
    &&& iabs(c.centroid.x as int) + c.half_extent as int <= QUERY_LIMIT as int
    &&& iabs(c.centroid.y as int) + c.half_extent as int <= QUERY_LIMIT as int
}

/// The upper bound of a well-formed cell is never below its distance.
pub proof fn lemma_cell_max_ge_distance(c: Cell, v: PolyView)
    requires
        cell_wf(c, v),
    ensures
        c.max_distance >= c.distance,
{
    lemma_sqrt2_ceil_bounds(c.half_extent as int);
}

/// Ceiling of `h * sqrt(2)`, computed through the integer square root.
pub fn sqrt2_ceil_exec(h: i64) -> (r: i64)
    requires
        0 <= h <= COORD_LIMIT,
    ensures
        r as int == sqrt2_ceil(h as int),
        0 <= r <= 2 * h + 1,
{
    proof {
        lemma_sqrt2_ceil_bounds(h as int);
        lemma_mul_bound(h as int, h as int, COORD_LIMIT as int, COORD_LIMIT as int);
    }
    let hh: u64 = h as u64;
    let t: u64 = 2 * (hh * hh);
    let s: u64 = isqrt_u64(t);
    proof {
        lemma_isqrt_bounds(t as int);
        assert(s as int <= 2 * (h as int)) by (nonlinear_arith)
            requires
                s as int >= 0,
                h as int >= 0,
                (s as int) * (s as int) <= 2 * ((h as int) * (h as int)),
        ;
    }
    if s * s == t {
        s as i64
    } else {
        (s + 1) as i64
    }
}

impl Cell {
    /// Evaluate the signed distance oracle at `centroid` and package it with
    /// the region's upper bound.
    pub fn new(centroid: Point, half_extent: i64, poly: &Polygon) -> (c: Cell)
        requires
            poly.bounded(),
            poly@.ext.len() >= 1,
            0 <= half_extent <= COORD_LIMIT,
            iabs(centroid.x as int) + half_extent as int <= QUERY_LIMIT as int,
            iabs(centroid.y as int) + half_extent as int <= QUERY_LIMIT as int,
        ensures
            c.centroid == centroid,
            c.half_extent == half_extent,
            cell_wf(c, poly@),
            c == mk_cell(poly@, centroid, half_extent as int),
    {
        let distance = signed_distance(centroid, poly);
        let bound = sqrt2_ceil_exec(half_extent);
        Cell { centroid, half_extent, distance, max_distance: distance + bound }
    }
}

} // verus!
