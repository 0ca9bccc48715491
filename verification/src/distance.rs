//! The signed distance oracle: exact squared distances from a point to the
//! polygon outline, an integer square root, and the inside/outside sign.

use vstd::prelude::*;
use crate::geometry::{
    coord_ok, edge_b, in_ring, poly_contains, query_ok, ring_bounded, ring_crossings, Point,
    PolyView, Polygon,
};

verus! {

/// Floor of the square root of `n` (0 for negative `n`).
pub open spec fn isqrt(n: int) -> int
    decreases n,
{
    if n <= 0 {
        0
    } else {
        let r = isqrt(n - 1);
        if (r + 1) * (r + 1) <= n {
            r + 1
        } else {
            r
        }
    }
}

pub proof fn lemma_isqrt_bounds(n: int)
    requires
        n >= 0,
    ensures
        0 <= isqrt(n),
        isqrt(n) * isqrt(n) <= n,
        n < (isqrt(n) + 1) * (isqrt(n) + 1),
    decreases n,
{
    if n > 0 {
        lemma_isqrt_bounds(n - 1);
        let r = isqrt(n - 1);
        if (r + 1) * (r + 1) <= n {
            assert((r + 2) * (r + 2) > (r + 1) * (r + 1)) by (nonlinear_arith)
                requires
                    r >= 0,
            ;
            assert(n - 1 < (r + 1) * (r + 1));
        }
    }
}

pub proof fn lemma_isqrt_unique(n: int, r: int)
    requires
        n >= 0,
        r >= 0,
        r * r <= n,
        n < (r + 1) * (r + 1),
    ensures
        r == isqrt(n),
{
    lemma_isqrt_bounds(n);
    let s = isqrt(n);
    if r < s {
        assert((r + 1) * (r + 1) <= s * s) by (nonlinear_arith)
            requires
                0 <= r,
                r + 1 <= s,
        ;
    }
    if s < r {
        assert((s + 1) * (s + 1) <= r * r) by (nonlinear_arith)
            requires
                0 <= s,
                s + 1 <= r,
        ;
    }
}

/// Floor square root by binary search over the root.
pub fn isqrt_u64(n: u64) -> (r: u64)
    ensures
        r as int == isqrt(n as int),
        r * r <= n,
{
    let mut lo: u64 = 0;
    let mut hi: u64 = 0xFFFF_FFFF;
    if n < hi {
        hi = n;
    }
    proof {
        assert((n as int) < (n as int + 1) * (n as int + 1)) by (nonlinear_arith);
    }
    while lo < hi
        invariant
            0 <= lo <= hi <= 0xFFFF_FFFF,
            lo as int * lo as int <= n as int,
            (n as int) < (hi as int + 1) * (hi as int + 1),
        decreases hi - lo,
    {
        let mid: u64 = lo + (hi - lo + 1) / 2;
        assert(mid * mid <= 0xFFFF_FFFF * 0xFFFF_FFFF) by (nonlinear_arith)
            requires
                mid <= 0xFFFF_FFFF,
        ;
        if mid * mid <= n {
            lo = mid;
        } else {
            hi = mid - 1;
        }
    }
    proof {
        lemma_isqrt_unique(n as int, lo as int);
    }
    lo
}

/// The smaller of two values, taking the first on ties.
pub open spec fn min2(a: int, b: int) -> int {
    if b < a {
        b
    } else {
        a
    }
}

pub open spec fn sq(x: int) -> int {
    x * x
}

/// Squared Euclidean distance between two points.
pub open spec fn pdist2(p: Point, q: Point) -> int {
    sq(p.x as int - q.x as int) + sq(p.y as int - q.y as int)
}

/// Floor of the squared Euclidean distance from `p` to segment `(a, b)`:
/// the nearer endpoint when the projection of `p` falls outside the segment,
/// otherwise the exact rational `cross^2 / |b - a|^2` rounded down.
pub open spec fn seg_d2(p: Point, a: Point, b: Point) -> int {
    let ux = p.x as int - a.x as int;
    let uy = p.y as int - a.y as int;
    let vx = b.x as int - a.x as int;
    let vy = b.y as int - a.y as int;
    let dot = ux * vx + uy * vy;
    let len2 = vx * vx + vy * vy;
    if dot <= 0 || len2 == 0 {
        pdist2(p, a)
    } else if dot >= len2 {
        pdist2(p, b)
    } else {
        (ux * vy - uy * vx) * (ux * vy - uy * vx) / len2
    }
}

pub proof fn lemma_sq_nonneg(x: int)
    by (nonlinear_arith)
    ensures
        sq(x) >= 0,
{
}

/// A product of values bounded in magnitude is bounded by the product of
/// the magnitudes.
pub proof fn lemma_mul_bound(a: int, b: int, m1: int, m2: int)
    by (nonlinear_arith)
    requires
        -m1 <= a <= m1,
        -m2 <= b <= m2,
        0 <= m1,
        0 <= m2,
    ensures
        -(m1 * m2) <= a * b <= m1 * m2,
{
}

/// Lagrange's identity: `dot^2 + cross^2 == |u|^2 * |v|^2`.
proof fn lemma_lagrange(ux: int, uy: int, vx: int, vy: int)
    ensures
        (ux * vx + uy * vy) * (ux * vx + uy * vy) + (ux * vy - uy * vx) * (ux * vy - uy * vx) == (
        ux * ux + uy * uy) * (vx * vx + vy * vy),
{
    let a = ux * vx;
    let b = uy * vy;
    let c = ux * vy;
    let e = uy * vx;
    let x2 = ux * ux;
    let y2 = uy * uy;
    let z2 = vx * vx;
    let w2 = vy * vy;
    assert(a * b == c * e) by (nonlinear_arith)
        requires
            a == ux * vx,
            b == uy * vy,
            c == ux * vy,
            e == uy * vx,
    ;
    assert(a * a == x2 * z2 && b * b == y2 * w2 && c * c == x2 * w2 && e * e == y2 * z2)
        by (nonlinear_arith)
        requires
            a == ux * vx,
            b == uy * vy,
            c == ux * vy,
            e == uy * vx,
            x2 == ux * ux,
            y2 == uy * uy,
            z2 == vx * vx,
            w2 == vy * vy,
    ;
    assert((x2 + y2) * (z2 + w2) == x2 * z2 + x2 * w2 + y2 * z2 + y2 * w2) by (nonlinear_arith);
    assert((a + b) * (a + b) == a * a + 2 * (a * b) + b * b) by (nonlinear_arith);
    assert((c - e) * (c - e) == c * c - 2 * (c * e) + e * e) by (nonlinear_arith);
}

/// The segment distance is between 0 and the distance to endpoint `a`.
pub proof fn lemma_seg_d2_bounds(p: Point, a: Point, b: Point)
    ensures
        0 <= seg_d2(p, a, b),
        seg_d2(p, a, b) <= pdist2(p, a),
{
    let ux = p.x as int - a.x as int;
    let uy = p.y as int - a.y as int;
    let vx = b.x as int - a.x as int;
    let vy = b.y as int - a.y as int;
    let dot = ux * vx + uy * vy;
    let len2 = vx * vx + vy * vy;
    let cr = ux * vy - uy * vx;
    lemma_sq_nonneg(ux);
    lemma_sq_nonneg(uy);
    lemma_sq_nonneg(vx);
    lemma_sq_nonneg(vy);
    lemma_sq_nonneg(p.x as int - b.x as int);
    lemma_sq_nonneg(p.y as int - b.y as int);
    if dot <= 0 || len2 == 0 {
    } else if dot >= len2 {
        // beyond endpoint b, the nearer endpoint is b: |p - b|^2 <= |p - a|^2
        // follows from dot >= len2 > 0
        let wx = p.x as int - b.x as int;
        let wy = p.y as int - b.y as int;
        assert(wx * wx + wy * wy <= ux * ux + uy * uy) by (nonlinear_arith)
            requires
                wx == ux - vx,
                wy == uy - vy,
                ux * vx + uy * vy >= vx * vx + vy * vy,
        ;
    } else {
        lemma_lagrange(ux, uy, vx, vy);
        lemma_sq_nonneg(dot);
        lemma_sq_nonneg(cr);
        assert(cr * cr <= (ux * ux + uy * uy) * len2);
        assert(0 <= cr * cr / len2 && cr * cr / len2 <= ux * ux + uy * uy) by (nonlinear_arith)
            requires
                len2 > 0,
                cr * cr >= 0,
                cr * cr <= (ux * ux + uy * uy) * len2,
                ux * ux + uy * uy >= 0,
        ;
    }
}

/// Minimum of `seg_d2` over the first `i` edges of a ring (at least the
/// first edge).
pub open spec fn ring_d2(p: Point, r: Seq<Point>, i: int) -> int
    decreases i,
{
    if i <= 1 {
        seg_d2(p, r[0], edge_b(r, 0))
    } else {
        min2(ring_d2(p, r, i - 1), seg_d2(p, r[i - 1], edge_b(r, i - 1)))
    }
}

/// Minimum squared outline distance over the exterior ring and the first
/// `k` hole rings.
pub open spec fn poly_d2_upto(p: Point, v: PolyView, k: int) -> int
    decreases k,
{
    if k <= 0 {
        ring_d2(p, v.ext, v.ext.len() as int)
    } else {
        min2(poly_d2_upto(p, v, k - 1), ring_d2(p, v.holes[k - 1], v.holes[k - 1].len() as int))
    }
}

/// Floor of the squared distance from `p` to the nearest point of any ring
/// outline of the polygon.
pub open spec fn poly_d2(p: Point, v: PolyView) -> int {
    poly_d2_upto(p, v, v.holes.len() as int)
}

/// The signed distance: the outline distance, positive iff `p` is inside
/// the exterior ring and outside every hole.
pub open spec fn sdist(p: Point, v: PolyView) -> int {
    if poly_contains(v, p) {
        isqrt(poly_d2(p, v))
    } else {
        -isqrt(poly_d2(p, v))
    }
}

/// Exact floor of the squared distance from `p` to segment `(a, b)`.
fn seg_d2_exec(p: Point, a: Point, b: Point) -> (r: u64)
    requires
        query_ok(p),
        coord_ok(a.x as int),
        coord_ok(a.y as int),
        coord_ok(b.x as int),
        coord_ok(b.y as int),
    ensures
        r as int == seg_d2(p, a, b),
{
    proof {
        lemma_seg_d2_bounds(p, a, b);
        lemma_sq_nonneg(p.x as int - a.x as int);
        lemma_sq_nonneg(p.y as int - a.y as int);
    }
    let ux: i128 = p.x as i128 - a.x as i128;
    let uy: i128 = p.y as i128 - a.y as i128;
    let vx: i128 = b.x as i128 - a.x as i128;
    let vy: i128 = b.y as i128 - a.y as i128;
    proof {
        lemma_mul_bound(ux as int, vx as int, 0x2400_0000, 0x800_0000);
        lemma_mul_bound(uy as int, vy as int, 0x2400_0000, 0x800_0000);
        lemma_mul_bound(ux as int, ux as int, 0x2400_0000, 0x2400_0000);
        lemma_mul_bound(uy as int, uy as int, 0x2400_0000, 0x2400_0000);
        lemma_mul_bound(vx as int, vx as int, 0x800_0000, 0x800_0000);
        lemma_mul_bound(vy as int, vy as int, 0x800_0000, 0x800_0000);
        lemma_mul_bound(ux as int, vy as int, 0x2400_0000, 0x800_0000);
        lemma_mul_bound(uy as int, vx as int, 0x2400_0000, 0x800_0000);
    }
    let dot: i128 = ux * vx + uy * vy;
    let len2: i128 = vx * vx + vy * vy;
    if dot <= 0 || len2 == 0 {
        (ux * ux + uy * uy) as u64
    } else if dot >= len2 {
        let wx: i128 = p.x as i128 - b.x as i128;
        let wy: i128 = p.y as i128 - b.y as i128;
        proof {
            lemma_sq_nonneg(p.x as int - b.x as int);
            lemma_sq_nonneg(p.y as int - b.y as int);
            lemma_mul_bound(wx as int, wx as int, 0x2400_0000, 0x2400_0000);
            lemma_mul_bound(wy as int, wy as int, 0x2400_0000, 0x2400_0000);
        }
        (wx * wx + wy * wy) as u64
    } else {
        let cr: i128 = ux * vy - uy * vx;
        proof {
            lemma_sq_nonneg(cr as int);
            lemma_mul_bound(cr as int, cr as int, 0x2400_0000_0000_0000, 0x2400_0000_0000_0000);
        }
        let c2: u128 = (cr * cr) as u128;
        let q: u128 = c2 / (len2 as u128);
        q as u64
    }
}

/// Minimum squared distance from `p` to the outline of one ring.
fn ring_d2_exec(p: Point, ring: &Vec<Point>) -> (r: u64)
    requires
        query_ok(p),
        ring_bounded(ring@),
        ring@.len() >= 1,
    ensures
        r as int == ring_d2(p, ring@, ring@.len() as int),
{
    let n = ring.len();
    let first_b = if n == 1 {
        ring[0]
    } else {
        ring[1]
    };
    let mut acc = seg_d2_exec(p, ring[0], first_b);
    let mut i: usize = 1;
    while i < n
        invariant
            1 <= i <= n,
            n == ring@.len(),
            query_ok(p),
            ring_bounded(ring@),
            acc as int == ring_d2(p, ring@, i as int),
        decreases n - i,
    {
        let eb = if i + 1 == n {
            ring[0]
        } else {
            ring[i + 1]
        };
        let v = seg_d2_exec(p, ring[i], eb);
        if v < acc {
            acc = v;
        }
        i = i + 1;
    }
    acc
}

/// Even-odd ray-casting test for one ring.
fn ring_contains(p: Point, ring: &Vec<Point>) -> (r: bool)
    requires
        query_ok(p),
        ring_bounded(ring@),
    ensures
        r == in_ring(p, ring@),
{
    let n = ring.len();
    let mut odd = false;
    let mut i: usize = 0;
    while i < n
        invariant
            0 <= i <= n,
            n == ring@.len(),
            query_ok(p),
            ring_bounded(ring@),
            odd == (ring_crossings(p, ring@, i as int) % 2 == 1),
        decreases n - i,
    {
        let a = ring[i];
        let b = if i + 1 == n {
            ring[0]
        } else {
            ring[i + 1]
        };
        if (a.y > p.y) != (b.y > p.y) {
            let d: i128 = b.y as i128 - a.y as i128;
            proof {
                lemma_mul_bound(
                    b.x as int - a.x as int,
                    p.y as int - a.y as int,
                    0x800_0000,
                    0x2400_0000,
                );
                lemma_mul_bound(
                    p.x as int - a.x as int,
                    b.y as int - a.y as int,
                    0x2400_0000,
                    0x800_0000,
                );
            }
            let lhs: i128 = (b.x as i128 - a.x as i128) * (p.y as i128 - a.y as i128);
            let rhs: i128 = (p.x as i128 - a.x as i128) * d;
            let crossed = if d > 0 {
                lhs > rhs
            } else {
                lhs < rhs
            };
            if crossed {
                odd = !odd;
            }
        }
        i = i + 1;
    }
    odd
}

/// The polygon's own containment test: inside the exterior ring and outside
/// every hole ring, by even-odd ray casting.
pub fn contains_point(poly: &Polygon, p: Point) -> (r: bool)
    requires
        poly.bounded(),
        query_ok(p),
    ensures
        r == poly_contains(poly@, p),
{
    if !ring_contains(p, &poly.exterior) {
        return false;
    }
    let nh = poly.holes.len();
    let mut k: usize = 0;
    while k < nh
        invariant
            0 <= k <= nh,
            nh == poly@.holes.len(),
            poly.bounded(),
            query_ok(p),
            in_ring(p, poly@.ext),
            forall|j: int| 0 <= j < k ==> !in_ring(p, #[trigger] poly@.holes[j]),
        decreases nh - k,
    {
        proof {
            assert(poly@.holes[k as int] == poly.holes@[k as int]@);
        }
        if ring_contains(p, &poly.holes[k]) {
            return false;
        }
        k = k + 1;
    }
    true
}

/// Signed distance from `p` to the polygon outline: the minimum distance to
/// any ring, positive iff the polygon contains `p`.
pub fn signed_distance(p: Point, poly: &Polygon) -> (d: i64)
    requires
        poly.bounded(),
        poly@.ext.len() >= 1,
        query_ok(p),
    ensures
        d as int == sdist(p, poly@),
        -0x1_0000_0000 <= d <= 0x1_0000_0000,
{
    let inside = contains_point(poly, p);
    let mut m = ring_d2_exec(p, &poly.exterior);
    let nh = poly.holes.len();
    let mut k: usize = 0;
    while k < nh
        invariant
            0 <= k <= nh,
            nh == poly@.holes.len(),
            poly.bounded(),
            poly@.ext.len() >= 1,
            query_ok(p),
            m as int == poly_d2_upto(p, poly@, k as int),
        decreases nh - k,
    {
        proof {
            assert(poly@.holes[k as int] == poly.holes@[k as int]@);
        }
        let v = ring_d2_exec(p, &poly.holes[k]);
        if v < m {
            m = v;
        }
        k = k + 1;
    }
    let root = isqrt_u64(m);
    proof {
        lemma_isqrt_bounds(m as int);
        assert(root as int * root as int <= m as int);
        assert(root as int <= 0x1_0000_0000) by (nonlinear_arith)
            requires
                root as int >= 0,
                root as int * root as int <= m as int,
                (m as int) < 0x1_0000_0000_0000_0000,
        ;
    }
    if inside {
        root as i64
    } else {
        -(root as i64)
    }
}

} // verus!
