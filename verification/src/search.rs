//! The branch-and-bound search driver: seed the queue with a grid over the
//! bounding box, repeatedly pop the most promising cell, keep the best
//! answer, prune cells that cannot beat it by more than the tolerance, and
//! subdivide the rest.

use vstd::prelude::*;
use vstd::arithmetic::div_mod::{lemma_fundamental_div_mod, lemma_fundamental_div_mod_converse};
use vstd::arithmetic::mul::lemma_mul_inequality;
use crate::geometry::{
    bbox_min, bounding_box, poly_area2, poly_contains, Point, PolyView, Polygon, COORD_LIMIT,
};
use crate::distance::{lemma_isqrt_bounds, min2, poly_d2, sdist};
use crate::cell::{cell_wf, lemma_sqrt2_ceil_bounds, mk_cell, Cell};
use crate::queue::{lemma_top_idx_props, top_index, CellQueue};
use crate::seed::{
    bb_center, bb_h, bb_w, centroid_in_range, centroid_point, centroid_seed, grid_nx, grid_ny,
    grid_point, half0, lemma_ring_extent_bounds, polygon_area2,
};
use crate::errors::PolylabelError;

verus! {

/// A polygon on which no search is meaningful: its signed area is exactly
/// zero, or its bounding box is too thin for even one halving of the
/// smaller dimension. Both short-circuit to the bounding box's minimum
/// corner.
pub open spec fn degenerate(v: PolyView) -> bool {
    poly_area2(v) == 0 || half0(v) == 0
}

/// A positive signed distance means the point passes the polygon's own
/// containment test: the sign of the oracle is defined by that test.
pub proof fn lemma_sdist_positive_contains(p: Point, v: PolyView)
    ensures
        sdist(p, v) > 0 ==> poly_contains(v, p),
{
    if poly_d2(p, v) > 0 {
        lemma_isqrt_bounds(poly_d2(p, v));
    }
}

/// Some pending cell sits exactly on seed-grid point `(gi, gj)`.
pub open spec fn grid_covered(s: Seq<Cell>, v: PolyView, gi: int, gj: int) -> bool {
    exists|k: int| 0 <= k < s.len() && (#[trigger] s[k]).centroid == grid_point(v, gi, gj)
}

/// Potential of one cell: an upper bound on the number of cells its
/// subdivision can ever contribute to the queue, itself included. Each
/// subdivision halves the half-extent, so the potential is finite.
pub open spec fn cell_pot(h: int) -> nat
    decreases h,
{
    if h <= 0 {
        1
    } else {
        1 + 4 * cell_pot(h / 2)
    }
}

/// Total potential of a queue: the termination measure of the search loop.
pub open spec fn qpot(s: Seq<Cell>) -> nat
    decreases s.len(),
{
    if s.len() == 0 {
        0
    } else {
        qpot(s.drop_last()) + cell_pot(s.last().half_extent as int)
    }
}

proof fn lemma_cell_pot_pos(h: int)
    ensures
        cell_pot(h) >= 1,
{
}

proof fn lemma_qpot_push(s: Seq<Cell>, c: Cell)
    ensures
        qpot(s.push(c)) == qpot(s) + cell_pot(c.half_extent as int),
{
    assert(s.push(c).drop_last() =~= s);
    assert(s.push(c).last() == c);
}

proof fn lemma_qpot_remove(s: Seq<Cell>, i: int)
    requires
        0 <= i < s.len(),
    ensures
        qpot(s) == qpot(s.remove(i)) + cell_pot(s[i].half_extent as int),
    decreases s.len(),
{
    if i == s.len() - 1 {
        assert(s.remove(i) =~= s.drop_last());
    } else {
        let t = s.drop_last();
        assert(s.remove(i).drop_last() =~= t.remove(i));
        assert(s.remove(i).last() == s.last());
        lemma_qpot_remove(t, i);
    }
}

/// The cells the grid seeding produces, in push order: row-major over the
/// grid, one cell per grid point.
pub open spec fn seed_seq(v: PolyView) -> Seq<Cell> {
    Seq::new(
        (grid_nx(v) * grid_ny(v)) as nat,
        |k: int| mk_cell(v, grid_point(v, k / grid_ny(v), k % grid_ny(v)), half0(v)),
    )
}

/// The initial best answer: whichever of the centroid seed and the
/// bounding-box-center seed has the larger signed distance (the centroid
/// on a tie).
pub open spec fn init_best(v: PolyView) -> Cell {
    let cc = mk_cell(v, centroid_point(v), 0);
    let bc = mk_cell(v, bb_center(v), 0);
    if cc.distance >= bc.distance {
        cc
    } else {
        bc
    }
}

/// The whole search, one step per unfolding: pop the first cell with the
/// greatest upper bound, raise the best answer if the cell beats it, then
/// either discard the cell (it cannot beat the best by more than the
/// tolerance, or it has no extent left to split) or push its four
/// quadrants. The guard on a positive half-extent only serves to make the
/// function total: the search itself never subdivides a cell whose pruning
/// test passes.
pub open spec fn search_rec(v: PolyView, tol: int, s: Seq<Cell>, best: Cell) -> Cell
    decreases qpot(s),
    via search_rec_decreases
{
    if s.len() == 0 {
        best
    } else {
        let t = top_index(s);
        let c = s[t];
        let s1 = s.remove(t);
        let best1 = if c.distance > best.distance {
            c
        } else {
            best
        };
        if c.max_distance - best1.distance <= tol || c.half_extent < 1 {
            search_rec(v, tol, s1, best1)
        } else {
            let hn = (c.half_extent as int) / 2;
            let cx = c.centroid.x as int;
            let cy = c.centroid.y as int;
            let s2 = s1.push(mk_cell(v, Point { x: (cx - hn) as i64, y: (cy - hn) as i64 }, hn))
                .push(mk_cell(v, Point { x: (cx + hn) as i64, y: (cy - hn) as i64 }, hn)).push(
                mk_cell(v, Point { x: (cx - hn) as i64, y: (cy + hn) as i64 }, hn),
            ).push(mk_cell(v, Point { x: (cx + hn) as i64, y: (cy + hn) as i64 }, hn));
            search_rec(v, tol, s2, best1)
        }
    }
}

#[via_fn]
proof fn search_rec_decreases(v: PolyView, tol: int, s: Seq<Cell>, best: Cell) {
    if s.len() > 0 {
        let t = top_index(s);
        lemma_top_idx_props(s, s.len() as int);
        lemma_qpot_remove(s, t);
        let c = s[t];
        lemma_cell_pot_pos(c.half_extent as int);
        let s1 = s.remove(t);
        let best1 = if c.distance > best.distance {
            c
        } else {
            best
        };
        if !(c.max_distance - best1.distance <= tol || c.half_extent < 1) {
            let h = c.half_extent as int;
            let hn = h / 2;
            let cx = c.centroid.x as int;
            let cy = c.centroid.y as int;
            let c0 = mk_cell(v, Point { x: (cx - hn) as i64, y: (cy - hn) as i64 }, hn);
            let c1 = mk_cell(v, Point { x: (cx + hn) as i64, y: (cy - hn) as i64 }, hn);
            let c2 = mk_cell(v, Point { x: (cx - hn) as i64, y: (cy + hn) as i64 }, hn);
            let c3 = mk_cell(v, Point { x: (cx + hn) as i64, y: (cy + hn) as i64 }, hn);
            lemma_qpot_push(s1, c0);
            lemma_qpot_push(s1.push(c0), c1);
            lemma_qpot_push(s1.push(c0).push(c1), c2);
            lemma_qpot_push(s1.push(c0).push(c1).push(c2), c3);
            assert(0 <= hn < h);
            assert(c0.half_extent as int == hn && c1.half_extent as int == hn && c2.half_extent
                as int == hn && c3.half_extent as int == hn);
            assert(cell_pot(h) == 1 + 4 * cell_pot(hn));
        }
    }
}

/// The search never loses ground: its answer is at least as far from the
/// outline as the best answer it starts from and as every pending cell's
/// center. Together with the seeding this makes the returned point dominate
/// everything the search ever examines.
pub proof fn lemma_search_result_dominates(v: PolyView, tol: int, s: Seq<Cell>, best: Cell)
    ensures
        search_rec(v, tol, s, best).distance >= best.distance,
        forall|k: int|
            0 <= k < s.len() ==> (#[trigger] s[k]).distance <= search_rec(v, tol, s, best).distance,
    decreases qpot(s),
{
    if s.len() > 0 {
        let t = top_index(s);
        lemma_top_idx_props(s, s.len() as int);
        lemma_qpot_remove(s, t);
        let c = s[t];
        lemma_cell_pot_pos(c.half_extent as int);
        let s1 = s.remove(t);
        s.remove_ensures(t);
        let best1 = if c.distance > best.distance {
            c
        } else {
            best
        };
        let r = search_rec(v, tol, s, best);
        if c.max_distance - best1.distance <= tol || c.half_extent < 1 {
            lemma_search_result_dominates(v, tol, s1, best1);
            assert forall|k: int| 0 <= k < s.len() implies (#[trigger] s[k]).distance
                <= r.distance by {
                if k < t {
                    assert(s1[k] == s[k]);
                } else if k > t {
                    assert(s1[k - 1] == s[k]);
                }
            }
        } else {
            let hn = (c.half_extent as int) / 2;
            let cx = c.centroid.x as int;
            let cy = c.centroid.y as int;
            let c0 = mk_cell(v, Point { x: (cx - hn) as i64, y: (cy - hn) as i64 }, hn);
            let c1 = mk_cell(v, Point { x: (cx + hn) as i64, y: (cy - hn) as i64 }, hn);
            let c2 = mk_cell(v, Point { x: (cx - hn) as i64, y: (cy + hn) as i64 }, hn);
            let c3 = mk_cell(v, Point { x: (cx + hn) as i64, y: (cy + hn) as i64 }, hn);
            let s2 = s1.push(c0).push(c1).push(c2).push(c3);
            lemma_qpot_push(s1, c0);
            lemma_qpot_push(s1.push(c0), c1);
            lemma_qpot_push(s1.push(c0).push(c1), c2);
            lemma_qpot_push(s1.push(c0).push(c1).push(c2), c3);
            assert(cell_pot(c.half_extent as int) == 1 + 4 * cell_pot(hn));
            lemma_search_result_dominates(v, tol, s2, best1);
            assert forall|k: int| 0 <= k < s.len() implies (#[trigger] s[k]).distance
                <= r.distance by {
                if k < t {
                    assert(s2[k] == s[k]);
                } else if k > t {
                    assert(s2[k - 1] == s[k]);
                }
            }
        }
    }
}

/// The search result as a mathematical function of the input: the basis of
/// the determinism guarantee.
pub open spec fn polylabel_spec(v: PolyView, tol: int) -> Result<Point, PolylabelError> {
    if v.ext.len() == 0 {
        Err(PolylabelError::RectCalculation)
    } else if degenerate(v) {
        Ok(bbox_min(v))
    } else if !centroid_in_range(v) {
        Err(PolylabelError::CentroidCalculation)
    } else {
        Ok(search_rec(v, tol, seed_seq(v), init_best(v)).centroid)
    }
}

/// Determinism: the result is a function of the polygon and the tolerance
/// alone, so repeated calls with identical inputs return bit-identical
/// output.
pub proof fn lemma_polylabel_deterministic(
    v: PolyView,
    tol: int,
    r1: Result<Point, PolylabelError>,
    r2: Result<Point, PolylabelError>,
)
    requires
        r1 == polylabel_spec(v, tol),
        r2 == polylabel_spec(v, tol),
    ensures
        r1 == r2,
{
}

/// Fill the queue with a grid of square cells of side `2 * half` covering
/// the bounding box from its minimum corner.
fn seed_grid(poly: &Polygon, q: &mut CellQueue, minx: i64, miny: i64, half: i64, nx: u64, ny: u64)
    requires
        poly.bounded(),
        poly@.ext.len() >= 1,
        old(q)@.len() == 0,
        half as int == half0(poly@),
        1 <= half,
        minx as int == bbox_min(poly@).x as int,
        miny as int == bbox_min(poly@).y as int,
        nx as int == grid_nx(poly@),
        ny as int == grid_ny(poly@),
    ensures
        forall|k: int| 0 <= k < final(q)@.len() ==> cell_wf(#[trigger] final(q)@[k], poly@),
        forall|gi: int, gj: int|
            0 <= gi < grid_nx(poly@) && 0 <= gj < grid_ny(poly@) ==> #[trigger] grid_covered(
                final(q)@,
                poly@,
                gi,
                gj,
            ),
        final(q)@ == seed_seq(poly@),
{
    let ghost v = poly@;
    let ghost w = bb_w(v);
    let ghost hgt = bb_h(v);
    let ghost step = 2 * half0(v);
    proof {
        lemma_ring_extent_bounds(v.ext, v.ext.len() as int);
        // the grid spans the box: nx * step is within one step above the width
        lemma_fundamental_div_mod(w + step - 1, step);
        lemma_fundamental_div_mod(hgt + step - 1, step);
        assert(half0(v) <= min2(w, hgt)) by {
            lemma_fundamental_div_mod(min2(w, hgt), 2);
        }
    }
    let step_e: u64 = 2 * (half as u64);
    let mut i: u64 = 0;
    while i < nx
        invariant
            0 <= i <= nx,
            poly.bounded(),
            poly@.ext.len() >= 1,
            v == poly@,
            half as int == half0(v),
            1 <= half,
            step == 2 * half0(v),
            step_e as int == step,
            minx as int == bbox_min(v).x as int,
            miny as int == bbox_min(v).y as int,
            nx as int == grid_nx(v),
            ny as int == grid_ny(v),
            (nx as int) * step <= bb_w(v) + step - 1,
            (ny as int) * step <= bb_h(v) + step - 1,
            bb_w(v) <= 2 * COORD_LIMIT as int,
            bb_h(v) <= 2 * COORD_LIMIT as int,
            -(COORD_LIMIT as int) <= minx as int <= COORD_LIMIT as int,
            -(COORD_LIMIT as int) <= miny as int <= COORD_LIMIT as int,
            q@.len() == i * ny,
            forall|k: int|
                0 <= k < q@.len() ==> cell_wf(#[trigger] q@[k], v) && q@[k] == mk_cell(
                    v,
                    grid_point(v, k / (ny as int), k % (ny as int)),
                    half0(v),
                ),
        decreases nx - i,
    {
        let mut j: u64 = 0;
        while j < ny
            invariant
                0 <= i < nx,
                0 <= j <= ny,
                poly.bounded(),
                poly@.ext.len() >= 1,
                v == poly@,
                half as int == half0(v),
                1 <= half,
                step == 2 * half0(v),
                step_e as int == step,
                minx as int == bbox_min(v).x as int,
                miny as int == bbox_min(v).y as int,
                nx as int == grid_nx(v),
                ny as int == grid_ny(v),
                (nx as int) * step <= bb_w(v) + step - 1,
                (ny as int) * step <= bb_h(v) + step - 1,
                bb_w(v) <= 2 * COORD_LIMIT as int,
                bb_h(v) <= 2 * COORD_LIMIT as int,
                -(COORD_LIMIT as int) <= minx as int <= COORD_LIMIT as int,
                -(COORD_LIMIT as int) <= miny as int <= COORD_LIMIT as int,
                q@.len() == i * ny + j,
                forall|k: int|
                    0 <= k < q@.len() ==> cell_wf(#[trigger] q@[k], v) && q@[k] == mk_cell(
                        v,
                        grid_point(v, k / (ny as int), k % (ny as int)),
                        half0(v),
                    ),
            decreases ny - j,
        {
            proof {
                lemma_mul_inequality(i as int + 1, nx as int, step);
                lemma_mul_inequality(j as int + 1, ny as int, step);
                assert((i as int) * step + step == (i as int + 1) * step) by (nonlinear_arith);
                assert((j as int) * step + step == (j as int + 1) * step) by (nonlinear_arith);
                assert((i as int) * step >= 0) by (nonlinear_arith)
                    requires
                        i as int >= 0,
                        step >= 2,
                ;
                assert((j as int) * step >= 0) by (nonlinear_arith)
                    requires
                        j as int >= 0,
                        step >= 2,
                ;
            }
            let gx: i64 = minx + ((i * step_e) as i64) + half;
            let gy: i64 = miny + ((j * step_e) as i64) + half;
            let cell = Cell::new(Point { x: gx, y: gy }, half, poly);
            q.push(cell);
            proof {
                let l = (i as int) * (ny as int) + (j as int);
                lemma_mul_inequality(0, i as int, ny as int);
                lemma_fundamental_div_mod_converse(l, ny as int, i as int, j as int);
                assert(gx as int == bbox_min(v).x as int + (i as int) * step + half0(v));
                assert(gy as int == bbox_min(v).y as int + (j as int) * step + half0(v));
                assert(cell.centroid == grid_point(v, i as int, j as int));
                assert(cell == mk_cell(v, grid_point(v, i as int, j as int), half0(v)));
                assert(forall|k: int|
                    0 <= k < q@.len() - 1 ==> cell_wf(#[trigger] q@[k], v) && q@[k] == mk_cell(
                        v,
                        grid_point(v, k / (ny as int), k % (ny as int)),
                        half0(v),
                    ));
                assert(q@[l] == cell);
            }
            j = j + 1;
        }
        i = i + 1;
        proof {
            assert((i as int) * (ny as int) == (i as int - 1) * (ny as int) + (ny as int))
                by (nonlinear_arith);
        }
    }
    proof {
        assert forall|gi: int, gj: int|
            0 <= gi < grid_nx(v) && 0 <= gj < grid_ny(v) implies #[trigger] grid_covered(
            q@,
            v,
            gi,
            gj,
        ) by {
            let l = gi * (ny as int) + gj;
            lemma_fundamental_div_mod_converse(l, ny as int, gi, gj);
            assert(l <= (nx as int - 1) * (ny as int) + gj) by (nonlinear_arith)
                requires
                    gi <= nx as int - 1,
                    ny as int >= 1,
                    l == gi * (ny as int) + gj,
            ;
            assert((nx as int - 1) * (ny as int) + (ny as int) == (nx as int) * (ny as int))
                by (nonlinear_arith);
            assert(0 <= l) by (nonlinear_arith)
                requires
                    0 <= gi,
                    0 <= gj,
                    ny as int >= 1,
                    l == gi * (ny as int) + gj,
            ;
            assert(q@[l].centroid == grid_point(v, gi, gj));
        };
        assert((grid_nx(v) * grid_ny(v)) as nat == (nx as int * ny as int) as nat);
        assert(q@ =~= seed_seq(v));
    }
}

/// Compute the optimal label position: the point, among all the search
/// examines, with the greatest signed distance to the polygon outline.
///
/// The search always terminates. An empty exterior ring is reported as
/// `RectCalculation`; a centroid seed outside the coordinate range (a
/// degenerate vertex set the zero-area fast path did not intercept) as
/// `CentroidCalculation`. A polygon of exactly zero signed area, or one
/// whose bounding box is too thin to subdivide, short-circuits to the
/// bounding box's minimum corner. Otherwise the answer dominates both
/// seeds (polygon centroid and bounding-box center) and the signed
/// distance of every seed-grid cell center.
pub fn polylabel(poly: &Polygon, tolerance: i64) -> (res: Result<Point, PolylabelError>)
    requires
        poly.bounded(),
        tolerance >= 1,
    ensures
        poly@.ext.len() == 0 <==> res == Err::<Point, PolylabelError>(
            PolylabelError::RectCalculation,
        ),
        poly@.ext.len() >= 1 && degenerate(poly@) ==> res == Ok::<Point, PolylabelError>(
            bbox_min(poly@),
        ),
        (poly@.ext.len() >= 1 && !degenerate(poly@) && !centroid_in_range(poly@)) <==> res
            == Err::<Point, PolylabelError>(PolylabelError::CentroidCalculation),
        poly@.ext.len() >= 1 && !degenerate(poly@) && centroid_in_range(poly@) ==> (res matches Ok(
            r,
        ) && sdist(r, poly@) >= sdist(centroid_point(poly@), poly@) && sdist(r, poly@) >= sdist(
            bb_center(poly@),
            poly@,
        ) && forall|gi: int, gj: int|
            0 <= gi < grid_nx(poly@) && 0 <= gj < grid_ny(poly@) ==> sdist(
                #[trigger] grid_point(poly@, gi, gj),
                poly@,
            ) <= sdist(r, poly@)),
        res matches Ok(r) ==> (sdist(r, poly@) > 0 ==> poly_contains(poly@, r)),
        res == polylabel_spec(poly@, tolerance as int),
{
    let ghost v = poly@;
    if poly.exterior.len() == 0 {
        return Err(PolylabelError::RectCalculation);
    }
    let bb = bounding_box(poly);
    let bmin = bb.0;
    let bmax = bb.1;
    proof {
        lemma_ring_extent_bounds(v.ext, v.ext.len() as int);
    }
    let area2 = polygon_area2(poly);
    let w: i64 = bmax.x - bmin.x;
    let hgt: i64 = bmax.y - bmin.y;
    let cs: i64 = if hgt < w {
        hgt
    } else {
        w
    };
    let half: i64 = ((cs as u64) / 2) as i64;
    if area2 == 0 || half == 0 {
        proof {
            lemma_sdist_positive_contains(bmin, v);
        }
        return Ok(bmin);
    }
    let copt = centroid_seed(poly);
    let cpt = match copt {
        Some(p) => p,
        None => {
            return Err(PolylabelError::CentroidCalculation);
        },
    };
    let c_cell = Cell::new(cpt, 0, poly);
    proof {
        lemma_fundamental_div_mod(w as int, 2);
        lemma_fundamental_div_mod(hgt as int, 2);
    }
    let bc = Point {
        x: bmin.x + (((w as u64) / 2) as i64),
        y: bmin.y + (((hgt as u64) / 2) as i64),
    };
    let b_cell = Cell::new(bc, 0, poly);
    let mut best = if c_cell.distance >= b_cell.distance {
        c_cell
    } else {
        b_cell
    };
    let step_e: u64 = 2 * (half as u64);
    let nx: u64 = ((w as u64) + step_e - 1) / step_e;
    let ny: u64 = ((hgt as u64) + step_e - 1) / step_e;
    let mut q = CellQueue::new();
    proof {
        assert(bc == bb_center(v));
        assert(cpt == centroid_point(v));
        assert(nx as int == grid_nx(v) && ny as int == grid_ny(v));
    }
    seed_grid(poly, &mut q, bmin.x, bmin.y, half, nx, ny);
    proof {
        assert(best == init_best(v));
        assert(q@ == seed_seq(v));
    }
    while !q.is_empty()
        invariant
            poly.bounded(),
            poly@.ext.len() >= 1,
            v == poly@,
            tolerance >= 1,
            forall|k: int| 0 <= k < q@.len() ==> cell_wf(#[trigger] q@[k], v),
            cell_wf(best, v),
            best.distance as int >= sdist(centroid_point(v), v),
            best.distance as int >= sdist(bb_center(v), v),
            forall|gi: int, gj: int|
                0 <= gi < grid_nx(v) && 0 <= gj < grid_ny(v) ==> sdist(
                    #[trigger] grid_point(v, gi, gj),
                    v,
                ) <= best.distance as int || grid_covered(q@, v, gi, gj),
            search_rec(v, tolerance as int, q@, best) == search_rec(
                v,
                tolerance as int,
                seed_seq(v),
                init_best(v),
            ),
        decreases qpot(q@),
    {
        let ghost s0 = q@;
        let ghost best0 = best;
        let cell = q.pop();
        let ghost t = top_index(s0);
        proof {
            lemma_qpot_remove(s0, t);
            s0.remove_ensures(t);
        }
        if cell.distance > best.distance {
            best = cell;
        }
        proof {
            lemma_sqrt2_ceil_bounds(cell.half_extent as int);
        }
        if cell.max_distance - best.distance <= tolerance {
            // no point of this cell's region can beat the best answer by
            // more than the tolerance: discard it
            proof {
                lemma_cell_pot_pos(cell.half_extent as int);
                assert forall|gi: int, gj: int|
                    0 <= gi < grid_nx(v) && 0 <= gj < grid_ny(v) implies sdist(
                    #[trigger] grid_point(v, gi, gj),
                    v,
                ) <= best.distance as int || grid_covered(q@, v, gi, gj) by {
                    let g = grid_point(v, gi, gj);
                    if sdist(g, v) > best.distance as int {
                        assert(grid_covered(s0, v, gi, gj));
                        let k0 = choose|k: int|
                            0 <= k < s0.len() && (#[trigger] s0[k]).centroid == g;
                        if k0 == t {
                            assert(cell.distance as int == sdist(g, v));
                            assert(false);
                        } else {
                            let k1 = if k0 < t {
                                k0
                            } else {
                                k0 - 1
                            };
                            assert(q@[k1] == s0[k0]);
                            assert(grid_covered(q@, v, gi, gj));
                        }
                    }
                };
                let best1 = if cell.distance > best0.distance {
                    cell
                } else {
                    best0
                };
                assert(best == best1);
                assert(q@ == s0.remove(t));
                assert(search_rec(v, tolerance as int, s0, best0) == search_rec(
                    v,
                    tolerance as int,
                    q@,
                    best,
                ));
            }
        } else {
            proof {
                // the pruning test failed, so the cell still has extent to
                // split: its corner bound exceeds the tolerance
                lemma_sqrt2_ceil_bounds(cell.half_extent as int);
                assert(cell.half_extent >= 1);
            }
            let hn: i64 = ((cell.half_extent as u64) / 2) as i64;
            proof {
                lemma_fundamental_div_mod(cell.half_extent as int, 2);
            }
            let ghost s1 = q@;
            let ghost hni = hn as int;
            let ghost cxi = cell.centroid.x as int;
            let ghost cyi = cell.centroid.y as int;
            let ghost c0 = mk_cell(v, Point { x: (cxi - hni) as i64, y: (cyi - hni) as i64 }, hni);
            let ghost c1 = mk_cell(v, Point { x: (cxi + hni) as i64, y: (cyi - hni) as i64 }, hni);
            let ghost c2 = mk_cell(v, Point { x: (cxi - hni) as i64, y: (cyi + hni) as i64 }, hni);
            let ghost c3 = mk_cell(v, Point { x: (cxi + hni) as i64, y: (cyi + hni) as i64 }, hni);
            q.add_quad(&cell, hn, poly);
            proof {
                lemma_qpot_push(s1, c0);
                lemma_qpot_push(s1.push(c0), c1);
                lemma_qpot_push(s1.push(c0).push(c1), c2);
                lemma_qpot_push(s1.push(c0).push(c1).push(c2), c3);
                assert(cell_pot(cell.half_extent as int) == 1 + 4 * cell_pot(
                    (cell.half_extent as int) / 2,
                ));
                assert forall|gi: int, gj: int|
                    0 <= gi < grid_nx(v) && 0 <= gj < grid_ny(v) implies sdist(
                    #[trigger] grid_point(v, gi, gj),
                    v,
                ) <= best.distance as int || grid_covered(q@, v, gi, gj) by {
                    let g = grid_point(v, gi, gj);
                    if sdist(g, v) > best.distance as int {
                        assert(grid_covered(s0, v, gi, gj));
                        let k0 = choose|k: int|
                            0 <= k < s0.len() && (#[trigger] s0[k]).centroid == g;
                        if k0 == t {
                            assert(cell.distance as int == sdist(g, v));
                            assert(false);
                        } else {
                            let k1 = if k0 < t {
                                k0
                            } else {
                                k0 - 1
                            };
                            assert(s1[k1] == s0[k0]);
                            assert(q@[k1] == s1[k1]);
                            assert(grid_covered(q@, v, gi, gj));
                        }
                    }
                };
                let best1 = if cell.distance > best0.distance {
                    cell
                } else {
                    best0
                };
                assert(best == best1);
                assert(hni == (cell.half_extent as int) / 2);
                assert(q@ == s0.remove(t).push(c0).push(c1).push(c2).push(c3));
                assert(!(cell.max_distance - best1.distance <= tolerance as int));
                assert(search_rec(v, tolerance as int, s0, best0) == search_rec(
                    v,
                    tolerance as int,
                    q@,
                    best,
                ));
            }
        }
    }
    proof {
        lemma_sdist_positive_contains(best.centroid, v);
        assert(q@.len() == 0);
        assert(search_rec(v, tolerance as int, q@, best) == best);
        assert(polylabel_spec(v, tolerance as int) == Ok::<Point, PolylabelError>(best.centroid));
    }
    Ok(best.centroid)
}

} // verus!
