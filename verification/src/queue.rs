//! The pending-cell queue: pop always yields a cell whose upper bound is
//! greatest, so the search is best-first. The backing store is a plain
//! vector scanned on pop; the pop contract hides that choice, as only the
//! "most promising cell first" order matters.

use vstd::prelude::*;
use crate::cell::{cell_wf, iabs, mk_cell, Cell};
use crate::geometry::{Point, Polygon, COORD_LIMIT, QUERY_LIMIT};

verus! {

/// Index of the first cell with the greatest `max_distance` among the first
/// `i` cells.
pub open spec fn top_idx(s: Seq<Cell>, i: int) -> int
    decreases i,
{
    if i <= 1 {
        0
    } else {
        let k = top_idx(s, i - 1);
        if s[i - 1].max_distance > s[k].max_distance {
            i - 1
        } else {
            k
        }
    }
}

/// Index the next `pop` returns: the first cell with the greatest upper
/// bound.
pub open spec fn top_index(s: Seq<Cell>) -> int {
    top_idx(s, s.len() as int)
}

pub proof fn lemma_top_idx_props(s: Seq<Cell>, i: int)
    requires
        1 <= i <= s.len(),
    ensures
        0 <= top_idx(s, i) < i,
        forall|j: int| 0 <= j < i ==> (#[trigger] s[j]).max_distance <= s[top_idx(s, i)].max_distance,
    decreases i,
{
    if i > 1 {
        lemma_top_idx_props(s, i - 1);
    }
}

/// A max-queue of pending search cells, ordered by `max_distance`.
pub struct CellQueue {
    cells: Vec<Cell>,
}

impl View for CellQueue {
    type V = Seq<Cell>;

    closed spec fn view(&self) -> Seq<Cell> {
        self.cells@
    }
}

impl CellQueue {
    /// An empty queue.
    pub fn new() -> (q: CellQueue)
        ensures
            q@ == Seq::<Cell>::empty(),
    {
        CellQueue { cells: Vec::new() }
    }

    pub fn len(&self) -> (n: usize)
        ensures
            n == self@.len(),
    {
        self.cells.len()
    }

    pub fn is_empty(&self) -> (r: bool)
        ensures
            r <==> self@.len() == 0,
    {
        self.cells.len() == 0
    }

    /// Add a cell to the pending set.
    pub fn push(&mut self, c: Cell)
        ensures
            final(self)@ == old(self)@.push(c),
    {
        self.cells.push(c);
    }

    /// Subdivide `cell` into its four quadrants at half its extent and add
    /// them all, evaluating the distance oracle at each new center.
    pub fn add_quad(&mut self, cell: &Cell, half_extent: i64, poly: &Polygon)
        requires
            poly.bounded(),
            poly@.ext.len() >= 1,
            0 <= half_extent <= COORD_LIMIT,
            iabs(cell.centroid.x as int) + 2 * half_extent <= QUERY_LIMIT as int,
            iabs(cell.centroid.y as int) + 2 * half_extent <= QUERY_LIMIT as int,
        ensures
            ({
                let cx = cell.centroid.x as int;
                let cy = cell.centroid.y as int;
                let hn = half_extent as int;
                final(self)@ == old(self)@.push(
                    mk_cell(poly@, Point { x: (cx - hn) as i64, y: (cy - hn) as i64 }, hn),
                ).push(mk_cell(poly@, Point { x: (cx + hn) as i64, y: (cy - hn) as i64 }, hn)).push(
                    mk_cell(poly@, Point { x: (cx - hn) as i64, y: (cy + hn) as i64 }, hn),
                ).push(mk_cell(poly@, Point { x: (cx + hn) as i64, y: (cy + hn) as i64 }, hn))
            }),
            forall|k: int|
                old(self)@.len() <= k < final(self)@.len() ==> cell_wf(
                    #[trigger] final(self)@[k],
                    poly@,
                ),
    {
        let cx = cell.centroid.x;
        let cy = cell.centroid.y;
        let hn = half_extent;
        let c0 = Cell::new(Point { x: cx - hn, y: cy - hn }, hn, poly);
        let c1 = Cell::new(Point { x: cx + hn, y: cy - hn }, hn, poly);
        let c2 = Cell::new(Point { x: cx - hn, y: cy + hn }, hn, poly);
        let c3 = Cell::new(Point { x: cx + hn, y: cy + hn }, hn, poly);
        self.cells.push(c0);
        self.cells.push(c1);
        self.cells.push(c2);
        self.cells.push(c3);
    }

    /// Remove and return a cell with the greatest upper bound (the first
    /// such cell, so the queue is deterministic).
    pub fn pop(&mut self) -> (c: Cell)
        requires
            old(self)@.len() > 0,
        ensures
            0 <= top_index(old(self)@) < old(self)@.len(),
            c == old(self)@[top_index(old(self)@)],
            final(self)@ == old(self)@.remove(top_index(old(self)@)),
            forall|j: int|
                0 <= j < old(self)@.len() ==> (#[trigger] old(self)@[j]).max_distance
                    <= c.max_distance,
    {
        let ghost s = self.cells@;
        let n = self.cells.len();
        let mut best: usize = 0;
        let mut i: usize = 1;
        while i < n
            invariant
                1 <= i <= n,
                n == s.len(),
                self.cells@ == s,
                best as int == top_idx(s, i as int),
                0 <= best < i,
            decreases n - i,
        {
            proof {
                lemma_top_idx_props(s, i as int);
            }
            if self.cells[i].max_distance > self.cells[best].max_distance {
                best = i;
            }
            i = i + 1;
        }
        proof {
            lemma_top_idx_props(s, n as int);
        }
        self.cells.remove(best)
    }
}

} // verus!
