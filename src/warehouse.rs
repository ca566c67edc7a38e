//! The warehouse context: grid extent and occupancy, built once from the
//! obstacle cells and read by every query.
use array2d::Array2D;
use vstd::prelude::*;

use crate::geometry::{clamp_index, in_extent, is_chain, route_cost, Node};
use crate::grid::{array_columns, array_filled_with, array_get, array_rows, array_set};

verus! {

/// What can go wrong when configuring or querying the warehouse.
#[derive(Clone, Copy, Debug, PartialEq, Eq, Structural)]
pub enum NavError {
    /// A query was made before any warehouse was configured.
    NotConfigured,
    /// The grid would have no row or no column.
    InvalidDimensions,
    /// A cell outside the grid was asked for.
    OutOfRange,
}

/// A cell position in real-world units, relative to the middle of the
/// warehouse's bottom edge: `x` in half rack widths, `y` in rack depths.
#[derive(Clone, Copy, Debug, PartialEq, Eq, Structural)]
pub struct Waypoint {
    pub half_widths_x: i64,
    pub depths_y: i64,
}

/// A rectangular grid of `rows` by `cols` cells; an occupied cell holds a rack.
pub struct Warehouse {
    rows: i32,
    cols: i32,
    grid: Array2D<bool>,
}

/// A coordinate clamped into `0..bound`.
pub open spec fn clamp_spec(v: int, bound: int) -> int {
    if v >= bound {
        bound - 1
    } else if v < 0 {
        0
    } else {
        v
    }
}

/// The cell that a raw grid position falls in, each coordinate clamped into
/// the grid's extent.
pub open spec fn clamped_cell(raw: (i32, i32), rows: int, cols: int) -> Node {
    Node { x: clamp_spec(raw.0 as int, rows) as i32, y: clamp_spec(raw.1 as int, cols) as i32 }
}

/// The real-world position of a cell's reference corner, as in `Waypoint`.
pub open spec fn waypoint_of(n: Node, rows: int, cols: int) -> Waypoint {
    Waypoint { half_widths_x: (2 * n.x - rows) as i64, depths_y: (n.y - cols) as i64 }
}

impl Warehouse {
    pub closed spec fn row_count(&self) -> int {
        self.rows as int
    }

    pub closed spec fn col_count(&self) -> int {
        self.cols as int
    }

    /// Whether the cell `n` (row `n.x`, column `n.y`) holds a rack.
    pub closed spec fn occupied(&self, n: Node) -> bool {
        array_rows(self.grid)[n.x as int][n.y as int]
    }

    pub closed spec fn wf(&self) -> bool {
        &&& self.rows >= 1
        &&& self.cols >= 1
        &&& self.rows * self.cols <= usize::MAX
        &&& array_rows(self.grid).len() == self.rows
        &&& array_columns(self.grid) == self.cols
        &&& forall|i: int| 0 <= i < self.rows ==> (#[trigger] array_rows(self.grid)[i]).len() == self.cols
    }

    pub open spec fn in_grid(&self, n: Node) -> bool {
        in_extent(n, self.row_count(), self.col_count())
    }

    pub open spec fn is_free(&self, n: Node) -> bool {
        self.in_grid(n) && !self.occupied(n)
    }

    /// `p` leads from `goal` back to `start` through adjacent cells of the
    /// grid, every cell but `start` free.
    pub open spec fn is_route_back(&self, p: Seq<Node>, start: Node, goal: Node) -> bool {
        &&& p.len() >= 1
        &&& p[0] == goal
        &&& p[p.len() - 1] == start
        &&& forall|i: int| 0 <= i < p.len() ==> self.in_grid(#[trigger] p[i])
        &&& forall|i: int| 0 <= i < p.len() - 1 ==> self.is_free(#[trigger] p[i])
        &&& is_chain(p)
    }

    /// `p` is a route back from `goal` to `start` that no other costs less than.
    pub open spec fn is_shortest_route_back(&self, p: Seq<Node>, start: Node, goal: Node) -> bool {
        &&& self.is_route_back(p, start, goal)
        &&& forall|q: Seq<Node>| #[trigger]
            self.is_route_back(q, start, goal) ==> route_cost(p) <= route_cost(q)
    }

    /// Some walkable route joins `start` to `goal`.
    pub open spec fn reachable(&self, start: Node, goal: Node) -> bool {
        exists|p: Seq<Node>| self.is_route_back(p, start, goal)
    }

    /// The occupancy by columns: entry `[c][r]` is 1 where the cell at row `r`,
    /// column `c` is occupied, 0 where it is free.
    pub open spec fn occupancy_view(&self) -> Seq<Seq<i32>> {
        Seq::new(
            self.col_count() as nat,
            |c: int|
                Seq::new(
                    self.row_count() as nat,
                    |r: int|
                        if self.occupied(Node { x: r as i32, y: c as i32 }) {
                            1i32
                        } else {
                            0i32
                        },
                ),
        )
    }

    /// Builds a grid of `row_count` by `col_count` free cells, then marks
    /// occupied the cell of each obstacle, given as a raw grid position and
    /// clamped into the grid.
    pub fn new(
        row_count: i32,
        col_count: i32,
        obstacles: &Vec<(i32, i32)>,
    ) -> (r: Result<Warehouse, NavError>)
        requires
            row_count >= 1 && col_count >= 1 ==> row_count * col_count <= usize::MAX,
        ensures
            r is Ok <==> row_count >= 1 && col_count >= 1,
            r is Err ==> r->Err_0 == NavError::InvalidDimensions,
            r matches Ok(w) ==> {
                &&& w.wf()
                &&& w.row_count() == row_count
                &&& w.col_count() == col_count
                &&& forall|n: Node|
                    #![trigger w.occupied(n)]
                    w.in_grid(n) ==> (w.occupied(n) <==> exists|k: int|
                        0 <= k < obstacles.len() && clamped_cell(obstacles@[k], row_count as int, col_count as int) == n)
            },
    {
        if row_count < 1 || col_count < 1 {
            return Err(NavError::InvalidDimensions);
        }
        let mut w = Warehouse {
            rows: row_count,
            cols: col_count,
            grid: array_filled_with(false, row_count as usize, col_count as usize),
        };
        let mut i: usize = 0;
        while i < obstacles.len()
            invariant
                0 <= i <= obstacles.len(),
                w.wf(),
                w.rows == row_count,
                w.cols == col_count,
                forall|n: Node|
                    #![trigger w.occupied(n)]
                    w.in_grid(n) ==> (w.occupied(n) <==> exists|k: int|
                        0 <= k < i && clamped_cell(obstacles@[k], row_count as int, col_count as int) == n),
            decreases obstacles.len() - i,
        {
            let cell = w.get_grid_coordinate(obstacles[i].0, obstacles[i].1);
            let ghost before = w;
            let _ = array_set(&mut w.grid, cell.x as usize, cell.y as usize, true);
            proof {
                assert forall|n: Node|
                    #![trigger w.occupied(n)]
                    w.in_grid(n) implies (w.occupied(n) <==> exists|k: int|
                        0 <= k < i + 1 && clamped_cell(obstacles@[k], row_count as int, col_count as int) == n) by {
                    if n == cell {
                        assert(clamped_cell(obstacles@[i as int], row_count as int, col_count as int) == n);
                    } else {
                        assert(before.occupied(n) == w.occupied(n));
                        if exists|k: int|
                            0 <= k < i + 1 && clamped_cell(obstacles@[k], row_count as int, col_count as int) == n {
                            let k = choose|k: int|
                                0 <= k < i + 1 && clamped_cell(obstacles@[k], row_count as int, col_count as int) == n;
                            assert(k < i);
                        }
                    }
                }
            }
            i += 1;
        }
        Ok(w)
    }

    /// A well-formed grid has at least one row and one column, and its cells
    /// can be counted in `usize`.
    pub proof fn lemma_extent(&self)
        requires
            self.wf(),
        ensures
            1 <= self.row_count() <= i32::MAX,
            1 <= self.col_count() <= i32::MAX,
            self.row_count() * self.col_count() <= usize::MAX,
    {
    }

    pub fn rows(&self) -> (r: i32)
        ensures
            r == self.row_count(),
    {
        self.rows
    }

    pub fn cols(&self) -> (r: i32)
        ensures
            r == self.col_count(),
    {
        self.cols
    }

    /// The cell that a raw grid position falls in. Positions beyond the
    /// warehouse's footprint snap to the nearest edge cell.
    pub fn get_grid_coordinate(&self, raw_x: i32, raw_y: i32) -> (r: Node)
        requires
            self.wf(),
        ensures
            self.in_grid(r),
            r == clamped_cell((raw_x, raw_y), self.row_count(), self.col_count()),
    {
        Node { x: clamp_index(raw_x, self.rows), y: clamp_index(raw_y, self.cols) }
    }

    /// The real-world position of the cell's reference corner.
    pub fn get_real_coordinate(&self, location: Node) -> (r: Waypoint)
        requires
            self.wf(),
        ensures
            r == waypoint_of(location, self.row_count(), self.col_count()),
    {
        Waypoint {
            half_widths_x: 2 * (location.x as i64) - self.rows as i64,
            depths_y: location.y as i64 - self.cols as i64,
        }
    }

    /// Whether the cell holds a rack; a cell outside the grid is an error.
    pub fn is_occupied(&self, cell: Node) -> (r: Result<bool, NavError>)
        requires
            self.wf(),
        ensures
            self.in_grid(cell) ==> r == Ok::<bool, NavError>(self.occupied(cell)),
            !self.in_grid(cell) ==> r == Err::<bool, NavError>(NavError::OutOfRange),
    {
        if cell.x < 0 || cell.y < 0 {
            return Err(NavError::OutOfRange);
        }
        match array_get(&self.grid, cell.x as usize, cell.y as usize) {
            Some(v) => Ok(v),
            None => Err(NavError::OutOfRange),
        }
    }

    /// The occupancy by columns, 1 for an occupied cell and 0 for a free one.
    pub fn occupancy_dump(&self) -> (r: Vec<Vec<i32>>)
        requires
            self.wf(),
        ensures
            r@.map_values(|col: Vec<i32>| col@) == self.occupancy_view(),
    {
        let mut out: Vec<Vec<i32>> = Vec::new();
        let mut c: i32 = 0;
        while c < self.cols
            invariant
                self.wf(),
                0 <= c <= self.cols,
                out@.len() == c,
                forall|k: int| 0 <= k < c ==> (#[trigger] out@[k])@ == self.occupancy_view()[k],
            decreases self.cols - c,
        {
            let mut column: Vec<i32> = Vec::new();
            let mut r: i32 = 0;
            while r < self.rows
                invariant
                    self.wf(),
                    0 <= c < self.cols,
                    0 <= r <= self.rows,
                    column@ =~= self.occupancy_view()[c as int].take(r as int),
                decreases self.rows - r,
            {
                let occupied = array_get(&self.grid, r as usize, c as usize);
                proof {
                    assert(self.occupied(Node { x: r, y: c }) == occupied->0);
                }
                column.push(if occupied == Some(true) { 1 } else { 0 });
                r += 1;
            }
            assert(column@ =~= self.occupancy_view()[c as int]);
            out.push(column);
            c += 1;
        }
        assert(out@.map_values(|col: Vec<i32>| col@) =~= self.occupancy_view());
        out
    }

    /// Two dumps of the same warehouse are identical: the dump depends on the
    /// configured occupancy alone.
    pub proof fn lemma_dump_idempotent(&self, first: Seq<Seq<i32>>, second: Seq<Seq<i32>>)
        requires
            first == self.occupancy_view(),
            second == self.occupancy_view(),
        ensures
            first == second,
    {
    }
}

} // verus!
