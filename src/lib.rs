//! Shortest walkable routes across a warehouse floor divided into rack-sized
//! cells, found by A* search over an occupancy grid.
//!
//! Real-world coordinates are floating-point values and stay with the caller:
//! the library takes raw grid positions (the floor of a coordinate divided by
//! the rack size, shifted so that the origin is the middle of the bottom edge)
//! and hands back cell positions as whole multiples of half a rack width and
//! of a rack depth.
use vstd::prelude::*;

pub mod geometry;
pub mod grid;
pub mod search;
pub mod warehouse;

pub use geometry::Node;
pub use warehouse::{NavError, Warehouse, Waypoint};

use warehouse::{clamped_cell, waypoint_of};

verus! {

/// Builds a warehouse of `row_count` by `col_count` cells with the given
/// obstacle positions and installs it in `context`, replacing any earlier one.
/// With a grid of no row or no column nothing is installed and
/// `InvalidDimensions` is returned.
pub fn set_internal_coordinates(
    context: &mut Option<Warehouse>,
    row_count: i32,
    col_count: i32,
    obstacles: &Vec<(i32, i32)>,
) -> (r: Result<(), NavError>)
    requires
        row_count >= 1 && col_count >= 1 ==> row_count * col_count <= usize::MAX,
    ensures
        r is Ok <==> row_count >= 1 && col_count >= 1,
        r is Err ==> r == Err::<(), NavError>(NavError::InvalidDimensions) && *final(context)
            == *old(context),
        r is Ok ==> (*final(context) matches Some(w) && {
            &&& w.wf()
            &&& w.row_count() == row_count
            &&& w.col_count() == col_count
            &&& forall|n: Node|
                #![trigger w.occupied(n)]
                w.in_grid(n) ==> (w.occupied(n) <==> exists|k: int|
                    0 <= k < obstacles.len() && clamped_cell(obstacles@[k], row_count as int, col_count as int) == n)
        }),
{
    match Warehouse::new(row_count, col_count, obstacles) {
        Ok(w) => {
            *context = Some(w);
            Ok(())
        },
        Err(e) => Err(e),
    }
}

/// The shortest route that A* search finds between two raw grid positions,
/// each clamped into the grid (`Warehouse::astar`: among entries of equal
/// priority the earliest inserted leaves first, neighbours are examined in
/// `neighbor_seq` order), as the real-world positions of its cells listed from
/// the goal back to the start; `Ok(None)` when no walkable route joins them.
pub fn calculate_path(context: &Option<Warehouse>, start: (i32, i32), goal: (i32, i32)) -> (r:
    Result<Option<Vec<Waypoint>>, NavError>)
    requires
        context matches Some(w) ==> w.wf(),
    ensures
        context is None ==> r == Err::<Option<Vec<Waypoint>>, NavError>(NavError::NotConfigured),
        context matches Some(w) ==> {
            let s = clamped_cell(start, w.row_count(), w.col_count());
            let t = clamped_cell(goal, w.row_count(), w.col_count());
            &&& r is Ok
            &&& (r->Ok_0 is Some <==> w.reachable(s, t))
            &&& r->Ok_0 matches Some(v) ==> (w.astar(s, t) matches Some(p) && w.is_shortest_route_back(
                p,
                s,
                t,
            ) && v@ == p.map_values(|n: Node| waypoint_of(n, w.row_count(), w.col_count())))
        },
{
    match context {
        None => Err(NavError::NotConfigured),
        Some(w) => {
            let s = w.get_grid_coordinate(start.0, start.1);
            let t = w.get_grid_coordinate(goal.0, goal.1);
            match w.find_path(s, t) {
                None => Ok(None),
                Some(cells) => {
                    let mut out: Vec<Waypoint> = Vec::new();
                    let mut i: usize = 0;
                    while i < cells.len()
                        invariant
                            w.wf(),
                            0 <= i <= cells.len(),
                            out@ =~= cells@.take(i as int).map_values(
                                |n: Node| waypoint_of(n, w.row_count(), w.col_count()),
                            ),
                        decreases cells.len() - i,
                    {
                        out.push(w.get_real_coordinate(cells[i]));
                        i += 1;
                    }
                    assert(cells@.take(cells.len() as int) == cells@);
                    Ok(Some(out))
                },
            }
        },
    }
}

/// The occupancy grid by columns, 1 for an occupied cell and 0 for a free one.
pub fn testing(context: &Option<Warehouse>) -> (r: Result<Vec<Vec<i32>>, NavError>)
    requires
        context matches Some(w) ==> w.wf(),
    ensures
        context is None ==> r == Err::<Vec<Vec<i32>>, NavError>(NavError::NotConfigured),
        context matches Some(w) ==> (r matches Ok(d) && d@.map_values(|col: Vec<i32>| col@)
            == w.occupancy_view()),
{
    match context {
        None => Err(NavError::NotConfigured),
        Some(w) => Ok(w.occupancy_dump()),
    }
}

} // verus!
