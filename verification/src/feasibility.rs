//! The feasibility filter: which steps the rover can take.

use vstd::prelude::*;
use crate::error::PlanError;
use crate::grid::RoverMap;
use crate::point::{axis_distance, Point};

verus! {

/// What the filter answers for a step from `from` to `to`.
pub open spec fn traversal(grid: &RoverMap, from: Point, to: Point, max_delta: u32) -> Result<
    bool,
    PlanError,
> {
    if grid.in_bounds(from) && grid.in_bounds(to) {
        Ok(grid.passable(from, to, max_delta))
    } else {
        Err(PlanError::OutOfBounds)
    }
}

/// Whether the change of elevation between the two cells is at most
/// `max_delta`, whichever of the two is the higher. `OutOfBounds` where one
/// of the points is no cell of the grid.
pub fn is_traversable(from: Point, to: Point, grid: &RoverMap, max_delta: u32) -> (r: Result<
    bool,
    PlanError,
>)
    requires
        grid.wf(),
    ensures
        r == traversal(grid, from, to, max_delta),
{
    match grid.elevation_at(from) {
        Ok(a) => match grid.elevation_at(to) {
            Ok(b) => Ok(axis_distance(a, b) <= max_delta),
            Err(e) => Err(e),
        },
        Err(e) => Err(e),
    }
}

/// The filter gives the same answer for a step and for the step back.
pub proof fn lemma_traversal_symmetric(grid: &RoverMap, a: Point, b: Point, max_delta: u32)
    ensures
        traversal(grid, a, b, max_delta) == traversal(grid, b, a, max_delta),
{
}

} // verus!
