//! What a planning run is asked.

use vstd::prelude::*;
use crate::grid::RoverMap;
use crate::metadata::RoverMetadata;
use crate::point::Point;

verus! {

/// One planning run's input: the algorithm and the rover's limit, and the
/// map with the landing point and the targets.
#[derive(Clone, Debug, PartialEq, Eq)]
pub struct PlanningRequest {
    pub metadata: RoverMetadata,
    pub map: RoverMap,
}

impl PlanningRequest {
    /// Where the rover lands.
    pub open spec fn landing(&self) -> Point {
        self.map.landing_coords
    }

    /// The sites to reach, in the order in which routes are reported.
    pub open spec fn targets(&self) -> Seq<Point> {
        self.map.target_sites@
    }

    /// The largest change of elevation that the rover takes in one step.
    pub open spec fn limit(&self) -> u32 {
        self.metadata.elevation_delta
    }

    /// The rover can move from `from` to `to` in one step.
    pub open spec fn step(&self, from: Point, to: Point) -> bool {
        self.map.feasible_step(self.metadata.elevation_delta, from, to)
    }

    /// The number of cells of the grid.
    pub open spec fn cells(&self) -> int {
        self.map.width * self.map.height
    }

    /// The landing point and every target are cells of the grid.
    pub open spec fn sites_in_bounds(&self) -> bool {
        &&& self.map.in_bounds(self.map.landing_coords)
        &&& forall|i: int|
            0 <= i < self.map.target_sites@.len() ==> self.map.in_bounds(
                #[trigger] self.map.target_sites@[i],
            )
    }

    /// The request from its parts.
    pub fn new(metadata: RoverMetadata, map: RoverMap) -> (request: PlanningRequest)
        ensures
            request.metadata == metadata,
            request.map == map,
    {
        PlanningRequest { metadata, map }
    }
}

} // verus!
