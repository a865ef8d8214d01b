//! What the rover is told besides the map.

use vstd::prelude::*;
use vstd::string::StringExecFns;
use crate::error::PlanError;

verus! {

/// The search strategies.
#[derive(Clone, Copy, Debug, PartialEq, Eq, Structural)]
pub enum Algorithm {
    /// Uniform-cost search: cells are explored by their cost from the
    /// landing point.
    Dijkstra,
    /// Cells are explored by their cost from the landing point plus an
    /// estimate of the cost that remains to the nearest target not yet
    /// reached. The estimate is the length of the straight way there over
    /// open ground, by the moves that the rover has: along the diagonal
    /// until a row or a column is shared, then along that. No way is
    /// shorter, whatever the elevations, so the estimate never exceeds the
    /// cost that remains, and the routes found are shortest.
    AStar,
}

/// The strategy that a name stands for.
pub open spec fn algorithm_named(name: Seq<char>) -> Option<Algorithm> {
    if name == "Dijkstra"@ {
        Some(Algorithm::Dijkstra)
    } else if name == "A*"@ {
        Some(Algorithm::AStar)
    } else {
        None
    }
}

/// The name of the algorithm to plan with, and the largest change of
/// elevation that the rover takes in one step.
#[derive(Clone, Debug, PartialEq, Eq)]
pub struct RoverMetadata {
    pub algorithm: String,
    pub elevation_delta: u32,
}

impl RoverMetadata {
    /// The metadata from its parts.
    pub fn generate(algorithm: String, elevation_delta: u32) -> (meta: RoverMetadata)
        ensures
            meta.algorithm == algorithm,
            meta.elevation_delta == elevation_delta,
    {
        RoverMetadata { algorithm, elevation_delta }
    }

    /// The strategy that the algorithm's name stands for, or
    /// `UnsupportedAlgorithm` where the name is not a known one.
    pub fn strategy(&self) -> (r: Result<Algorithm, PlanError>)
        ensures
            match algorithm_named(self.algorithm@) {
                Some(a) => r == Ok::<Algorithm, PlanError>(a),
                None => r == Err::<Algorithm, PlanError>(PlanError::UnsupportedAlgorithm),
            },
    {
        if self.algorithm == String::from_str("Dijkstra") {
            Ok(Algorithm::Dijkstra)
        } else if self.algorithm == String::from_str("A*") {
            Ok(Algorithm::AStar)
        } else {
            Err(PlanError::UnsupportedAlgorithm)
        }
    }
}

} // verus!
