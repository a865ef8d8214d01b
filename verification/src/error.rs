//! The ways in which planning fails.

use vstd::prelude::*;

verus! {

/// Why a planning run, or the route to one target, cannot be given.
#[derive(Clone, Copy, Debug, PartialEq, Eq, Structural)]
pub enum PlanError {
    /// The landing point or a target lies outside the grid.
    OutOfBounds,
    /// The algorithm's name is not a known one.
    UnsupportedAlgorithm,
    /// No sequence of feasible moves leads from the landing point to the
    /// target.
    Unreachable,
    /// A node's parent links do not lead back to a root.
    DetachedNode,
}

} // verus!
