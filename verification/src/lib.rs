//! Route planning for a rover on a rectangular grid of elevations.
//!
//! The rover lands on one cell and is to reach others. In one step it moves
//! to one of the up to eight cells next to its own, if the elevations of
//! the two cells differ by no more than a given limit. A step along a row
//! or a column costs 1, a diagonal step `sqrt(2)`. [`planner::plan`] finds,
//! for every target, a route of least cost from the landing point, or
//! reports that there is none.
//!
//! Costs are kept exact. The cost of a walk by single steps is a number
//! `a + b * sqrt(2)` with natural `a` and `b`, and such costs are compared
//! without rounding. A move of more than one cell, which no walk of the
//! rover holds but a node or a route may be given, adds its Euclidean
//! distance, kept by the extent of the move along the two axes.
//!
//! * [`point`], [`grid`], [`metadata`], [`request`]: what a run is given.
//! * [`mapfile`]: the text form of a request.
//! * [`surd`], [`cost`]: the numbers `a + b * sqrt(2)` and the cost model.
//! * [`feasibility`]: which steps the rover can take.
//! * [`walk`]: walks on the grid, their lengths, and what it means for one
//!   to be shortest.
//! * [`node`], [`route`]: the node graph, and routes rebuilt from it.
//! * [`frontier`]: the priority frontier.
//! * [`search`]: the search as a sequence of states; [`soundness`],
//!   [`choice`] and [`rounds`] prove what holds of these states.
//! * [`planner`]: the planner itself.

pub mod choice;
pub mod cost;
pub mod error;
pub mod feasibility;
pub mod frontier;
pub mod grid;
pub mod mapfile;
pub mod metadata;
pub mod node;
pub mod planner;
pub mod point;
pub mod request;
pub mod rounds;
pub mod route;
pub mod search;
pub mod soundness;
pub mod surd;
pub mod walk;
