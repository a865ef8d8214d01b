//! Routes: what the planner hands back.

use vstd::prelude::*;
use crate::cost::Cost;
use crate::point::Point;
use crate::walk::path_length;

verus! {

/// The cells that the rover passes, from the landing point to a target,
/// and the total cost of the moves between them.
#[derive(Clone, Debug, PartialEq, Eq)]
pub struct Route {
    pub points: Vec<Point>,
    pub cost: Cost,
}

/// The sum of the costs of the moves between the consecutive points of the
/// route, whatever the points.
pub fn path_cost(route: &Route) -> (total: Cost)
    ensures
        total@ == path_length(route.points@),
{
    let mut sum = Cost::zero();
    let mut i: usize = 1;
    while i < route.points.len()
        invariant
            1 <= i,
            route.points@.len() >= 1 ==> i <= route.points@.len(),
            sum@ == path_length(route.points@.subrange(0, i as int)) || route.points@.len() == 0,
            route.points@.len() == 0 ==> sum@ == path_length(route.points@),
        decreases route.points@.len() - i,
    {
        let ghost longer = route.points@.subrange(0, i + 1);
        assert(longer.drop_last() =~= route.points@.subrange(0, i as int));
        sum = sum.after(route.points[i - 1], route.points[i]);
        i += 1;
    }
    proof {
        if route.points@.len() >= 1 {
            assert(route.points@.subrange(0, i as int) =~= route.points@);
        }
    }
    sum
}

} // verus!
