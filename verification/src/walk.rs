//! Walks on the grid: what the planner searches among.

use vstd::prelude::*;
use crate::cost::{lemma_open_distance_step, open_distance, step_length, Length};
use crate::grid::RoverMap;
use crate::point::Point;
use crate::surd::{
    lemma_le_plus,
    lemma_le_reflexive,
    lemma_le_transitive,
    lemma_nonneg_plus,
    Surd,
};

verus! {

/// The sum of the lengths of the moves between consecutive points.
pub open spec fn walk_length(walk: Seq<Point>) -> Surd
    decreases walk.len(),
{
    if walk.len() <= 1 {
        Surd::zero()
    } else {
        walk_length(walk.drop_last()).plus(step_length(walk[walk.len() - 2], walk.last()))
    }
}

/// The cost of the way along the points: the Euclidean distances between
/// consecutive points, added up from the first on.
pub open spec fn path_length(points: Seq<Point>) -> Length
    decreases points.len(),
{
    if points.len() <= 1 {
        Length::zero()
    } else {
        path_length(points.drop_last()).after(points[points.len() - 2], points.last())
    }
}

/// Every two consecutive points are at most one step apart.
pub open spec fn is_stepwise(walk: Seq<Point>) -> bool {
    forall|i: int| 0 <= i < walk.len() - 1 ==> (#[trigger] walk[i]).within_one_step(walk[i + 1])
}

/// A sequence of cells of the grid in which each move is one that the
/// rover can make.
pub open spec fn is_walk(map: &RoverMap, max_delta: u32, walk: Seq<Point>) -> bool {
    &&& walk.len() > 0
    &&& map.in_bounds(walk[0])
    &&& forall|i: int|
        0 <= i < walk.len() - 1 ==> map.feasible_step(max_delta, #[trigger] walk[i], walk[i + 1])
}

/// A walk that starts at `from` and ends at `to`.
pub open spec fn joins(
    map: &RoverMap,
    max_delta: u32,
    walk: Seq<Point>,
    from: Point,
    to: Point,
) -> bool {
    is_walk(map, max_delta, walk) && walk[0] == from && walk.last() == to
}

/// Some walk leads from `from` to `to`.
pub open spec fn reachable(map: &RoverMap, max_delta: u32, from: Point, to: Point) -> bool {
    exists|walk: Seq<Point>| joins(map, max_delta, walk, from, to)
}

/// No walk between the same two cells is shorter than `walk`.
pub open spec fn is_shortest(map: &RoverMap, max_delta: u32, walk: Seq<Point>) -> bool {
    forall|other: Seq<Point>| #[trigger]
        joins(map, max_delta, other, walk[0], walk.last()) ==> walk_length(walk).le(
            walk_length(other),
        )
}

/// The length of a sequence of points counts at most one move, straight or
/// diagonal, for each point after the first.
pub proof fn lemma_walk_length_counts(walk: Seq<Point>)
    requires
        walk.len() > 0,
    ensures
        walk_length(walk).units >= 0,
        walk_length(walk).roots >= 0,
        walk_length(walk).units + walk_length(walk).roots <= walk.len() - 1,
    decreases walk.len(),
{
    if walk.len() > 1 {
        lemma_walk_length_counts(walk.drop_last());
    }
}

/// The cost of a way by single steps is the length of its steps: no move
/// is kept as a stride.
pub proof fn lemma_path_of_steps(points: Seq<Point>)
    requires
        is_stepwise(points),
        points.len() <= u64::MAX,
    ensures
        path_length(points) == (Length { paces: walk_length(points), strides: Seq::empty() }),
    decreases points.len(),
{
    if points.len() > 1 {
        let shorter = points.drop_last();
        assert forall|i: int| 0 <= i < shorter.len() - 1 implies (
        #[trigger] shorter[i]).within_one_step(shorter[i + 1]) by {
            assert(points[i].within_one_step(points[i + 1]));
        }
        lemma_path_of_steps(shorter);
        lemma_walk_length_counts(shorter);
        assert(points[points.len() - 2].within_one_step(points[points.len() - 2 + 1]));
    }
}

/// A walk has one move less than it has cells, each straight or diagonal.
pub proof fn lemma_walk_moves(map: &RoverMap, max_delta: u32, walk: Seq<Point>)
    requires
        is_walk(map, max_delta, walk),
    ensures
        walk_length(walk).units >= 0,
        walk_length(walk).roots >= 0,
        walk_length(walk).units + walk_length(walk).roots == walk.len() - 1,
    decreases walk.len(),
{
    if walk.len() > 1 {
        lemma_walk_prefix(map, max_delta, walk, walk.len() - 1);
        assert(walk.subrange(0, walk.len() - 1) =~= walk.drop_last());
        lemma_walk_moves(map, max_delta, walk.drop_last());
        assert(map.feasible_step(max_delta, walk[walk.len() - 2], walk[walk.len() - 2 + 1]));
    }
}

/// Along a walk the distance over open ground to any point falls by no
/// more than the length of the walk.
pub proof fn lemma_open_distance_along(walk: Seq<Point>, goal: Point)
    requires
        walk.len() > 0,
        is_stepwise(walk),
    ensures
        open_distance(walk[0], goal).le(
            walk_length(walk).plus(open_distance(walk.last(), goal)),
        ),
    decreases walk.len(),
{
    let d0 = open_distance(walk[0], goal);
    if walk.len() > 1 {
        let shorter = walk.drop_last();
        assert forall|i: int| 0 <= i < shorter.len() - 1 implies (
        #[trigger] shorter[i]).within_one_step(shorter[i + 1]) by {
            assert(walk[i].within_one_step(walk[i + 1]));
        }
        lemma_open_distance_along(shorter, goal);
        let mid = shorter.last();
        assert(walk[walk.len() - 2].within_one_step(walk[walk.len() - 2 + 1]));
        lemma_open_distance_step(mid, walk.last(), goal);
        let d1 = open_distance(mid, goal);
        let d2 = open_distance(walk.last(), goal);
        let step = step_length(mid, walk.last());
        lemma_le_reflexive(walk_length(shorter));
        lemma_le_plus(walk_length(shorter), walk_length(shorter), d1, step.plus(d2));
        lemma_le_transitive(
            d0,
            walk_length(shorter).plus(d1),
            walk_length(shorter).plus(step.plus(d2)),
        );
        assert(walk_length(shorter).plus(step.plus(d2)) == walk_length(walk).plus(d2));
    } else {
        lemma_le_reflexive(d0);
        assert(walk_length(walk).plus(d0) == d0);
    }
}

/// No walk is shorter than the distance over open ground between its
/// ends: elevations can only make the way longer.
pub proof fn lemma_walk_at_least_open_distance(walk: Seq<Point>)
    requires
        walk.len() > 0,
        is_stepwise(walk),
    ensures
        open_distance(walk[0], walk.last()).le(walk_length(walk)),
{
    lemma_open_distance_along(walk, walk.last());
    assert(walk_length(walk).plus(open_distance(walk.last(), walk.last())) == walk_length(walk));
}

/// A way by single steps that is as long as the distance over open ground
/// between its ends is a shortest one: no way by single steps between the
/// same ends costs less.
pub proof fn lemma_open_distance_is_least(way: Seq<Point>, other: Seq<Point>)
    requires
        way.len() > 0,
        other.len() > 0,
        is_stepwise(other),
        other[0] == way[0],
        other.last() == way.last(),
        walk_length(way) == open_distance(way[0], way.last()),
    ensures
        walk_length(way).le(walk_length(other)),
{
    lemma_walk_at_least_open_distance(other);
}

/// The shortest walk from a cell to itself is the cell alone, at no cost.
pub proof fn lemma_walk_to_itself(map: &RoverMap, max_delta: u32, walk: Seq<Point>, p: Point)
    requires
        joins(map, max_delta, walk, p, p),
        is_shortest(map, max_delta, walk),
    ensures
        walk == seq![p],
        walk_length(walk) == Surd::zero(),
{
    reveal(Surd::is_nonneg);
    let alone = seq![p];
    assert(joins(map, max_delta, alone, p, p));
    assert(walk_length(walk).le(walk_length(alone)));
    lemma_walk_moves(map, max_delta, walk);
    assert(walk =~= alone);
}

/// Every cell of a walk is a cell of the grid, and consecutive cells are
/// one step apart, so that the cost of the walk is the sum of the costs of
/// its steps.
pub proof fn lemma_walk_is_stepwise(map: &RoverMap, max_delta: u32, walk: Seq<Point>)
    requires
        is_walk(map, max_delta, walk),
    ensures
        forall|i: int| 0 <= i < walk.len() ==> map.in_bounds(#[trigger] walk[i]),
        is_stepwise(walk),
{
    assert forall|i: int| 0 <= i < walk.len() implies map.in_bounds(#[trigger] walk[i]) by {
        if i > 0 {
            assert(map.feasible_step(max_delta, walk[i - 1], walk[i - 1 + 1]));
        }
    }
    assert forall|i: int| 0 <= i < walk.len() - 1 implies (#[trigger] walk[i]).within_one_step(
        walk[i + 1],
    ) by {
        assert(map.feasible_step(max_delta, walk[i], walk[i + 1]));
    }
}

/// A walk by one more feasible step is a walk, longer by that step.
pub proof fn lemma_walk_push(map: &RoverMap, max_delta: u32, walk: Seq<Point>, next: Point)
    requires
        is_walk(map, max_delta, walk),
        map.feasible_step(max_delta, walk.last(), next),
    ensures
        is_walk(map, max_delta, walk.push(next)),
        walk_length(walk.push(next)) == walk_length(walk).plus(step_length(walk.last(), next)),
{
    let longer = walk.push(next);
    assert(longer.drop_last() =~= walk);
    assert forall|i: int| 0 <= i < longer.len() - 1 implies map.feasible_step(
        max_delta,
        #[trigger] longer[i],
        longer[i + 1],
    ) by {
        if i < walk.len() - 1 {
            assert(map.feasible_step(max_delta, walk[i], walk[i + 1]));
        }
    }
}

/// The first `n` points of a walk are a walk.
pub proof fn lemma_walk_prefix(map: &RoverMap, max_delta: u32, walk: Seq<Point>, n: int)
    requires
        is_walk(map, max_delta, walk),
        0 < n <= walk.len(),
    ensures
        is_walk(map, max_delta, walk.subrange(0, n)),
{
    let head = walk.subrange(0, n);
    assert forall|i: int| 0 <= i < head.len() - 1 implies map.feasible_step(
        max_delta,
        #[trigger] head[i],
        head[i + 1],
    ) by {
        assert(map.feasible_step(max_delta, walk[i], walk[i + 1]));
    }
}

/// The points of a walk from the one at `k` on are a walk.
pub proof fn lemma_walk_suffix(map: &RoverMap, max_delta: u32, walk: Seq<Point>, k: int)
    requires
        is_walk(map, max_delta, walk),
        0 <= k < walk.len(),
    ensures
        is_walk(map, max_delta, walk.subrange(k, walk.len() as int)),
{
    let tail = walk.subrange(k, walk.len() as int);
    if k > 0 {
        assert(map.feasible_step(max_delta, walk[k - 1], walk[k - 1 + 1]));
    }
    assert forall|i: int| 0 <= i < tail.len() - 1 implies map.feasible_step(
        max_delta,
        #[trigger] tail[i],
        tail[i + 1],
    ) by {
        assert(map.feasible_step(max_delta, walk[k + i], walk[k + i + 1]));
    }
}

/// The length of a walk is that of its part up to a point plus that of its
/// part from that point on.
pub proof fn lemma_walk_split(walk: Seq<Point>, k: int)
    requires
        0 <= k < walk.len(),
    ensures
        walk_length(walk) == walk_length(walk.subrange(0, k + 1)).plus(
            walk_length(walk.subrange(k, walk.len() as int)),
        ),
    decreases walk.len(),
{
    let n = walk.len() as int;
    if k == n - 1 {
        assert(walk.subrange(0, k + 1) =~= walk);
    } else {
        let shorter = walk.drop_last();
        lemma_walk_split(shorter, k);
        assert(shorter.subrange(0, k + 1) =~= walk.subrange(0, k + 1));
        let tail = walk.subrange(k, n);
        assert(tail.drop_last() =~= shorter.subrange(k, n - 1));
        assert(tail.last() == walk.last());
        assert(tail[tail.len() - 2] == walk[n - 2]);
    }
}

/// No walk has a negative length.
pub proof fn lemma_walk_length_nonneg(walk: Seq<Point>)
    ensures
        walk_length(walk).is_nonneg(),
    decreases walk.len(),
{
    reveal(Surd::is_nonneg);
    if walk.len() > 1 {
        lemma_walk_length_nonneg(walk.drop_last());
        lemma_nonneg_plus(
            walk_length(walk.drop_last()),
            step_length(walk[walk.len() - 2], walk.last()),
        );
    }
}

} // verus!
