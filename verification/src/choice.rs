//! Which cell leaves the frontier, and why its node is optimal.

use vstd::prelude::*;
use crate::cost::{lemma_open_distance_step, open_distance, step_length};
use crate::metadata::Algorithm;
use crate::point::Point;
use crate::request::PlanningRequest;
use crate::search::{chosen, estimate, exhausted, goes_before, leads, nearest, priority, Progress};
use crate::soundness::{
    cell_id,
    cell_of,
    cell_ok,
    inv,
    lemma_cell_id,
    lemma_cell_of,
    node_ok,
    optimal,
    relaxed,
};
use crate::surd::{
    lemma_le_antisymmetric,
    lemma_le_plus,
    lemma_le_plus_same,
    lemma_le_reflexive,
    lemma_le_total,
    lemma_le_transitive,
    lemma_lt_le_transitive,
    lemma_nonneg_by_coefficients,
    Surd,
};
use crate::walk::{
    is_stepwise,
    is_walk,
    joins,
    lemma_walk_is_stepwise,
    lemma_walk_prefix,
    lemma_walk_split,
    lemma_walk_suffix,
    walk_length,
};

verus! {

/// One step changes the distance to the nearest unsettled target by at most
/// the length of the step.
proof fn lemma_nearest_step(m: Progress, targets: Seq<Point>, from: Point, to: Point, n: nat)
    requires
        from.within_one_step(to),
    ensures
        nearest(m, targets, from, n) is Some <==> nearest(m, targets, to, n) is Some,
        nearest(m, targets, from, n) is Some ==> nearest(m, targets, from, n)->0.le(
            step_length(from, to).plus(nearest(m, targets, to, n)->0),
        ),
    decreases n,
{
    if n > 0 {
        lemma_nearest_step(m, targets, from, to, (n - 1) as nat);
        let target = targets[n - 1];
        if !m.settled(target) {
            let step = step_length(from, to);
            let d_from = open_distance(from, target);
            let d_to = open_distance(to, target);
            lemma_open_distance_step(from, to, target);
            match nearest(m, targets, to, (n - 1) as nat) {
                None => {},
                Some(r_to) => {
                    let r_from = nearest(m, targets, from, (n - 1) as nat)->0;
                    let least_from = nearest(m, targets, from, n)->0;
                    // The least on this side is at most each of the two.
                    lemma_le_total(r_from, d_from);
                    lemma_le_reflexive(r_from);
                    lemma_le_reflexive(d_from);
                    assert(least_from.le(r_from) && least_from.le(d_from));
                    if r_to.le(d_to) {
                        lemma_le_transitive(least_from, r_from, step.plus(r_to));
                    } else {
                        lemma_le_transitive(least_from, d_from, step.plus(d_to));
                    }
                },
            }
        }
    }
}

/// No strategy's estimate falls by more than the length of a step along
/// that step.
pub proof fn lemma_estimate_step(
    req: &PlanningRequest,
    strategy: Algorithm,
    m: Progress,
    from: Point,
    to: Point,
)
    requires
        from.within_one_step(to),
    ensures
        estimate(req, strategy, m, from).le(
            step_length(from, to).plus(estimate(req, strategy, m, to)),
        ),
{
    lemma_nearest_step(m, req.targets(), from, to, req.targets().len());
    lemma_nonneg_by_coefficients(step_length(from, to).plus(Surd::zero()));
}

/// No strategy's estimate at the start of a walk exceeds the length of the
/// walk plus the estimate at its end.
pub proof fn lemma_estimate_walk(
    req: &PlanningRequest,
    strategy: Algorithm,
    m: Progress,
    walk: Seq<Point>,
)
    requires
        walk.len() > 0,
        is_stepwise(walk),
    ensures
        estimate(req, strategy, m, walk[0]).le(
            walk_length(walk).plus(estimate(req, strategy, m, walk.last())),
        ),
    decreases walk.len(),
{
    let e0 = estimate(req, strategy, m, walk[0]);
    if walk.len() > 1 {
        let shorter = walk.drop_last();
        assert forall|i: int| 0 <= i < shorter.len() - 1 implies (
        #[trigger] shorter[i]).within_one_step(shorter[i + 1]) by {
            assert(walk[i].within_one_step(walk[i + 1]));
        }
        lemma_estimate_walk(req, strategy, m, shorter);
        let mid = shorter.last();
        assert(walk[walk.len() - 2].within_one_step(walk[walk.len() - 2 + 1]));
        lemma_estimate_step(req, strategy, m, mid, walk.last());
        let e1 = estimate(req, strategy, m, mid);
        let e2 = estimate(req, strategy, m, walk.last());
        let step = step_length(mid, walk.last());
        // e0 <= L(shorter) + e1 and e1 <= step + e2
        lemma_le_reflexive(walk_length(shorter));
        lemma_le_plus(walk_length(shorter), walk_length(shorter), e1, step.plus(e2));
        lemma_le_transitive(
            e0,
            walk_length(shorter).plus(e1),
            walk_length(shorter).plus(step.plus(e2)),
        );
        assert(walk_length(shorter).plus(step.plus(e2)) == walk_length(walk).plus(e2));
    } else {
        lemma_le_reflexive(e0);
        assert(walk_length(walk).plus(e0) == e0);
    }
}

/// The distance to the nearest unsettled target depends on which targets
/// are settled, and on nothing else of the state.
proof fn lemma_nearest_same(a: Progress, b: Progress, targets: Seq<Point>, p: Point, n: nat)
    requires
        n <= targets.len(),
        forall|i: int| 0 <= i < targets.len() ==> a.settled(targets[i]) == b.settled(targets[i]),
    ensures
        nearest(a, targets, p, n) == nearest(b, targets, p, n),
    decreases n,
{
    if n > 0 {
        lemma_nearest_same(a, b, targets, p, (n - 1) as nat);
    }
}

/// A strategy's estimate depends on which targets are settled, and on
/// nothing else of the state.
pub proof fn lemma_estimate_same(
    req: &PlanningRequest,
    strategy: Algorithm,
    a: Progress,
    b: Progress,
    p: Point,
)
    requires
        strategy == Algorithm::AStar ==> forall|i: int|
            0 <= i < req.targets().len() ==> a.settled(req.targets()[i]) == b.settled(
                req.targets()[i],
            ),
    ensures
        estimate(req, strategy, a, p) == estimate(req, strategy, b, p),
{
    if strategy == Algorithm::AStar {
        lemma_nearest_same(a, b, req.targets(), p, req.targets().len());
    }
}

/// The order in which cells leave the frontier is transitive.
pub proof fn lemma_goes_before_transitive(
    req: &PlanningRequest,
    strategy: Algorithm,
    m: Progress,
    p: Point,
    q: Point,
    r: Point,
)
    requires
        goes_before(req, strategy, m, p, q),
        goes_before(req, strategy, m, q, r),
    ensures
        goes_before(req, strategy, m, p, r),
{
    let a = priority(req, strategy, m, p);
    let b = priority(req, strategy, m, q);
    let c = priority(req, strategy, m, r);
    if a.lt(b) && b.lt(c) {
        lemma_le_total(b, c);
        lemma_lt_le_transitive(a, b, c);
    }
}

/// Of two distinct cells one goes before the other, and not the other
/// before the one.
pub proof fn lemma_goes_before_total(
    req: &PlanningRequest,
    strategy: Algorithm,
    m: Progress,
    p: Point,
    q: Point,
)
    requires
        p != q,
    ensures
        goes_before(req, strategy, m, p, q) != goes_before(req, strategy, m, q, p),
{
    let a = priority(req, strategy, m, p);
    let b = priority(req, strategy, m, q);
    lemma_le_total(a, b);
    lemma_le_reflexive(a);
    if a.le(b) && b.le(a) {
        lemma_le_antisymmetric(a, b);
    }
}

/// The cell that goes before the others among the open cells with a
/// number below `n`.
spec fn least_below(req: &PlanningRequest, strategy: Algorithm, m: Progress, n: nat) -> Option<
    Point,
>
    decreases n,
{
    if n == 0 {
        None
    } else {
        let rest = least_below(req, strategy, m, (n - 1) as nat);
        let cell = cell_of(req, n - 1);
        if !m.open(cell) {
            rest
        } else {
            match rest {
                None => Some(cell),
                Some(held) => if goes_before(req, strategy, m, cell, held) {
                    Some(cell)
                } else {
                    Some(held)
                },
            }
        }
    }
}

proof fn lemma_least_below(req: &PlanningRequest, strategy: Algorithm, m: Progress, n: nat)
    requires
        n <= req.cells(),
    ensures
        match least_below(req, strategy, m, n) {
            Some(least) => {
                &&& m.open(least)
                &&& req.map.in_bounds(least)
                &&& cell_id(req, least) < n
                &&& forall|y: Point|
                    m.open(y) && req.map.in_bounds(y) && cell_id(req, y) < n && y != least
                        ==> #[trigger] goes_before(req, strategy, m, least, y)
            },
            None => forall|y: Point|
                req.map.in_bounds(y) && cell_id(req, y) < n ==> !#[trigger] m.open(y),
        },
    decreases n,
{
    if n > 0 {
        lemma_least_below(req, strategy, m, (n - 1) as nat);
        let rest = least_below(req, strategy, m, (n - 1) as nat);
        let cell = cell_of(req, n - 1);
        lemma_cell_of(req, n - 1);
        assert forall|y: Point| req.map.in_bounds(y) && cell_id(req, y) == n - 1 implies y
            == cell by {
            lemma_cell_id(req, y);
        }
        match least_below(req, strategy, m, n) {
            None => {},
            Some(least) => {
                assert forall|y: Point|
                    m.open(y) && req.map.in_bounds(y) && cell_id(req, y) < n && y
                        != least implies #[trigger] goes_before(req, strategy, m, least, y) by {
                    match rest {
                        None => {},
                        Some(held) => {
                            if least == cell {
                                if y != held {
                                    lemma_goes_before_transitive(req, strategy, m, cell, held, y);
                                }
                            } else if y == cell {
                                lemma_goes_before_total(req, strategy, m, cell, held);
                            }
                        },
                    }
                }
            },
        }
    }
}

/// Where some cell is open, the cell that is settled next is the open cell
/// that goes before every other.
pub proof fn lemma_someone_leads(req: &PlanningRequest, strategy: Algorithm, m: Progress)
    requires
        forall|p: Point| m.marks.dom().contains(p) ==> req.map.in_bounds(p),
        !exhausted(m),
    ensures
        leads(req, strategy, m, chosen(req, strategy, m)),
{
    let some = choose|p: Point| m.open(p);
    lemma_cell_id(req, some);
    lemma_least_below(req, strategy, m, req.cells() as nat);
    let least = least_below(req, strategy, m, req.cells() as nat)->0;
    assert forall|y: Point| m.open(y) && y != least implies #[trigger] goes_before(
        req,
        strategy,
        m,
        least,
        y,
    ) by {
        lemma_cell_id(req, y);
    }
    assert(leads(req, strategy, m, least));
}

/// One cell only goes before every other open cell.
pub proof fn lemma_leader_unique(
    req: &PlanningRequest,
    strategy: Algorithm,
    m: Progress,
    a: Point,
    b: Point,
)
    requires
        leads(req, strategy, m, a),
        leads(req, strategy, m, b),
    ensures
        a == b,
{
    if a != b {
        assert(goes_before(req, strategy, m, a, b));
        assert(goes_before(req, strategy, m, b, a));
        lemma_goes_before_total(req, strategy, m, a, b);
    }
}

/// The first place of a walk, from `from` on, whose cell is not settled,
/// where the cells before `from` are settled and the last cell is not.
proof fn lemma_first_unsettled(m: Progress, walk: Seq<Point>, from: int) -> (i: int)
    requires
        0 <= from < walk.len(),
        !m.settled(walk.last()),
        forall|j: int| 0 <= j < from ==> m.settled(#[trigger] walk[j]),
    ensures
        0 <= i < walk.len(),
        !m.settled(walk[i]),
        forall|j: int| 0 <= j < i ==> m.settled(#[trigger] walk[j]),
    decreases walk.len() - from,
{
    if !m.settled(walk[from]) {
        from
    } else {
        lemma_first_unsettled(m, walk, from + 1)
    }
}

/// Where a walk from the landing point leaves the settled cells, it meets
/// an open cell whose node costs no more than the walk up to there.
pub proof fn lemma_crossing(req: &PlanningRequest, m: Progress, walk: Seq<Point>) -> (i: int)
    requires
        inv(req, m),
        is_walk(&req.map, req.limit(), walk),
        walk[0] == req.landing(),
        !m.settled(walk.last()),
    ensures
        0 <= i < walk.len(),
        m.open(walk[i]),
        req.map.in_bounds(walk[i]),
        m.cost_at(walk[i]).le(walk_length(walk.subrange(0, i + 1))),
{
    lemma_walk_is_stepwise(&req.map, req.limit(), walk);
    let i = lemma_first_unsettled(m, walk, 0);
    let head = walk.subrange(0, i + 1);
    if i == 0 {
        assert(node_ok(req, m, 0));
        lemma_le_reflexive(Surd::zero());
    } else {
        let u = walk[i - 1];
        let y = walk[i];
        assert(req.step(walk[i - 1], walk[i - 1 + 1]));
        assert(relaxed(req, m, u, y));
        assert(cell_ok(req, m, u));
        let before = walk.subrange(0, i);
        lemma_walk_prefix(&req.map, req.limit(), walk, i);
        assert(joins(&req.map, req.limit(), before, req.landing(), u));
        assert(optimal(req, m, u));
        assert(m.cost_at(u).le(walk_length(before)));
        assert(head.drop_last() =~= before);
        assert(head[head.len() - 2] == u);
        lemma_le_reflexive(step_length(u, y));
        lemma_le_plus(m.cost_at(u), walk_length(before), step_length(u, y), step_length(u, y));
        lemma_le_transitive(
            m.cost_at(y),
            m.cost_at(u).plus(step_length(u, y)),
            walk_length(head),
        );
    }
    i
}

/// The cell that leads has a priority that is at most that of any open
/// cell.
proof fn lemma_leader_least(
    req: &PlanningRequest,
    strategy: Algorithm,
    m: Progress,
    v: Point,
    y: Point,
)
    requires
        leads(req, strategy, m, v),
        m.open(y),
    ensures
        priority(req, strategy, m, v).le(priority(req, strategy, m, y)),
{
    let a = priority(req, strategy, m, v);
    let b = priority(req, strategy, m, y);
    lemma_le_reflexive(a);
    lemma_le_total(a, b);
    if y != v {
        assert(goes_before(req, strategy, m, v, y));
    }
}

/// From `reached + ahead <= first + between` and `between <= second +
/// ahead` follows `reached <= first + second`.
proof fn lemma_cancel(reached: Surd, ahead: Surd, first: Surd, between: Surd, second: Surd)
    requires
        reached.plus(ahead).le(first.plus(between)),
        between.le(second.plus(ahead)),
    ensures
        reached.le(first.plus(second)),
{
    lemma_le_reflexive(first);
    lemma_le_plus(first, first, between, second.plus(ahead));
    lemma_le_transitive(
        reached.plus(ahead),
        first.plus(between),
        first.plus(second.plus(ahead)),
    );
    assert(first.plus(second.plus(ahead)) == first.plus(second).plus(ahead));
    lemma_le_plus_same(reached, first.plus(second), ahead);
}

/// The node of the cell that leads costs no more than any walk from the
/// landing point to the cell.
proof fn lemma_leader_beats(
    req: &PlanningRequest,
    strategy: Algorithm,
    m: Progress,
    v: Point,
    walk: Seq<Point>,
)
    requires
        inv(req, m),
        leads(req, strategy, m, v),
        joins(&req.map, req.limit(), walk, req.landing(), v),
    ensures
        m.cost_at(v).le(walk_length(walk)),
{
    let i = lemma_crossing(req, m, walk);
    let y = walk[i];
    let head = walk.subrange(0, i + 1);
    let tail = walk.subrange(i, walk.len() as int);
    lemma_leader_least(req, strategy, m, v, y);
    lemma_walk_suffix(&req.map, req.limit(), walk, i);
    lemma_walk_is_stepwise(&req.map, req.limit(), tail);
    lemma_estimate_walk(req, strategy, m, tail);
    lemma_walk_split(walk, i);
    let e_v = estimate(req, strategy, m, v);
    let e_y = estimate(req, strategy, m, y);
    // cost(v) + e(v) <= cost(y) + e(y) <= L(head) + e(y)
    lemma_le_reflexive(e_y);
    lemma_le_plus(m.cost_at(y), walk_length(head), e_y, e_y);
    lemma_le_transitive(
        m.cost_at(v).plus(e_v),
        m.cost_at(y).plus(e_y),
        walk_length(head).plus(e_y),
    );
    // e(y) <= L(tail) + e(v)
    lemma_cancel(m.cost_at(v), e_v, walk_length(head), e_y, walk_length(tail));
}

/// The node of the cell that is settled next is optimal: no walk from the
/// landing point to the cell is shorter than the node's cost.
pub proof fn lemma_chosen_optimal(req: &PlanningRequest, strategy: Algorithm, m: Progress)
    requires
        inv(req, m),
        !exhausted(m),
    ensures
        leads(req, strategy, m, chosen(req, strategy, m)),
        req.map.in_bounds(chosen(req, strategy, m)),
        optimal(req, m, chosen(req, strategy, m)),
{
    lemma_someone_leads(req, strategy, m);
    let v = chosen(req, strategy, m);
    assert forall|walk: Seq<Point>| #[trigger]
        joins(&req.map, req.limit(), walk, req.landing(), v) implies m.cost_at(v).le(
        walk_length(walk),
    ) by {
        lemma_leader_beats(req, strategy, m, v, walk);
    }
}

} // verus!
