//! Why every round keeps what holds of the search, and what follows for
//! the state in which the search ends.

use vstd::prelude::*;
use crate::choice::{lemma_chosen_optimal, lemma_crossing};
use crate::cost::step_length;
use crate::grid::lemma_neighbor_points;
use crate::metadata::Algorithm;
use crate::point::Point;
use crate::request::PlanningRequest;
use crate::search::{
    child,
    chosen,
    exhausted,
    finished,
    outcome,
    relax,
    relax_all,
    round,
    run,
    settle,
    start,
    Mark,
    Progress,
};
use crate::soundness::{
    cell_ok,
    inv,
    lemma_all_settled,
    lemma_rooted,
    lemma_settled_bounded,
    lemma_settled_one_more,
    lemma_settled_same,
    lemma_start,
    lineage,
    mid,
    node_ok,
    optimal,
    relaxed,
    settled_count,
};
use crate::surd::{
    lemma_le_reflexive,
    lemma_le_total,
    lemma_le_transitive,
    lemma_nonneg_by_coefficients,
};
use crate::walk::{is_shortest, joins, reachable, walk_length};

verus! {

/// Settling the chosen cell keeps what holds of the nodes and the marks,
/// and leaves the new cell's neighbours to be offered a node.
pub proof fn lemma_settle(req: &PlanningRequest, strategy: Algorithm, m: Progress)
    requires
        inv(req, m),
        !exhausted(m),
    ensures
        m.open(chosen(req, strategy, m)),
        req.map.in_bounds(chosen(req, strategy, m)),
        mid(
            req,
            settle(m, chosen(req, strategy, m)),
            chosen(req, strategy, m),
            req.map.neighbor_points(chosen(req, strategy, m)),
            0,
        ),
        settled_count(req, settle(m, chosen(req, strategy, m))) == settled_count(req, m) + 1,
{
    lemma_chosen_optimal(req, strategy, m);
    let v = chosen(req, strategy, m);
    let after = settle(m, v);
    assert(cell_ok(req, m, v));
    assert(forall|p: Point| p != v ==> after.mark(p) == m.mark(p));
    assert(after.mark(v) == Mark::Settled(m.node_at(v)));
    lemma_settled_one_more(req, m, after, v);
    assert forall|i: int| 0 <= i < after.nodes.len() implies #[trigger] node_ok(req, after, i) by {
        assert(node_ok(req, m, i));
    }
    assert forall|p: Point| req.map.in_bounds(p) implies #[trigger] cell_ok(req, after, p) by {
        assert(cell_ok(req, m, p));
        assert(after.cost_at(p) == m.cost_at(p));
        if p == v {
            assert(node_ok(req, m, m.node_at(v)));
        } else if m.settled(p) {
            assert(optimal(req, m, p));
        }
    }
    assert forall|u: Point, w: Point| u != v implies #[trigger] relaxed(req, after, u, w) by {
        assert(relaxed(req, m, u, w));
    }
}

/// One offer keeps what holds within a round.
pub proof fn lemma_relax(req: &PlanningRequest, m: Progress, v: Point, cells: Seq<Point>, k: int)
    requires
        mid(req, m, v, cells, k),
        k < cells.len(),
        req.map.in_bounds(cells[k]),
        v.adjacent(cells[k]),
    ensures
        mid(req, relax(req, m, v, cells[k]), v, cells, k + 1),
        settled_count(req, relax(req, m, v, cells[k])) == settled_count(req, m),
{
    let q = cells[k];
    let after = relax(req, m, v, q);
    let offer = child(m, v, q);
    lemma_settled_bounded(req, m);
    assert(cell_ok(req, m, v));
    assert(cell_ok(req, m, q));
    assert(node_ok(req, m, m.node_at(v)));
    assert(node_ok(req, m, 0));
    assert(forall|p: Point| after.settled(p) <==> m.settled(p));
    lemma_settled_same(req, m, after);
    lemma_le_reflexive(offer.cost);
    lemma_nonneg_by_coefficients(offer.cost);
    lemma_le_total(offer.cost, m.cost_at(q));
    let taken = req.map.passable(v, q, req.limit()) && match m.mark(q) {
        Mark::Settled(_) => false,
        Mark::Unseen => true,
        Mark::Open(_) => offer.cost.lt(m.cost_at(q)),
    };
    if !taken {
        assert(after == m);
        assert forall|j: int| 0 <= j < k + 1 implies #[trigger] relaxed(req, after, v, cells[j]) by {
            if j < k {
                assert(relaxed(req, m, v, cells[j]));
            }
        }
    } else {
        let fresh = m.nodes.len() as int;
        assert(after.nodes == m.nodes.push(offer));
        assert(after.mark(q) == Mark::Open(fresh));
        assert(forall|p: Point| p != q ==> after.mark(p) == m.mark(p));
        // The root costs nothing, so no offer to the landing point is taken.
        assert(q != req.landing());
        assert forall|i: int| 0 <= i < after.nodes.len() implies #[trigger] node_ok(
            req,
            after,
            i,
        ) by {
            if i < fresh {
                assert(node_ok(req, m, i));
            }
        }
        assert forall|p: Point| req.map.in_bounds(p) implies #[trigger] cell_ok(req, after, p) by {
            assert(cell_ok(req, m, p));
            if p != q {
                assert(after.cost_at(p) == m.cost_at(p));
                if m.settled(p) {
                    assert(optimal(req, m, p));
                }
            }
        }
        assert forall|u: Point, w: Point| relaxed(req, m, u, w) implies #[trigger] relaxed(
            req,
            after,
            u,
            w,
        ) by {
            if after.settled(u) && req.step(u, w) && !after.settled(w) {
                assert(cell_ok(req, m, u));
                assert(cell_ok(req, m, w));
                assert(after.cost_at(u) == m.cost_at(u));
                if w == q {
                    // The node that `q` had cost no more than the way
                    // through `u`, and the new one costs less.
                    lemma_le_transitive(
                        offer.cost,
                        m.cost_at(q),
                        m.cost_at(u).plus(step_length(u, q)),
                    );
                } else {
                    assert(after.cost_at(w) == m.cost_at(w));
                }
            }
        }
        assert forall|u: Point, w: Point| u != v implies #[trigger] relaxed(req, after, u, w) by {
            assert(relaxed(req, m, u, w));
        }
        assert forall|j: int| 0 <= j < k + 1 implies #[trigger] relaxed(req, after, v, cells[j]) by {
            if j < k {
                assert(relaxed(req, m, v, cells[j]));
            } else {
                assert(after.cost_at(v) == m.cost_at(v));
            }
        }
    }
}

/// The offers to all the neighbours of the settled cell keep what holds
/// within a round.
pub proof fn lemma_relax_all(
    req: &PlanningRequest,
    m: Progress,
    v: Point,
    cells: Seq<Point>,
    k: nat,
)
    requires
        mid(req, m, v, cells, 0),
        cells == req.map.neighbor_points(v),
        k <= cells.len(),
    ensures
        mid(req, relax_all(req, m, v, cells, k), v, cells, k as int),
        settled_count(req, relax_all(req, m, v, cells, k)) == settled_count(req, m),
    decreases k,
{
    if k > 0 {
        lemma_relax_all(req, m, v, cells, (k - 1) as nat);
        lemma_neighbor_points(&req.map, v);
        lemma_relax(req, relax_all(req, m, v, cells, (k - 1) as nat), v, cells, k - 1);
    }
}

/// Once the settled cell has made its offer to all its neighbours, what
/// holds between rounds holds again.
pub proof fn lemma_round_ends(req: &PlanningRequest, m: Progress, v: Point, cells: Seq<Point>)
    requires
        mid(req, m, v, cells, cells.len() as int),
        cells == req.map.neighbor_points(v),
    ensures
        inv(req, m),
{
    lemma_neighbor_points(&req.map, v);
    assert forall|u: Point, w: Point| #[trigger] relaxed(req, m, u, w) by {
        if u == v && req.step(v, w) {
            let j = choose|j: int| 0 <= j < cells.len() && cells[j] == w;
            assert(relaxed(req, m, v, cells[j]));
        }
    }
}

/// A round keeps what holds between rounds, and settles one cell more.
pub proof fn lemma_round(req: &PlanningRequest, strategy: Algorithm, m: Progress)
    requires
        inv(req, m),
        !exhausted(m),
    ensures
        inv(req, round(req, strategy, m)),
        settled_count(req, round(req, strategy, m)) == settled_count(req, m) + 1,
{
    lemma_settle(req, strategy, m);
    let v = chosen(req, strategy, m);
    let cells = req.map.neighbor_points(v);
    lemma_relax_all(req, settle(m, v), v, cells, cells.len());
    lemma_round_ends(req, round(req, strategy, m), v, cells);
}

/// Offers add nodes and change none: the nodes made before stand where
/// they stood, as they were.
pub proof fn lemma_relax_all_keeps_nodes(
    req: &PlanningRequest,
    m: Progress,
    v: Point,
    cells: Seq<Point>,
    k: nat,
)
    ensures
        m.nodes.is_prefix_of(relax_all(req, m, v, cells, k).nodes),
    decreases k,
{
    if k > 0 {
        lemma_relax_all_keeps_nodes(req, m, v, cells, (k - 1) as nat);
    }
}

/// A round adds nodes and changes none.
pub proof fn lemma_round_keeps_nodes(req: &PlanningRequest, strategy: Algorithm, m: Progress)
    ensures
        m.nodes.is_prefix_of(round(req, strategy, m).nodes),
{
    let v = chosen(req, strategy, m);
    let cells = req.map.neighbor_points(v);
    lemma_relax_all_keeps_nodes(req, settle(m, v), v, cells, cells.len());
}

/// A search adds nodes and changes none: a node, once made, is there to
/// the end, with the same cell, the same parent and the same cost.
pub proof fn lemma_run_keeps_nodes(
    req: &PlanningRequest,
    strategy: Algorithm,
    m: Progress,
    rounds: nat,
)
    ensures
        m.nodes.is_prefix_of(run(req, strategy, m, rounds).nodes),
    decreases rounds,
{
    if rounds > 0 && !finished(req, m) {
        lemma_round_keeps_nodes(req, strategy, m);
        lemma_run_keeps_nodes(req, strategy, round(req, strategy, m), (rounds - 1) as nat);
    }
}

/// While a cell is open, fewer cells are settled than there are cells.
pub proof fn lemma_room_left(req: &PlanningRequest, m: Progress)
    requires
        inv(req, m),
        !exhausted(m),
    ensures
        settled_count(req, m) < req.cells(),
{
    let p = choose|p: Point| m.open(p);
    if settled_count(req, m) >= req.cells() {
        lemma_all_settled(req, m, p);
    }
}

/// The search keeps what holds between rounds, and ends where it is given
/// as many rounds as there are cells that are not settled.
pub proof fn lemma_run(req: &PlanningRequest, strategy: Algorithm, m: Progress, rounds: nat)
    requires
        inv(req, m),
    ensures
        inv(req, run(req, strategy, m, rounds)),
        settled_count(req, m) + rounds >= req.cells() ==> finished(
            req,
            run(req, strategy, m, rounds),
        ),
    decreases rounds,
{
    if finished(req, m) {
    } else if rounds == 0 {
        lemma_room_left(req, m);
    } else {
        lemma_round(req, strategy, m);
        lemma_run(req, strategy, round(req, strategy, m), (rounds - 1) as nat);
    }
}

/// The search ends, and what holds between rounds holds in the end.
pub proof fn lemma_outcome(req: &PlanningRequest, strategy: Algorithm)
    requires
        req.map.in_bounds(req.landing()),
    ensures
        inv(req, outcome(req, strategy)),
        finished(req, outcome(req, strategy)),
{
    lemma_start(req);
    lemma_settled_bounded(req, start(req));
    lemma_run(req, strategy, start(req), req.cells() as nat);
}

/// The parent links of a settled cell's node give a walk from the landing
/// point to the cell, as long as the node's cost, and no walk between the
/// two is shorter. So the cell is reachable.
pub proof fn lemma_settled_is_shortest(req: &PlanningRequest, m: Progress, p: Point)
    requires
        inv(req, m),
        req.map.in_bounds(p),
        m.settled(p),
    ensures
        0 <= m.node_at(p) < m.nodes.len(),
        joins(&req.map, req.limit(), lineage(m.nodes, m.node_at(p)), req.landing(), p),
        walk_length(lineage(m.nodes, m.node_at(p))) == m.cost_at(p),
        is_shortest(&req.map, req.limit(), lineage(m.nodes, m.node_at(p))),
        reachable(&req.map, req.limit(), req.landing(), p),
{
    assert(cell_ok(req, m, p));
    lemma_rooted(req, m, m.node_at(p));
    assert(optimal(req, m, p));
}

/// Where the frontier is empty, a cell that is not settled cannot be
/// reached from the landing point.
pub proof fn lemma_unsettled_is_unreachable(req: &PlanningRequest, m: Progress, p: Point)
    requires
        inv(req, m),
        exhausted(m),
        !m.settled(p),
    ensures
        !reachable(&req.map, req.limit(), req.landing(), p),
{
    if reachable(&req.map, req.limit(), req.landing(), p) {
        let walk = choose|walk: Seq<Point>| joins(&req.map, req.limit(), walk, req.landing(), p);
        let i = lemma_crossing(req, m, walk);
        assert(m.open(walk[i]));
    }
}

} // verus!
