//! What holds of every state of the search.

use vstd::prelude::*;
use vstd::arithmetic::div_mod::{lemma_fundamental_div_mod, lemma_fundamental_div_mod_converse};
use vstd::set_lib::{lemma_int_range, lemma_len_subset, lemma_subset_equality, set_int_range};
use crate::cost::step_length;
use crate::node::{rooted_trail, trail, Link};
use crate::point::Point;
use crate::request::PlanningRequest;
use crate::search::{start, Mark, Progress};
use crate::surd::Surd;
use crate::walk::{joins, lemma_walk_push, walk_length};

verus! {

/// The number of a cell, counting row by row.
pub open spec fn cell_id(req: &PlanningRequest, p: Point) -> int {
    p.y * req.map.width + p.x
}

/// The cell with the given number.
pub open spec fn cell_of(req: &PlanningRequest, k: int) -> Point {
    Point { x: (k % (req.map.width as int)) as u32, y: (k / (req.map.width as int)) as u32 }
}

/// The numbers of the settled cells.
pub open spec fn settled_ids(req: &PlanningRequest, m: Progress) -> Set<int> {
    Set::new(|k: int| 0 <= k < req.cells() && m.settled(cell_of(req, k)))
}

/// How many cells are settled.
pub open spec fn settled_count(req: &PlanningRequest, m: Progress) -> nat {
    settled_ids(req, m).len()
}

/// The number of moves that a node's cost stands for.
pub open spec fn moves(node: Link) -> int {
    node.cost.units + node.cost.roots
}

/// A node lies on the grid and is either the root, at the landing point, or
/// one feasible step from its parent, an earlier node whose cell is
/// settled; its cost is the parent's plus the length of that step, and
/// holds no longer move.
pub open spec fn node_ok(req: &PlanningRequest, m: Progress, i: int) -> bool {
    let node = m.nodes[i];
    &&& req.map.in_bounds(node.location)
    &&& 0 <= node.cost.units
    &&& 0 <= node.cost.roots
    &&& node.strides.len() == 0
    &&& moves(node) <= settled_count(req, m)
    &&& match node.parent {
        None => i == 0 && node.location == req.landing() && node.cost == Surd::zero(),
        Some(parent) => {
            &&& 0 <= parent < i
            &&& req.step(m.nodes[parent].location, node.location)
            &&& node.cost == m.nodes[parent].cost.plus(
                step_length(m.nodes[parent].location, node.location),
            )
            &&& m.mark(m.nodes[parent].location) == Mark::Settled(parent)
        },
    }
}

/// No walk from the landing point to `p` is shorter than the cost of the
/// node that the mark of `p` names.
pub open spec fn optimal(req: &PlanningRequest, m: Progress, p: Point) -> bool {
    forall|walk: Seq<Point>| #[trigger]
        joins(&req.map, req.limit(), walk, req.landing(), p) ==> m.cost_at(p).le(
            walk_length(walk),
        )
}

/// The mark of a cell names a node for that cell, and the node of a
/// settled cell is optimal.
pub open spec fn cell_ok(req: &PlanningRequest, m: Progress, p: Point) -> bool {
    match m.mark(p) {
        Mark::Unseen => true,
        Mark::Open(i) => 0 <= i < m.nodes.len() && m.nodes[i].location == p,
        Mark::Settled(i) => 0 <= i < m.nodes.len() && m.nodes[i].location == p && moves(m.nodes[i])
            < settled_count(req, m) && optimal(req, m, p),
    }
}

/// Where `u` is settled and `v`, one feasible step away, is not, `v` is
/// open and its node costs no more than the way through `u`.
pub open spec fn relaxed(req: &PlanningRequest, m: Progress, u: Point, v: Point) -> bool {
    m.settled(u) && req.step(u, v) && !m.settled(v) ==> m.open(v) && m.cost_at(v).le(
        m.cost_at(u).plus(step_length(u, v)),
    )
}

/// What holds of the nodes and the marks at all times.
pub open spec fn base(req: &PlanningRequest, m: Progress) -> bool {
    &&& req.map.in_bounds(req.landing())
    &&& forall|p: Point| m.marks.dom().contains(p) <==> req.map.in_bounds(p)
    &&& m.nodes.len() > 0
    &&& m.nodes[0].parent is None
    &&& m.mark(req.landing()) != Mark::Unseen
    &&& m.node_at(req.landing()) == 0
    &&& forall|i: int| 0 <= i < m.nodes.len() ==> #[trigger] node_ok(req, m, i)
    &&& forall|p: Point| req.map.in_bounds(p) ==> #[trigger] cell_ok(req, m, p)
}

/// What holds between two rounds.
pub open spec fn inv(req: &PlanningRequest, m: Progress) -> bool {
    &&& base(req, m)
    &&& forall|u: Point, v: Point| #[trigger] relaxed(req, m, u, v)
}

/// What holds within a round, after the cell `v` is settled and has made
/// its offer to the first `k` of `cells`.
pub open spec fn mid(
    req: &PlanningRequest,
    m: Progress,
    v: Point,
    cells: Seq<Point>,
    k: int,
) -> bool {
    &&& base(req, m)
    &&& req.map.in_bounds(v)
    &&& m.settled(v)
    &&& 0 <= k <= cells.len()
    &&& forall|u: Point, w: Point| u != v ==> #[trigger] relaxed(req, m, u, w)
    &&& forall|j: int| 0 <= j < k ==> #[trigger] relaxed(req, m, v, cells[j])
}

/// The cells of the grid and the numbers below the count of cells match
/// one to one.
pub proof fn lemma_cell_id(req: &PlanningRequest, p: Point)
    requires
        req.map.in_bounds(p),
    ensures
        0 <= cell_id(req, p) < req.cells(),
        cell_of(req, cell_id(req, p)) == p,
{
    let w = req.map.width as int;
    let h = req.map.height as int;
    assert(p.y * w + p.x < w * h) by (nonlinear_arith)
        requires
            0 <= p.x < w,
            0 <= p.y < h,
    ;
    assert(p.y * w >= 0) by (nonlinear_arith)
        requires
            0 <= p.y,
            0 <= w,
    ;
    lemma_fundamental_div_mod_converse(cell_id(req, p), w, p.y as int, p.x as int);
}

/// A cell is named by one number only.
pub proof fn lemma_cell_of(req: &PlanningRequest, k: int)
    requires
        0 <= k < req.cells(),
    ensures
        req.map.in_bounds(cell_of(req, k)),
        cell_id(req, cell_of(req, k)) == k,
{
    let w = req.map.width as int;
    let h = req.map.height as int;
    assert(w > 0) by (nonlinear_arith)
        requires
            0 <= k < w * h,
            w >= 0,
    ;
    lemma_fundamental_div_mod(k, w);
    assert(0 <= k % w < w);
    assert(0 <= k / w < h) by (nonlinear_arith)
        requires
            k == w * (k / w) + k % w,
            0 <= k % w < w,
            0 <= k < w * h,
            w > 0,
    ;
    assert((k / w) * w == w * (k / w)) by (nonlinear_arith);
}

/// There are at most as many settled cells as cells, and the count of
/// cells fits in 64 bits.
pub proof fn lemma_settled_bounded(req: &PlanningRequest, m: Progress)
    ensures
        settled_ids(req, m).finite(),
        settled_count(req, m) <= req.cells(),
        0 <= req.cells() <= 0xffff_ffff * 0xffff_ffff,
{
    let w = req.map.width as int;
    let h = req.map.height as int;
    assert(0 <= w * h <= 0xffff_ffff * 0xffff_ffff) by (nonlinear_arith)
        requires
            0 <= w <= 0xffff_ffff,
            0 <= h <= 0xffff_ffff,
    ;
    lemma_int_range(0, req.cells());
    assert(settled_ids(req, m).subset_of(set_int_range(0, req.cells())));
    lemma_len_subset(settled_ids(req, m), set_int_range(0, req.cells()));
}

/// Settling one more cell raises the count of settled cells by one.
pub proof fn lemma_settled_one_more(
    req: &PlanningRequest,
    before: Progress,
    after: Progress,
    v: Point,
)
    requires
        req.map.in_bounds(v),
        !before.settled(v),
        forall|p: Point| after.settled(p) <==> before.settled(p) || p == v,
    ensures
        settled_count(req, after) == settled_count(req, before) + 1,
{
    lemma_settled_bounded(req, before);
    lemma_cell_id(req, v);
    let id = cell_id(req, v);
    assert forall|k: int| settled_ids(req, after).contains(k) <==> settled_ids(req, before).insert(
        id,
    ).contains(k) by {
        if 0 <= k < req.cells() {
            lemma_cell_of(req, k);
        }
    }
    assert(settled_ids(req, after) =~= settled_ids(req, before).insert(id));
}

/// The count of settled cells depends on which cells are settled, and on
/// nothing else.
pub proof fn lemma_settled_same(req: &PlanningRequest, before: Progress, after: Progress)
    requires
        forall|p: Point| after.settled(p) <==> before.settled(p),
    ensures
        settled_count(req, after) == settled_count(req, before),
{
    assert(settled_ids(req, after) =~= settled_ids(req, before));
}

/// Where as many cells are settled as there are cells, every cell is
/// settled.
pub proof fn lemma_all_settled(req: &PlanningRequest, m: Progress, p: Point)
    requires
        req.map.in_bounds(p),
        settled_count(req, m) >= req.cells(),
    ensures
        m.settled(p),
{
    lemma_settled_bounded(req, m);
    lemma_int_range(0, req.cells());
    assert(settled_ids(req, m).subset_of(set_int_range(0, req.cells())));
    lemma_subset_equality(settled_ids(req, m), set_int_range(0, req.cells()));
    lemma_cell_id(req, p);
    assert(set_int_range(0, req.cells()).contains(cell_id(req, p)));
    assert(settled_ids(req, m).contains(cell_id(req, p)));
}

/// The search starts in a state of which the invariant holds.
pub proof fn lemma_start(req: &PlanningRequest)
    requires
        req.map.in_bounds(req.landing()),
    ensures
        inv(req, start(req)),
{
    let m = start(req);
    assert(node_ok(req, m, 0));
    assert forall|p: Point| req.map.in_bounds(p) implies #[trigger] cell_ok(req, m, p) by {}
    assert forall|u: Point, v: Point| #[trigger] relaxed(req, m, u, v) by {
        assert(!m.settled(u));
    }
}

/// The cells from the root to the node at `i`, where every node's parent
/// stands before it.
pub open spec fn lineage(nodes: Seq<Link>, i: int) -> Seq<Point>
    decreases i,
{
    if i <= 0 {
        seq![nodes[0].location]
    } else {
        match nodes[i].parent {
            Some(parent) => if 0 <= parent < i {
                lineage(nodes, parent).push(nodes[i].location)
            } else {
                seq![nodes[i].location]
            },
            None => seq![nodes[i].location],
        }
    }
}

/// The parent links of every node lead to the root within as many nodes as
/// the node's place, plus one, along a walk from the landing point whose
/// length is the node's cost.
pub proof fn lemma_lineage(req: &PlanningRequest, m: Progress, i: int, fuel: nat)
    requires
        base(req, m),
        0 <= i < m.nodes.len(),
        fuel > i,
    ensures
        trail(m.nodes, i, fuel) == Some(lineage(m.nodes, i)),
        joins(&req.map, req.limit(), lineage(m.nodes, i), req.landing(), m.nodes[i].location),
        walk_length(lineage(m.nodes, i)) == m.nodes[i].cost,
    decreases i,
{
    assert(node_ok(req, m, i));
    assert(node_ok(req, m, 0));
    match m.nodes[i].parent {
        None => {},
        Some(parent) => {
            lemma_lineage(req, m, parent, (fuel - 1) as nat);
            lemma_walk_push(&req.map, req.limit(), lineage(m.nodes, parent), m.nodes[i].location);
        },
    }
}

/// The parent links of every node lead to the root.
pub proof fn lemma_rooted(req: &PlanningRequest, m: Progress, i: int)
    requires
        base(req, m),
        0 <= i < m.nodes.len(),
    ensures
        rooted_trail(m.nodes, i) == Some(lineage(m.nodes, i)),
        joins(&req.map, req.limit(), lineage(m.nodes, i), req.landing(), m.nodes[i].location),
        walk_length(lineage(m.nodes, i)) == m.nodes[i].cost,
{
    lemma_lineage(req, m, i, m.nodes.len());
}

} // verus!
