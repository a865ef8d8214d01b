//! The search as a sequence of states.
//!
//! A state holds the nodes made so far and a mark for every cell of the
//! grid. The open cells are the frontier. One round takes the open cell
//! that goes before all others, settles it, and offers each of its
//! neighbours a node reached through it. The planner computes exactly these
//! states; what holds of every state that can arise is proved in
//! `soundness`, `choice` and `rounds`.

use vstd::prelude::*;
use crate::cost::{open_distance, step_length};
use crate::metadata::Algorithm;
use crate::node::Link;
use crate::point::Point;
use crate::request::PlanningRequest;
use crate::surd::Surd;

verus! {

/// What the search knows of a cell.
pub enum Mark {
    /// Not reached yet.
    Unseen,
    /// On the frontier; the best node made for the cell so far is at this
    /// place in the graph.
    Open(int),
    /// Taken from the frontier; the node at this place in the graph is the
    /// cell's last.
    Settled(int),
}

/// A state of the search.
pub struct Progress {
    /// The nodes made so far.
    pub nodes: Seq<Link>,
    /// The mark of each cell of the grid.
    pub marks: Map<Point, Mark>,
}

impl Progress {
    pub open spec fn mark(self, p: Point) -> Mark {
        if self.marks.dom().contains(p) {
            self.marks[p]
        } else {
            Mark::Unseen
        }
    }

    /// The cell is on the frontier.
    pub open spec fn open(self, p: Point) -> bool {
        self.mark(p) is Open
    }

    pub open spec fn settled(self, p: Point) -> bool {
        self.mark(p) is Settled
    }

    /// The place in the graph of the node that the cell's mark names.
    pub open spec fn node_at(self, p: Point) -> int {
        match self.mark(p) {
            Mark::Open(i) => i,
            Mark::Settled(i) => i,
            Mark::Unseen => 0,
        }
    }

    /// The cost of the node that the cell's mark names.
    pub open spec fn cost_at(self, p: Point) -> Surd {
        self.nodes[self.node_at(p)].cost
    }
}

/// The least distance over open ground from `p` to one of the first `n`
/// targets that is not settled, if there is one.
pub open spec fn nearest(m: Progress, targets: Seq<Point>, p: Point, n: nat) -> Option<Surd>
    decreases n,
{
    if n == 0 {
        None
    } else {
        let rest = nearest(m, targets, p, (n - 1) as nat);
        let target = targets[n - 1];
        if m.settled(target) {
            rest
        } else {
            let d = open_distance(p, target);
            match rest {
                None => Some(d),
                Some(r) => if r.le(d) {
                    Some(r)
                } else {
                    Some(d)
                },
            }
        }
    }
}

/// What a strategy adds to the cost of a cell's node to order the
/// frontier: nothing for `Dijkstra`; for `AStar` the distance over open
/// ground to the nearest target that is not settled.
pub open spec fn estimate(
    req: &PlanningRequest,
    strategy: Algorithm,
    m: Progress,
    p: Point,
) -> Surd {
    match strategy {
        Algorithm::Dijkstra => Surd::zero(),
        Algorithm::AStar => match nearest(m, req.targets(), p, req.targets().len()) {
            Some(d) => d,
            None => Surd::zero(),
        },
    }
}

/// The number by which the frontier is ordered.
pub open spec fn priority(
    req: &PlanningRequest,
    strategy: Algorithm,
    m: Progress,
    p: Point,
) -> Surd {
    m.cost_at(p).plus(estimate(req, strategy, m, p))
}

/// `p` leaves the frontier before `q`: its priority is less, or the
/// priorities are equal and `p` comes first by `x`, then by `y`.
pub open spec fn goes_before(
    req: &PlanningRequest,
    strategy: Algorithm,
    m: Progress,
    p: Point,
    q: Point,
) -> bool {
    let a = priority(req, strategy, m, p);
    let b = priority(req, strategy, m, q);
    a.lt(b) || (a == b && p.lex_lt(q))
}

/// `v` is the open cell that goes before every other open cell.
pub open spec fn leads(req: &PlanningRequest, strategy: Algorithm, m: Progress, v: Point) -> bool {
    &&& m.open(v)
    &&& forall|y: Point| m.open(y) && y != v ==> #[trigger] goes_before(req, strategy, m, v, y)
}

/// The cell that is settled next.
pub open spec fn chosen(req: &PlanningRequest, strategy: Algorithm, m: Progress) -> Point {
    choose|v: Point| leads(req, strategy, m, v)
}

/// The state after the open cell `v` is settled.
pub open spec fn settle(m: Progress, v: Point) -> Progress {
    Progress { nodes: m.nodes, marks: m.marks.insert(v, Mark::Settled(m.node_at(v))) }
}

/// The node for `q` reached in one move from the node of `v`.
pub open spec fn child(m: Progress, v: Point, q: Point) -> Link {
    Link {
        location: q,
        parent: Some(m.node_at(v)),
        cost: m.cost_at(v).plus(step_length(v, q)),
        strides: Seq::empty(),
    }
}

/// The state after the settled cell `v` has offered its neighbour `q` a
/// node. The offer is taken where the step is within the rover's limit and
/// `q` is unseen, or open with a best node that costs more. The nodes made
/// before stay as they are.
pub open spec fn relax(req: &PlanningRequest, m: Progress, v: Point, q: Point) -> Progress {
    let offer = child(m, v, q);
    let taken = Progress {
        nodes: m.nodes.push(offer),
        marks: m.marks.insert(q, Mark::Open(m.nodes.len() as int)),
    };
    if !req.map.passable(v, q, req.limit()) {
        m
    } else {
        match m.mark(q) {
            Mark::Settled(_) => m,
            Mark::Unseen => taken,
            Mark::Open(held) => if offer.cost.lt(m.nodes[held].cost) {
                taken
            } else {
                m
            },
        }
    }
}

/// The state after `v` has made its offer to the first `k` of `cells`.
pub open spec fn relax_all(
    req: &PlanningRequest,
    m: Progress,
    v: Point,
    cells: Seq<Point>,
    k: nat,
) -> Progress
    decreases k,
{
    if k == 0 {
        m
    } else {
        relax(req, relax_all(req, m, v, cells, (k - 1) as nat), v, cells[k - 1])
    }
}

/// The state after one round.
pub open spec fn round(req: &PlanningRequest, strategy: Algorithm, m: Progress) -> Progress {
    let v = chosen(req, strategy, m);
    let cells = req.map.neighbor_points(v);
    relax_all(req, settle(m, v), v, cells, cells.len())
}

/// Every target is settled.
pub open spec fn all_settled(req: &PlanningRequest, m: Progress) -> bool {
    forall|i: int| 0 <= i < req.targets().len() ==> m.settled(#[trigger] req.targets()[i])
}

/// The frontier is empty.
pub open spec fn exhausted(m: Progress) -> bool {
    forall|p: Point| !#[trigger] m.open(p)
}

/// The search ends when every target is settled or the frontier is empty.
pub open spec fn finished(req: &PlanningRequest, m: Progress) -> bool {
    exhausted(m) || all_settled(req, m)
}

/// The state in which the search ends, if it is given at most `rounds`
/// rounds.
pub open spec fn run(
    req: &PlanningRequest,
    strategy: Algorithm,
    m: Progress,
    rounds: nat,
) -> Progress
    decreases rounds,
{
    if rounds == 0 || finished(req, m) {
        m
    } else {
        run(req, strategy, round(req, strategy, m), (rounds - 1) as nat)
    }
}

/// The state in which the search starts: the landing point is open, with
/// a root node, and nothing else is seen.
pub open spec fn start(req: &PlanningRequest) -> Progress {
    Progress {
        nodes: seq![
            Link {
                location: req.landing(),
                parent: None,
                cost: Surd::zero(),
                strides: Seq::empty(),
            },
        ],
        marks: Map::new(
            |p: Point| req.map.in_bounds(p),
            |p: Point|
                if p == req.landing() {
                    Mark::Open(0)
                } else {
                    Mark::Unseen
                },
        ),
    }
}

/// The state in which the search ends. A round settles one cell, so there
/// are at most as many rounds as cells.
pub open spec fn outcome(req: &PlanningRequest, strategy: Algorithm) -> Progress {
    run(req, strategy, start(req), req.cells() as nat)
}

} // verus!
