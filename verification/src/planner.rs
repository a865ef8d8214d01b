//! The planner: routes from the landing point to every target.

use vstd::prelude::*;
use vstd::pervasive::unreached;
use crate::choice::{lemma_estimate_same, lemma_leader_unique};
use crate::cost::{open_cost, Length, Paces, Stride};
use crate::error::PlanError;
use crate::feasibility::is_traversable;
use crate::frontier::{entry_le, Entry, Frontier};
use crate::metadata::{algorithm_named, Algorithm};
use crate::node::{Node, NodeGraph};
use crate::point::Point;
use crate::request::PlanningRequest;
use crate::rounds::{
    lemma_outcome,
    lemma_relax,
    lemma_room_left,
    lemma_round,
    lemma_settle,
    lemma_settled_is_shortest,
    lemma_unsettled_is_unreachable,
};
use crate::route::Route;
use crate::search::{
    all_settled,
    child,
    chosen,
    estimate,
    exhausted,
    finished,
    goes_before,
    leads,
    nearest,
    outcome,
    relax,
    relax_all,
    round,
    run,
    settle,
    start,
    Mark,
    Progress,
};
use crate::soundness::{
    base,
    cell_ok,
    inv,
    lemma_rooted,
    lemma_settled_bounded,
    lemma_start,
    lineage,
    mid,
    node_ok,
    settled_count,
};
use crate::surd::Surd;
use crate::walk::{
    is_shortest,
    is_stepwise,
    joins,
    lemma_walk_is_stepwise,
    lemma_walk_to_itself,
    reachable,
    walk_length,
};

verus! {

/// What the planner's table holds for a cell.
#[derive(Clone, Copy)]
enum Slot {
    Unseen,
    Open(usize),
    Settled(usize),
}

impl View for Slot {
    type V = Mark;

    closed spec fn view(&self) -> Mark {
        match *self {
            Slot::Unseen => Mark::Unseen,
            Slot::Open(i) => Mark::Open(i as int),
            Slot::Settled(i) => Mark::Settled(i as int),
        }
    }
}

/// The planner's state: the node graph, a slot for every cell, row by row,
/// and the frontier. The frontier holds an entry for the node of every
/// open cell, and may hold entries for nodes that were replaced since or
/// whose cell is settled; those are passed over when they come up.
struct Search {
    graph: NodeGraph,
    slots: Vec<Vec<Slot>>,
    frontier: Frontier,
}

impl View for Search {
    type V = Progress;

    closed spec fn view(&self) -> Progress {
        Progress {
            nodes: self.graph@,
            marks: Map::new(
                |p: Point| p.y < self.slots@.len() && p.x < self.slots@[p.y as int]@.len(),
                |p: Point| self.slots@[p.y as int]@[p.x as int]@,
            ),
        }
    }
}

/// A row of the table in which no cell is seen.
fn blank_row(width: u32) -> (row: Vec<Slot>)
    ensures
        row@.len() == width,
        forall|x: int| 0 <= x < row@.len() ==> row@[x] == Slot::Unseen,
{
    let mut row: Vec<Slot> = Vec::new();
    let mut x: u32 = 0;
    while x < width
        invariant
            x <= width,
            row@.len() == x,
            forall|k: int| 0 <= k < row@.len() ==> row@[k] == Slot::Unseen,
        decreases width - x,
    {
        row.push(Slot::Unseen);
        x += 1;
    }
    row
}

/// The entry is for a node of the state, at the node's cell.
spec fn placed(req: &PlanningRequest, m: Progress, e: Entry) -> bool {
    &&& req.map.in_bounds(e.cell)
    &&& e.node < m.nodes.len()
    &&& m.nodes[e.node as int].location == e.cell
}

/// The entry's key is the cost of its node plus the strategy's estimate
/// for its cell.
spec fn keyed(req: &PlanningRequest, strategy: Algorithm, m: Progress, e: Entry) -> bool {
    e.key@ == m.nodes[e.node as int].cost.plus(estimate(req, strategy, m, e.cell))
}

/// The entry is for the node that the mark of an open cell names.
spec fn current(m: Progress, e: Entry) -> bool {
    m.mark(e.cell) == Mark::Open(e.node as int)
}

impl Search {
    /// The table has a slot for every cell of the grid.
    spec fn shaped(&self, req: &PlanningRequest) -> bool {
        &&& self.slots@.len() == req.map.height
        &&& forall|r: int|
            0 <= r < self.slots@.len() ==> (#[trigger] self.slots@[r])@.len() == req.map.width
    }

    /// The frontier is a heap of entries for nodes of the state, among them
    /// one for the node of every open cell.
    spec fn stocked(&self, req: &PlanningRequest) -> bool {
        &&& self.frontier.wf()
        &&& forall|e: Entry| #[trigger] self.frontier.has(e) ==> placed(req, self@, e)
        &&& forall|p: Point|
            #[trigger] self@.open(p) ==> exists|e: Entry|
                #[trigger] self.frontier.has(e) && e.cell == p && current(self@, e)
    }

    /// The keys of the frontier are the priorities of its entries.
    spec fn listed(&self, req: &PlanningRequest, strategy: Algorithm) -> bool {
        &&& self.stocked(req)
        &&& forall|e: Entry| #[trigger] self.frontier.has(e) ==> keyed(req, strategy, self@, e)
    }

    /// The state in which the search starts.
    fn begin(req: &PlanningRequest, strategy: Algorithm) -> (s: Search)
        requires
            req.sites_in_bounds(),
        ensures
            s.shaped(req),
            s.listed(req, strategy),
            s@ == start(req),
    {
        let mut slots: Vec<Vec<Slot>> = Vec::new();
        let mut y: u32 = 0;
        while y < req.map.height
            invariant
                y <= req.map.height,
                slots@.len() == y,
                forall|r: int| 0 <= r < slots@.len() ==> (#[trigger] slots@[r])@.len() == req.map.width,
                forall|r: int, x: int|
                    0 <= r < slots@.len() && 0 <= x < req.map.width ==> (#[trigger] slots@[r]@[x])
                        == Slot::Unseen,
            decreases req.map.height - y,
        {
            let row = blank_row(req.map.width);
            slots.push(row);
            y += 1;
        }
        let landing = req.map.landing_coords;
        let mut nodes: Vec<Node> = Vec::new();
        nodes.push(Node::generate_genesis(landing));
        let mut s = Search { graph: NodeGraph { nodes }, slots, frontier: Frontier::new() };
        assert(s.shaped(req));
        assert forall|p: Point| req.map.in_bounds(p) implies s@.marks[p] == Mark::Unseen by {
            assert(s.slots@[p.y as int]@[p.x as int] == Slot::Unseen);
        }
        s.set_slot(req, landing, Slot::Open(0));
        proof {
            assert(s@.nodes =~= start(req).nodes);
            assert(s@.marks =~= start(req).marks);
        }
        let key = s.estimate(req, strategy, landing);
        let first = Entry { key, cell: landing, node: 0 };
        s.frontier.push(first);
        proof {
            assert(s.frontier.has(first));
            assert forall|p: Point| #[trigger] s@.open(p) implies exists|e: Entry|
                #[trigger] s.frontier.has(e) && e.cell == p && current(s@, e) by {
                assert(p == landing);
                assert(s.frontier.has(first) && first.cell == p && current(s@, first));
            }
        }
        s
    }

    /// The slot of a cell.
    fn slot(&self, req: &PlanningRequest, p: Point) -> (slot: Slot)
        requires
            self.shaped(req),
            req.map.in_bounds(p),
        ensures
            slot@ == self@.mark(p),
    {
        self.slots[p.y as usize][p.x as usize]
    }

    /// Writes the slot of a cell.
    fn set_slot(&mut self, req: &PlanningRequest, p: Point, slot: Slot)
        requires
            old(self).shaped(req),
            req.map.in_bounds(p),
        ensures
            final(self).shaped(req),
            final(self)@.marks == old(self)@.marks.insert(p, slot@),
            final(self)@.nodes == old(self)@.nodes,
            final(self).graph == old(self).graph,
            final(self).frontier == old(self).frontier,
    {
        self.slots[p.y as usize][p.x as usize] = slot;
        assert(self@.marks =~= old(self)@.marks.insert(p, slot@));
    }

    /// What the strategy adds to a cell's cost to order the frontier.
    fn estimate(&self, req: &PlanningRequest, strategy: Algorithm, p: Point) -> (c: Paces)
        requires
            self.shaped(req),
            req.sites_in_bounds(),
        ensures
            c@ == estimate(req, strategy, self@, p),
            c.straight <= u32::MAX,
            c.diagonal <= u32::MAX,
    {
        match strategy {
            Algorithm::Dijkstra => Paces::zero(),
            Algorithm::AStar => {
                let mut least: Option<Paces> = None;
                let mut i: usize = 0;
                while i < req.map.target_sites.len()
                    invariant
                        i <= req.targets().len(),
                        self.shaped(req),
                        req.sites_in_bounds(),
                        match least {
                            Some(c) => nearest(self@, req.targets(), p, i as nat) == Some(c@)
                                && c.straight <= u32::MAX && c.diagonal <= u32::MAX,
                            None => nearest(self@, req.targets(), p, i as nat) is None,
                        },
                    decreases req.targets().len() - i,
                {
                    let target = req.map.target_sites[i];
                    match self.slot(req, target) {
                        Slot::Settled(_) => {},
                        _ => {
                            let d = open_cost(p, target);
                            least = match least {
                                None => Some(d),
                                Some(r) => if r.le(&d) {
                                    Some(r)
                                } else {
                                    Some(d)
                                },
                            };
                        },
                    }
                    i += 1;
                }
                match least {
                    Some(c) => c,
                    None => Paces::zero(),
                }
            },
        }
    }

    /// The entry for the node at `node`, with the priority of that node as
    /// its key.
    fn entry_for(&self, req: &PlanningRequest, strategy: Algorithm, node: usize) -> (e: Entry)
        requires
            self.shaped(req),
            req.sites_in_bounds(),
            base(req, self@),
            node < self@.nodes.len(),
        ensures
            e.node == node,
            placed(req, self@, e),
            keyed(req, strategy, self@, e),
    {
        proof {
            assert(node_ok(req, self@, node as int));
            lemma_settled_bounded(req, self@);
        }
        let made = &self.graph.nodes[node];
        let ahead = self.estimate(req, strategy, made.location);
        Entry { key: made.cost.paces.plus(&ahead), cell: made.location, node }
    }

    /// Whether the entry is for the node that the slot of an open cell
    /// names.
    fn is_current(&self, req: &PlanningRequest, e: &Entry) -> (b: bool)
        requires
            self.shaped(req),
            req.map.in_bounds(e.cell),
        ensures
            b == current(self@, *e),
    {
        match self.slot(req, e.cell) {
            Slot::Open(at) => at == e.node,
            _ => false,
        }
    }

    /// Whether the point is one of the targets.
    fn is_target(req: &PlanningRequest, p: Point) -> (b: bool)
        ensures
            b == req.targets().contains(p),
    {
        let mut i: usize = 0;
        while i < req.map.target_sites.len()
            invariant
                i <= req.targets().len(),
                forall|j: int| 0 <= j < i ==> req.targets()[j] != p,
            decreases req.targets().len() - i,
        {
            if req.map.target_sites[i] == p {
                return true;
            }
            i += 1;
        }
        false
    }

    /// Builds the frontier anew, with the keys that the strategy gives in
    /// this state, from the entries for the nodes of the open cells.
    fn rekey(&mut self, req: &PlanningRequest, strategy: Algorithm)
        requires
            old(self).shaped(req),
            old(self).stocked(req),
            req.sites_in_bounds(),
            base(req, old(self)@),
        ensures
            final(self).shaped(req),
            final(self).listed(req, strategy),
            final(self)@ == old(self)@,
    {
        let mut heap = Frontier::new();
        let mut i: usize = 0;
        while i < self.frontier.len()
            invariant
                i <= self.frontier.entries@.len(),
                self.shaped(req),
                self.stocked(req),
                req.sites_in_bounds(),
                base(req, self@),
                heap.wf(),
                forall|e: Entry|
                    #[trigger] heap.has(e) ==> placed(req, self@, e) && keyed(
                        req,
                        strategy,
                        self@,
                        e,
                    ),
                forall|k: int|
                    0 <= k < i && current(self@, #[trigger] self.frontier.entries@[k])
                        ==> exists|e: Entry|
                        #[trigger] heap.has(e) && e.cell == self.frontier.entries@[k].cell
                            && current(self@, e),
            decreases self.frontier.entries@.len() - i,
        {
            let held = self.frontier.entries[i];
            assert(self.frontier.has(held));
            if self.is_current(req, &held) {
                let e = self.entry_for(req, strategy, held.node);
                let ghost before = heap;
                heap.push(e);
                proof {
                    assert(heap.has(e));
                    assert forall|k: int|
                        0 <= k < i + 1 && current(
                            self@,
                            #[trigger] self.frontier.entries@[k],
                        ) implies exists|x: Entry|
                        #[trigger] heap.has(x) && x.cell == self.frontier.entries@[k].cell
                            && current(self@, x) by {
                        if k < i {
                            let x = choose|x: Entry|
                                #[trigger] before.has(x) && x.cell
                                    == self.frontier.entries@[k].cell && current(self@, x);
                            assert(heap.has(x));
                        }
                    }
                }
            }
            i += 1;
        }
        proof {
            assert forall|p: Point| #[trigger] self@.open(p) implies exists|e: Entry|
                #[trigger] heap.has(e) && e.cell == p && current(self@, e) by {
                let held = choose|e: Entry|
                    #[trigger] self.frontier.has(e) && e.cell == p && current(self@, e);
                let k = choose|k: int|
                    0 <= k < self.frontier.entries@.len() && self.frontier.entries@[k] == held;
                assert(current(self@, self.frontier.entries@[k]));
            }
        }
        self.frontier = heap;
    }

    /// Settles the open cell that goes before all others, if any cell is
    /// open, and hands it back.
    fn settle_next(&mut self, req: &PlanningRequest, strategy: Algorithm) -> (next: Option<Point>)
        requires
            old(self).shaped(req),
            old(self).listed(req, strategy),
            req.sites_in_bounds(),
            base(req, old(self)@),
        ensures
            final(self).shaped(req),
            match next {
                None => exhausted(old(self)@) && final(self)@ == old(self)@ && final(self).listed(
                    req,
                    strategy,
                ),
                Some(v) => {
                    &&& old(self)@.open(v)
                    &&& v == chosen(req, strategy, old(self)@)
                    &&& final(self)@ == settle(old(self)@, v)
                    &&& final(self).stocked_after(req, strategy, old(self)@)
                },
            },
    {
        loop
            invariant
                self.shaped(req),
                self.listed(req, strategy),
                req.sites_in_bounds(),
                self@ == old(self)@,
                base(req, self@),
            decreases self.frontier.entries@.len(),
        {
            let ghost before = self.frontier;
            let ghost state = self@;
            proof {
                assert forall|p: Point| #[trigger] state.open(p) implies exists|e: Entry|
                    #[trigger] before.has(e) && e.cell == p && current(state, e) by {
                    assert(self@.open(p));
                }
            }
            match self.frontier.pop() {
                None => {
                    proof {
                        assert forall|p: Point| !#[trigger] self@.open(p) by {
                            if self@.open(p) {
                                let e = choose|e: Entry|
                                    #[trigger] before.has(e) && e.cell == p && current(self@, e);
                            }
                        }
                    }
                    return None;
                },
                Some(least) => {
                    assert(before.has(least));
                    if self.is_current(req, &least) {
                        let v = least.cell;
                        proof {
                            assert(cell_ok(req, self@, v));
                            assert forall|y: Point|
                                self@.open(y) && y != v implies #[trigger] goes_before(
                                req,
                                strategy,
                                self@,
                                v,
                                y,
                            ) by {
                                let e = choose|e: Entry|
                                    #[trigger] before.has(e) && e.cell == y && current(self@, e);
                                assert(cell_ok(req, self@, y));
                                assert(entry_le(least, e));
                                assert(keyed(req, strategy, self@, e));
                                assert(keyed(req, strategy, self@, least));
                            }
                            assert(leads(req, strategy, self@, v));
                            lemma_leader_unique(
                                req,
                                strategy,
                                self@,
                                v,
                                chosen(req, strategy, self@),
                            );
                        }
                        let ghost popped = self.frontier;
                        self.set_slot(req, v, Slot::Settled(least.node));
                        proof {
                            assert(self@.marks =~= settle(state, v).marks);
                            assert(forall|p: Point| self@.open(p) <==> state.open(p) && p != v);
                            assert forall|p: Point| #[trigger] self@.open(p) implies exists|
                                e: Entry,
                            |
                                #[trigger] self.frontier.has(e) && e.cell == p && current(
                                    self@,
                                    e,
                                ) by {
                                assert(state.open(p));
                                let e = choose|e: Entry|
                                    #[trigger] before.has(e) && e.cell == p && current(state, e);
                                assert(popped.has(e));
                            }
                        }
                        return Some(v);
                    }
                    proof {
                        assert forall|p: Point| #[trigger] self@.open(p) implies exists|e: Entry|
                            #[trigger] self.frontier.has(e) && e.cell == p && current(
                                self@,
                                e,
                            ) by {
                            let e = choose|e: Entry|
                                #[trigger] before.has(e) && e.cell == p && current(self@, e);
                            assert(self.frontier.has(e));
                        }
                    }
                },
            }
        }
    }

    /// What is left of `listed` once a cell is settled: the frontier is
    /// stocked, and its keys are the priorities of its entries in the state
    /// before.
    spec fn stocked_after(
        &self,
        req: &PlanningRequest,
        strategy: Algorithm,
        before: Progress,
    ) -> bool {
        &&& self.stocked(req)
        &&& forall|e: Entry| #[trigger] self.frontier.has(e) ==> keyed(req, strategy, before, e)
    }

    /// Offers the neighbour `q` of the settled cell `v` a node reached
    /// through `v`.
    fn offer(
        &mut self,
        req: &PlanningRequest,
        strategy: Algorithm,
        v: Point,
        q: Point,
        Ghost(cells): Ghost<Seq<Point>>,
        Ghost(k): Ghost<int>,
    )
        requires
            req.map.wf(),
            req.sites_in_bounds(),
            old(self).shaped(req),
            old(self).listed(req, strategy),
            mid(req, old(self)@, v, cells, k),
            0 <= k < cells.len(),
            cells[k] == q,
            req.map.in_bounds(q),
            v.adjacent(q),
        ensures
            final(self).shaped(req),
            final(self).listed(req, strategy),
            final(self)@ == relax(req, old(self)@, v, q),
    {
        proof {
            lemma_relax(req, self@, v, cells, k);
            lemma_settled_bounded(req, self@);
            assert(cell_ok(req, self@, v));
            assert(cell_ok(req, self@, q));
        }
        let passable = match is_traversable(v, q, &req.map, req.metadata.elevation_delta) {
            Ok(b) => b,
            Err(_) => false,
        };
        if !passable {
            return ;
        }
        let at = match self.slot(req, v) {
            Slot::Settled(i) => i,
            _ => unreached(),
        };
        assert(node_ok(req, self@, at as int));
        let made = Node::new_node(&self.graph.nodes[at], at, q);
        proof {
            assert(self.graph.nodes@[at as int].cost@.counts(v, q));
            assert(made@.strides =~= Seq::<Stride>::empty());
            assert(made@ == child(self@, v, q));
        }
        let take = match self.slot(req, q) {
            Slot::Settled(_) => false,
            Slot::Unseen => true,
            Slot::Open(held) => made.cost.paces.lt(&self.graph.nodes[held].cost.paces),
        };
        if take {
            let place = self.graph.nodes.len();
            self.graph.nodes.push(made);
            self.set_slot(req, q, Slot::Open(place));
            proof {
                assert(self@.nodes =~= relax(req, old(self)@, v, q).nodes);
                assert(self@.marks =~= relax(req, old(self)@, v, q).marks);
            }
            let e = self.entry_for(req, strategy, place);
            let ghost before = self.frontier;
            self.frontier.push(e);
            proof {
                assert(self.frontier.has(e));
                assert(forall|p: Point| self@.open(p) <==> old(self)@.open(p) || p == q);
                assert forall|x: Entry| #[trigger] self.frontier.has(x) implies placed(
                    req,
                    self@,
                    x,
                ) && keyed(req, strategy, self@, x) by {
                    if before.has(x) {
                        assert(placed(req, old(self)@, x));
                        assert(keyed(req, strategy, old(self)@, x));
                        lemma_estimate_same(req, strategy, old(self)@, self@, x.cell);
                    }
                }
                assert forall|p: Point| #[trigger] self@.open(p) implies exists|x: Entry|
                    #[trigger] self.frontier.has(x) && x.cell == p && current(self@, x) by {
                    if p == q {
                        assert(self.frontier.has(e) && e.cell == p && current(self@, e));
                    } else {
                        let x = choose|x: Entry|
                            #[trigger] before.has(x) && x.cell == p && current(old(self)@, x);
                        assert(self.frontier.has(x));
                    }
                }
            }
        }
    }

    /// Whether every target is settled.
    fn targets_settled(&self, req: &PlanningRequest) -> (b: bool)
        requires
            self.shaped(req),
            req.sites_in_bounds(),
        ensures
            b == all_settled(req, self@),
    {
        let mut i: usize = 0;
        while i < req.map.target_sites.len()
            invariant
                i <= req.targets().len(),
                self.shaped(req),
                req.sites_in_bounds(),
                forall|j: int| 0 <= j < i ==> self@.settled(#[trigger] req.targets()[j]),
            decreases req.targets().len() - i,
        {
            match self.slot(req, req.map.target_sites[i]) {
                Slot::Settled(_) => {},
                _ => {
                    return false;
                },
            }
            i += 1;
        }
        true
    }

    /// One round: settles the cell that goes before the others and offers
    /// each of its neighbours a node. Nothing happens where no cell is
    /// open.
    fn advance(&mut self, req: &PlanningRequest, strategy: Algorithm) -> (moved: bool)
        requires
            req.map.wf(),
            req.sites_in_bounds(),
            old(self).shaped(req),
            old(self).listed(req, strategy),
            inv(req, old(self)@),
        ensures
            final(self).shaped(req),
            final(self).listed(req, strategy),
            moved == !exhausted(old(self)@),
            moved ==> final(self)@ == round(req, strategy, old(self)@),
            !moved ==> final(self)@ == old(self)@,
    {
        let v = match self.settle_next(req, strategy) {
            None => {
                return false;
            },
            Some(v) => v,
        };
        proof {
            lemma_settle(req, strategy, old(self)@);
        }
        // Once a target is settled, the estimates of `AStar` are taken to
        // the nearest of the targets that are left.
        let stale = match strategy {
            Algorithm::Dijkstra => false,
            Algorithm::AStar => Search::is_target(req, v),
        };
        if stale {
            self.rekey(req, strategy);
        } else {
            proof {
                assert forall|e: Entry| #[trigger] self.frontier.has(e) implies keyed(
                    req,
                    strategy,
                    self@,
                    e,
                ) by {
                    assert(keyed(req, strategy, old(self)@, e));
                    if strategy == Algorithm::AStar {
                        assert forall|i: int| 0 <= i < req.targets().len() implies old(
                            self,
                        )@.settled(req.targets()[i]) == self@.settled(req.targets()[i]) by {
                            if req.targets()[i] == v {
                                assert(req.targets().contains(v));
                            }
                        }
                    }
                    lemma_estimate_same(req, strategy, old(self)@, self@, e.cell);
                }
            }
        }
        let cells = req.map.neighbors(v);
        let ghost settled = self@;
        let mut k: usize = 0;
        while k < cells.len()
            invariant
                k <= cells@.len(),
                req.map.wf(),
                req.sites_in_bounds(),
                self.shaped(req),
                self.listed(req, strategy),
                cells@ == req.map.neighbor_points(v),
                forall|i: int|
                    0 <= i < cells@.len() ==> req.map.in_bounds(#[trigger] cells@[i]) && v.adjacent(
                        cells@[i],
                    ),
                mid(req, self@, v, cells@, k as int),
                self@ == relax_all(req, settled, v, cells@, k as nat),
            decreases cells@.len() - k,
        {
            proof {
                lemma_relax(req, self@, v, cells@, k as int);
            }
            self.offer(req, strategy, v, cells[k], Ghost(cells@), Ghost(k as int));
            k += 1;
        }
        true
    }

    /// The whole search.
    fn explore(req: &PlanningRequest, strategy: Algorithm) -> (s: Search)
        requires
            req.map.wf(),
            req.sites_in_bounds(),
        ensures
            s.shaped(req),
            s@ == outcome(req, strategy),
    {
        let mut s = Search::begin(req, strategy);
        let ghost mut left: nat = req.cells() as nat;
        proof {
            lemma_start(req);
            lemma_settled_bounded(req, s@);
        }
        loop
            invariant
                req.map.wf(),
                req.sites_in_bounds(),
                s.shaped(req),
                s.listed(req, strategy),
                inv(req, s@),
                settled_count(req, s@) + left >= req.cells(),
                run(req, strategy, s@, left) == outcome(req, strategy),
            ensures
                s.shaped(req),
                s@ == outcome(req, strategy),
            decreases left,
        {
            if s.targets_settled(req) {
                break ;
            }
            proof {
                if !exhausted(s@) {
                    lemma_room_left(req, s@);
                    lemma_round(req, strategy, s@);
                }
            }
            if !s.advance(req, strategy) {
                break ;
            }
            proof {
                left = (left - 1) as nat;
            }
        }
        s
    }
}

/// What the planner answers for one target: the cells along the parent
/// links of the target's node in the state in which the search ends, with
/// the node's cost, where the target is settled in that state, and
/// `Unreachable` where it is not.
pub open spec fn planned(req: &PlanningRequest, strategy: Algorithm, target: Point) -> Result<
    (Seq<Point>, Surd),
    PlanError,
> {
    let end = outcome(req, strategy);
    if end.settled(target) {
        Ok((lineage(end.nodes, end.node_at(target)), end.cost_at(target)))
    } else {
        Err(PlanError::Unreachable)
    }
}

/// `answer` is what the planner answers for `target`.
pub open spec fn is_answer(
    req: &PlanningRequest,
    strategy: Algorithm,
    target: Point,
    answer: Result<Route, PlanError>,
) -> bool {
    match planned(req, strategy, target) {
        Ok(route) => answer is Ok && answer->Ok_0.points@ == route.0 && answer->Ok_0.cost@ == (
        Length { paces: route.1, strides: Seq::empty() }),
        Err(e) => answer is Err && answer->Err_0 == e,
    }
}

/// `result` is what the planner returns for the request: `OutOfBounds`
/// where the landing point or a target is no cell of the grid; else
/// `UnsupportedAlgorithm` where the algorithm's name is not a known one;
/// else one answer for each target, in the order of the targets.
pub open spec fn is_plan(
    req: &PlanningRequest,
    result: Result<Vec<Result<Route, PlanError>>, PlanError>,
) -> bool {
    if !req.sites_in_bounds() {
        result is Err && result->Err_0 == PlanError::OutOfBounds
    } else {
        match algorithm_named(req.metadata.algorithm@) {
            None => result is Err && result->Err_0 == PlanError::UnsupportedAlgorithm,
            Some(strategy) => {
                &&& result is Ok
                &&& result->Ok_0@.len() == req.targets().len()
                &&& forall|i: int|
                    0 <= i < req.targets().len() ==> is_answer(
                        req,
                        strategy,
                        req.targets()[i],
                        #[trigger] result->Ok_0@[i],
                    )
            },
        }
    }
}

/// The answer is right for the target. A route is a walk from the landing
/// point to the target, by single steps that the rover can take; its cost
/// is the sum of the lengths of its steps; and no walk between the two is
/// shorter. The only error is `Unreachable`, and it comes where no walk
/// leads from the landing point to the target.
pub open spec fn is_right(
    req: &PlanningRequest,
    target: Point,
    answer: Result<Route, PlanError>,
) -> bool {
    match answer {
        Ok(route) => {
            &&& joins(&req.map, req.limit(), route.points@, req.landing(), target)
            &&& is_stepwise(route.points@)
            &&& route.cost@ == (Length {
                paces: walk_length(route.points@),
                strides: Seq::empty(),
            })
            &&& is_shortest(&req.map, req.limit(), route.points@)
        },
        Err(e) => e == PlanError::Unreachable && !reachable(
            &req.map,
            req.limit(),
            req.landing(),
            target,
        ),
    }
}

/// Where a target is the landing point, the right answer is the route that
/// holds the landing point alone, at no cost.
pub proof fn lemma_target_at_landing(req: &PlanningRequest, answer: Result<Route, PlanError>)
    requires
        req.map.in_bounds(req.landing()),
        is_right(req, req.landing(), answer),
    ensures
        answer is Ok,
        answer->Ok_0.points@ == seq![req.landing()],
        answer->Ok_0.cost@ == Length::zero(),
{
    let alone = seq![req.landing()];
    assert(joins(&req.map, req.limit(), alone, req.landing(), req.landing()));
    if answer is Ok {
        lemma_walk_to_itself(&req.map, req.limit(), answer->Ok_0.points@, req.landing());
    }
}

/// The two answers are the same: the same error, or routes along the same
/// cells at the same cost.
pub open spec fn same_answer(
    first: Result<Route, PlanError>,
    second: Result<Route, PlanError>,
) -> bool {
    match (first, second) {
        (Ok(a), Ok(b)) => a.points@ == b.points@ && a.cost@ == b.cost@,
        (Err(a), Err(b)) => a == b,
        _ => false,
    }
}

/// The two results are the same: the same error, or the same answers in
/// the same order.
pub open spec fn same_plan(
    first: Result<Vec<Result<Route, PlanError>>, PlanError>,
    second: Result<Vec<Result<Route, PlanError>>, PlanError>,
) -> bool {
    match (first, second) {
        (Ok(a), Ok(b)) => a@.len() == b@.len() && forall|i: int|
            0 <= i < a@.len() ==> same_answer(#[trigger] a@[i], b@[i]),
        (Err(a), Err(b)) => a == b,
        _ => false,
    }
}

/// Planning is a function of the request: whatever the planner returns
/// for a request, it returns the same routes at the same costs, and the
/// same errors, every time.
pub proof fn lemma_plan_is_determined(
    req: &PlanningRequest,
    first: Result<Vec<Result<Route, PlanError>>, PlanError>,
    second: Result<Vec<Result<Route, PlanError>>, PlanError>,
)
    requires
        is_plan(req, first),
        is_plan(req, second),
    ensures
        same_plan(first, second),
{
    if first is Ok {
        let a = first->Ok_0;
        let b = second->Ok_0;
        let strategy = algorithm_named(req.metadata.algorithm@)->0;
        assert forall|i: int| 0 <= i < a@.len() implies same_answer(#[trigger] a@[i], b@[i]) by {
            assert(is_answer(req, strategy, req.targets()[i], a@[i]));
            assert(is_answer(req, strategy, req.targets()[i], b@[i]));
        }
    }
}

/// Whether the landing point and every target are cells of the grid.
fn sites_on_grid(req: &PlanningRequest) -> (b: bool)
    ensures
        b == req.sites_in_bounds(),
{
    if !req.map.contains(req.map.landing_coords) {
        return false;
    }
    let mut i: usize = 0;
    while i < req.map.target_sites.len()
        invariant
            i <= req.targets().len(),
            forall|j: int| 0 <= j < i ==> req.map.in_bounds(#[trigger] req.targets()[j]),
        decreases req.targets().len() - i,
    {
        if !req.map.contains(req.map.target_sites[i]) {
            return false;
        }
        i += 1;
    }
    true
}

/// Plans a route from the landing point to each target.
///
/// Fails as a whole, before any search, with `OutOfBounds` where the
/// landing point or a target is no cell of the grid, and else with
/// `UnsupportedAlgorithm` where the algorithm's name is not a known one.
/// Otherwise there is one answer for each target, in the order of the
/// targets. For a target that some walk reaches from the landing point,
/// the answer is a route: a walk from the landing point to the target,
/// with its length as cost, than which no walk between the two is shorter.
/// For any other target the answer is `Unreachable`.
///
/// Where several routes to a target are shortest, the answer is the one
/// that the search of `search` comes to: cells leave the frontier by
/// priority, among cells of equal priority by `x`, then by `y`, and a cell
/// keeps the first of the nodes of least cost that it is offered. So the
/// same request has the same answers every time.
pub fn plan(request: &PlanningRequest) -> (result: Result<Vec<Result<Route, PlanError>>, PlanError>)
    requires
        request.map.wf(),
    ensures
        is_plan(request, result),
        result is Ok ==> forall|i: int|
            0 <= i < request.targets().len() ==> is_right(
                request,
                request.targets()[i],
                #[trigger] result->Ok_0@[i],
            ),
{
    if !sites_on_grid(request) {
        return Err(PlanError::OutOfBounds);
    }
    let strategy = match request.metadata.strategy() {
        Ok(strategy) => strategy,
        Err(e) => {
            return Err(e);
        },
    };
    let search = Search::explore(request, strategy);
    proof {
        lemma_outcome(request, strategy);
    }
    let mut answers: Vec<Result<Route, PlanError>> = Vec::new();
    let mut i: usize = 0;
    while i < request.map.target_sites.len()
        invariant
            i <= request.targets().len(),
            request.sites_in_bounds(),
            search.shaped(request),
            search@ == outcome(request, strategy),
            inv(request, search@),
            finished(request, search@),
            answers@.len() == i,
            forall|j: int|
                0 <= j < i ==> is_answer(request, strategy, request.targets()[j], #[trigger] answers@[j]),
            forall|j: int|
                0 <= j < i ==> is_right(request, request.targets()[j], #[trigger] answers@[j]),
        decreases request.targets().len() - i,
    {
        let target = request.map.target_sites[i];
        let answer = match search.slot(request, target) {
            Slot::Settled(at) => {
                proof {
                    lemma_settled_is_shortest(request, search@, target);
                    lemma_rooted(request, search@, at as int);
                    lemma_walk_is_stepwise(
                        &request.map,
                        request.limit(),
                        lineage(search@.nodes, at as int),
                    );
                }
                let found = search.graph.reconstruct(at);
                proof {
                    assert(node_ok(request, search@, at as int));
                    assert(search.graph.nodes@[at as int].cost@.strides =~= Seq::<Stride>::empty());
                }
                found
            },
            _ => {
                proof {
                    lemma_unsettled_is_unreachable(request, search@, target);
                }
                Err(PlanError::Unreachable)
            },
        };
        answers.push(answer);
        i += 1;
    }
    Ok(answers)
}

} // verus!
