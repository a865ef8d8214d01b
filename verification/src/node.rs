//! The node graph: the cells that a search has reached, each with the node
//! it was reached from.

use vstd::prelude::*;
use crate::cost::{open_distance, Cost, Length, Stride};
use crate::error::PlanError;
use crate::point::Point;
use crate::route::Route;
use crate::surd::Surd;
use crate::walk::{
    is_stepwise,
    lemma_path_of_steps,
    lemma_walk_at_least_open_distance,
    path_length,
};

verus! {

/// A cell reached by a search: where it is, from which node of the graph it
/// was reached, and what it costs to get there from the root. A node is
/// never changed once it is made.
#[derive(Clone, Debug, PartialEq, Eq)]
pub struct Node {
    /// The cell this node stands for.
    pub location: Point,
    /// The place in the graph of the node this one was reached from; `None`
    /// for a root.
    pub parent: Option<usize>,
    /// The cost of the moves from the root to this node.
    pub cost: Cost,
}

/// A node as the contracts speak of it: the parent's place as a number,
/// and of the cost the exact length of its single steps and its longer
/// moves.
pub struct Link {
    pub location: Point,
    pub parent: Option<int>,
    pub cost: Surd,
    pub strides: Seq<Stride>,
}

impl View for Node {
    type V = Link;

    open spec fn view(&self) -> Link {
        Link {
            location: self.location,
            parent: match self.parent {
                Some(parent) => Some(parent as int),
                None => None,
            },
            cost: self.cost.paces@,
            strides: self.cost.strides@,
        }
    }
}

impl Node {
    /// The root of a search: a node without a parent, at no cost.
    pub fn generate_genesis(location: Point) -> (node: Node)
        ensures
            node.location == location,
            node.parent is None,
            node.cost@ == Length::zero(),
    {
        Node { location, parent: None, cost: Cost::zero() }
    }

    /// The node for `location`, reached in one move from `parent`, which
    /// stands at `parent_index` in the graph. Its cost is the parent's plus
    /// the Euclidean distance from the parent's cell to `location`,
    /// whatever the two cells: a single step is counted, a longer move is
    /// kept as a stride. The parent stays as it is.
    pub fn new_node(parent: &Node, parent_index: usize, location: Point) -> (node: Node)
        ensures
            node.location == location,
            node.parent == Some(parent_index),
            node.cost@ == parent.cost@.after(parent.location, location),
    {
        Node {
            location,
            parent: Some(parent_index),
            cost: parent.cost.after(parent.location, location),
        }
    }

    /// The coordinates of the node's cell as `[x, y]`.
    pub fn get_coords(&self) -> (c: [u32; 2])
        ensures
            c@ == seq![self.location.x, self.location.y],
    {
        self.location.get_coords()
    }

    /// The cost of the moves from the root to this node.
    pub fn get_cost(&self) -> (c: Cost)
        ensures
            c@ == self.cost@,
    {
        self.cost.copy()
    }
}

/// The nodes are a chain: the first is at no cost, and each of the others
/// is made from the one before it by `new_node`.
pub open spec fn is_chain(chain: Seq<Node>) -> bool {
    &&& chain.len() > 0
    &&& chain[0].cost@ == Length::zero()
    &&& forall|i: int|
        1 <= i < chain.len() ==> (#[trigger] chain[i]).cost@ == chain[i - 1].cost@.after(
            chain[i - 1].location,
            chain[i].location,
        )
}

/// The cells of the nodes, in their order.
pub open spec fn places(chain: Seq<Node>) -> Seq<Point> {
    Seq::new(chain.len(), |i: int| chain[i].location)
}

/// The cost of the last node of a chain is the cost of the way along the
/// cells of the chain: the sum of the Euclidean distances between
/// consecutive cells.
pub proof fn lemma_chain_cost(chain: Seq<Node>)
    requires
        is_chain(chain),
    ensures
        chain.last().cost@ == path_length(places(chain)),
    decreases chain.len(),
{
    if chain.len() > 1 {
        let shorter = chain.drop_last();
        assert forall|i: int| 1 <= i < shorter.len() implies (#[trigger] shorter[i]).cost@
            == shorter[i - 1].cost@.after(shorter[i - 1].location, shorter[i].location) by {
            assert(chain[i].cost@ == chain[i - 1].cost@.after(
                chain[i - 1].location,
                chain[i].location,
            ));
        }
        lemma_chain_cost(shorter);
        assert(places(chain).drop_last() =~= places(shorter));
        assert(chain[chain.len() - 1].cost@ == chain[chain.len() - 2].cost@.after(
            chain[chain.len() - 2].location,
            chain[chain.len() - 1].location,
        ));
    }
}

/// A chain of single steps costs at least the distance over open ground
/// between its ends, however long the chain: no way between the two cells
/// costs less.
pub proof fn lemma_chain_at_least_open_distance(chain: Seq<Node>)
    requires
        is_chain(chain),
        is_stepwise(places(chain)),
        chain.len() <= u64::MAX,
    ensures
        chain.last().cost@.strides.len() == 0,
        open_distance(chain[0].location, chain.last().location).le(chain.last().cost@.paces),
{
    lemma_chain_cost(chain);
    lemma_path_of_steps(places(chain));
    lemma_walk_at_least_open_distance(places(chain));
}

/// The cells from a root to the node at `index`, found by following parent
/// links for at most `fuel` nodes; `None` where the links leave the graph
/// or do not end at a root within that many nodes.
pub open spec fn trail(nodes: Seq<Link>, index: int, fuel: nat) -> Option<Seq<Point>>
    decreases fuel,
{
    if fuel == 0 || !(0 <= index < nodes.len()) {
        None
    } else {
        match nodes[index].parent {
            None => Some(seq![nodes[index].location]),
            Some(parent) => match trail(nodes, parent, (fuel - 1) as nat) {
                Some(cells) => Some(cells.push(nodes[index].location)),
                None => None,
            },
        }
    }
}

/// The cells from a root to the node at `index`. A chain of parent links
/// that ends at a root passes no node twice, so it has at most as many
/// nodes as the graph.
pub open spec fn rooted_trail(nodes: Seq<Link>, index: int) -> Option<Seq<Point>> {
    trail(nodes, index, nodes.len())
}

/// All the nodes of one search, each named by its place in `nodes`.
#[derive(Clone, Debug, PartialEq, Eq)]
pub struct NodeGraph {
    pub nodes: Vec<Node>,
}

impl View for NodeGraph {
    type V = Seq<Link>;

    open spec fn view(&self) -> Seq<Link> {
        Seq::new(self.nodes@.len(), |i: int| self.nodes@[i]@)
    }
}

impl NodeGraph {
    /// The route that ends at the node at `index`: the cells along its
    /// parent links, from the root on, and the node's cost. `DetachedNode`
    /// where there is no such node, or where its parent links lead to no
    /// root.
    pub fn reconstruct(&self, index: usize) -> (r: Result<Route, PlanError>)
        ensures
            match rooted_trail(self@, index as int) {
                Some(cells) => r is Ok && r->Ok_0.points@ == cells && r->Ok_0.cost@
                    == self.nodes@[index as int].cost@,
                None => r is Err && r->Err_0 == PlanError::DetachedNode,
            },
    {
        if index >= self.nodes.len() {
            return Err(PlanError::DetachedNode);
        }
        let mut backwards: Vec<Point> = Vec::new();
        let mut current: usize = index;
        let mut fuel: usize = self.nodes.len();
        loop
            invariant_except_break
                rooted_trail(self@, index as int) == match trail(
                    self@,
                    current as int,
                    fuel as nat,
                ) {
                    Some(cells) => Some(cells + backwards@.reverse()),
                    None => None,
                },
            invariant
                current < self.nodes@.len(),
                1 <= fuel <= self.nodes@.len(),
            ensures
                rooted_trail(self@, index as int) == Some(backwards@.reverse()),
            decreases fuel,
        {
            let node = &self.nodes[current];
            let ghost before = backwards@;
            backwards.push(node.location);
            assert(backwards@.reverse() =~= seq![node.location] + before.reverse());
            match node.parent {
                None => {
                    assert(seq![node.location] + before.reverse() =~= backwards@.reverse());
                    break;
                },
                Some(parent) => {
                    if fuel == 1 || parent >= self.nodes.len() {
                        return Err(PlanError::DetachedNode);
                    }
                    proof {
                        match trail(self@, parent as int, (fuel - 1) as nat) {
                            Some(cells) => {
                                assert(cells.push(node.location) + before.reverse() =~= cells
                                    + backwards@.reverse());
                            },
                            None => {},
                        }
                    }
                    current = parent;
                    fuel = fuel - 1;
                },
            }
        }
        let mut points: Vec<Point> = Vec::new();
        let mut k: usize = backwards.len();
        while k > 0
            invariant
                k <= backwards@.len(),
                points@ == backwards@.reverse().subrange(0, backwards@.len() - k),
            decreases k,
        {
            k = k - 1;
            points.push(backwards[k]);
            assert(points@ =~= backwards@.reverse().subrange(0, backwards@.len() - k));
        }
        assert(points@ =~= backwards@.reverse());
        Ok(Route { points, cost: self.nodes[index].cost.copy() })
    }
}

} // verus!
