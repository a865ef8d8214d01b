use rover_planner::cost::{Cost, Paces, Stride};
use rover_planner::error::PlanError;
use rover_planner::metadata::{Algorithm, RoverMetadata};
use rover_planner::node::{Node, NodeGraph};
use rover_planner::point::Point;
use rover_planner::route::{path_cost, Route};

fn at(x: u32, y: u32) -> Point {
    Point::new_point(x, y)
}

fn cost(straight: u64, diagonal: u64) -> Cost {
    Cost { paces: Paces { straight, diagonal }, strides: Vec::new() }
}

fn as_float(cost: &Cost) -> f64 {
    let strides: f64 = cost
        .strides
        .iter()
        .map(|s| ((s.dx as f64).powi(2) + (s.dy as f64).powi(2)).sqrt())
        .sum();
    cost.paces.straight as f64 + cost.paces.diagonal as f64 * 2f64.sqrt() + strides
}

fn distance(a: Point, b: Point) -> f64 {
    let dx = a.x as f64 - b.x as f64;
    let dy = a.y as f64 - b.y as f64;
    (dx * dx + dy * dy).sqrt()
}

#[test]
fn genesis_is_a_root_at_no_cost() {
    let root = Node::generate_genesis(at(4, 2));
    assert_eq!(root.location, at(4, 2));
    assert_eq!(root.parent, None);
    assert_eq!(root.get_cost(), cost(0, 0));
    assert_eq!(as_float(&root.get_cost()), 0.0);
    assert_eq!(root.get_coords(), [4, 2]);
}

#[test]
fn new_node_adds_the_step_to_the_parent_cost() {
    let root = Node::generate_genesis(at(4, 2));
    let first = Node::new_node(&root, 0, at(5, 3));
    assert_eq!(first.location, at(5, 3));
    assert_eq!(first.parent, Some(0));
    assert_eq!(first.get_cost(), cost(0, 1));
    let second = Node::new_node(&first, 7, at(5, 4));
    assert_eq!(second.parent, Some(7));
    assert_eq!(second.get_cost(), cost(1, 1));
    assert_eq!(second.get_coords(), [5, 4]);
    let third = Node::new_node(&second, 8, at(4, 3));
    assert_eq!(third.get_cost(), cost(1, 2));
    let same = Node::new_node(&third, 9, at(4, 3));
    assert_eq!(same.get_cost(), cost(1, 2));
}

#[test]
fn new_node_does_not_change_the_parent() {
    let root = Node::generate_genesis(at(1, 1));
    let parent = Node::new_node(&root, 0, at(9, 5));
    let before = parent.clone();
    let child = Node::new_node(&parent, 1, at(2, 1));
    assert_eq!(parent, before);
    assert_eq!(child.parent, Some(1));
    assert_eq!(child.get_coords(), [2, 1]);
}

#[test]
fn three_four_five() {
    let root = Node::generate_genesis(at(0, 0));
    let node = Node::new_node(&root, 0, at(3, 4));
    assert_eq!(node.get_coords(), [3, 4]);
    assert_eq!(
        node.get_cost(),
        Cost { paces: Paces { straight: 0, diagonal: 0 }, strides: vec![Stride { dx: 3, dy: 4 }] }
    );
    assert_eq!(as_float(&node.get_cost()), 5.0);
}

#[test]
fn five_four_three_towards_smaller_coordinates() {
    let root = Node::generate_genesis(at(3, 4));
    let node = Node::new_node(&root, 0, at(0, 0));
    assert_eq!(node.get_coords(), [0, 0]);
    assert_eq!(as_float(&node.get_cost()), 5.0);
    let far = Node::new_node(&Node::generate_genesis(at(u32::MAX, u32::MAX)), 0, at(0, 0));
    assert_eq!(far.get_cost().strides, vec![Stride { dx: u32::MAX, dy: u32::MAX }]);
}

#[test]
fn new_node_costs_the_euclidean_distance_for_any_location() {
    let spots = [at(0, 0), at(1, 0), at(1, 1), at(2, 5), at(7, 7), at(3, 4), at(40, 9), at(6, 8)];
    for a in spots {
        for b in spots {
            let parent = Node::new_node(&Node::generate_genesis(at(5, 5)), 0, a);
            let child = Node::new_node(&parent, 1, b);
            let expected = as_float(&parent.get_cost()) + distance(a, b);
            assert!((as_float(&child.get_cost()) - expected).abs() < 1e-9);
            assert!(as_float(&child.get_cost()) >= as_float(&parent.get_cost()));
            assert_eq!(child.location, b);
            assert_eq!(child.parent, Some(1));
            if a == b {
                assert_eq!(child.get_cost(), parent.get_cost());
            }
        }
    }
}

#[test]
fn new_node_costs_the_same_in_both_directions() {
    let spots = [at(0, 0), at(1, 1), at(2, 5), at(3, 4), at(40, 9)];
    for a in spots {
        for b in spots {
            let there = Node::new_node(&Node::generate_genesis(a), 0, b);
            let back = Node::new_node(&Node::generate_genesis(b), 0, a);
            assert_eq!(there.get_cost(), back.get_cost());
        }
    }
}

#[test]
fn chain_costs_the_sum_of_its_distances() {
    let way = [at(0, 0), at(3, 4), at(3, 5), at(4, 6), at(4, 6), at(10, 14), at(9, 14), at(0, 2)];
    let mut node = Node::generate_genesis(way[0]);
    let mut sum = 0.0;
    for (i, pair) in way.windows(2).enumerate() {
        node = Node::new_node(&node, i, pair[1]);
        sum += distance(pair[0], pair[1]);
        assert!((as_float(&node.get_cost()) - sum).abs() < 1e-9);
    }
    assert_eq!(node.get_cost().paces, Paces { straight: 2, diagonal: 1 });
    assert_eq!(
        node.get_cost().strides,
        vec![Stride { dx: 3, dy: 4 }, Stride { dx: 6, dy: 8 }, Stride { dx: 9, dy: 12 }]
    );
    let route = Route { points: way.to_vec(), cost: Cost::zero() };
    assert_eq!(path_cost(&route), node.get_cost());
}

#[test]
fn chain_of_single_steps_costs_at_least_the_open_distance() {
    // 3 to the right and 7 down by three diagonal and four straight steps.
    let way =
        [at(2, 2), at(3, 3), at(4, 4), at(5, 5), at(5, 6), at(5, 7), at(5, 8), at(5, 9)];
    let mut node = Node::generate_genesis(way[0]);
    for (i, p) in way[1..].iter().enumerate() {
        node = Node::new_node(&node, i, *p);
    }
    assert_eq!(node.get_cost(), cost(4, 3));
    // A detour between the same ends costs more.
    let detour = [at(2, 2), at(2, 3), at(3, 4), at(4, 5), at(4, 6), at(5, 7), at(4, 8), at(5, 9)];
    let mut other = Node::generate_genesis(detour[0]);
    for (i, p) in detour[1..].iter().enumerate() {
        other = Node::new_node(&other, i, *p);
    }
    assert_eq!(other.get_cost(), cost(2, 5));
    assert_eq!(node.get_cost().lt(&other.get_cost()), Some(true));
}

#[test]
fn full_counters_send_a_step_to_the_strides() {
    let far = Node {
        location: at(1, 1),
        parent: None,
        cost: Cost { paces: Paces { straight: u64::MAX, diagonal: 0 }, strides: Vec::new() },
    };
    let straight = Node::new_node(&far, 0, at(1, 2));
    assert_eq!(straight.get_cost().paces, Paces { straight: u64::MAX, diagonal: 0 });
    assert_eq!(straight.get_cost().strides, vec![Stride { dx: 0, dy: 1 }]);
    let diagonal = Node::new_node(&far, 0, at(2, 2));
    assert_eq!(diagonal.get_cost(), Cost { paces: Paces { straight: u64::MAX, diagonal: 1 }, strides: Vec::new() });
}

fn chain() -> NodeGraph {
    let root = Node::generate_genesis(at(0, 0));
    let a = Node::new_node(&root, 0, at(1, 1));
    let b = Node::new_node(&a, 1, at(2, 1));
    let other = Node::new_node(&root, 0, at(0, 1));
    let c = Node::new_node(&b, 2, at(3, 0));
    NodeGraph { nodes: vec![root, a, b, other, c] }
}

#[test]
fn reconstruct_walks_from_the_root_to_the_node() {
    let graph = chain();
    let route = graph.reconstruct(4).unwrap();
    assert_eq!(route.points, vec![at(0, 0), at(1, 1), at(2, 1), at(3, 0)]);
    assert_eq!(route.cost, cost(1, 2));
    assert_eq!(path_cost(&route), route.cost);
    let short = graph.reconstruct(3).unwrap();
    assert_eq!(short.points, vec![at(0, 0), at(0, 1)]);
    assert_eq!(short.cost, cost(1, 0));
}

#[test]
fn reconstruct_of_a_root_is_the_root_alone() {
    let graph = chain();
    assert_eq!(
        graph.reconstruct(0),
        Ok(Route { points: vec![at(0, 0)], cost: cost(0, 0) })
    );
}

#[test]
fn reconstruct_follows_links_that_point_forward() {
    let root = Node::generate_genesis(at(0, 0));
    let child = Node::new_node(&root, 1, at(1, 0));
    let graph = NodeGraph { nodes: vec![child, root] };
    let route = graph.reconstruct(0).unwrap();
    assert_eq!(route.points, vec![at(0, 0), at(1, 0)]);
}

#[test]
fn node_outside_the_graph_is_detached() {
    let graph = chain();
    assert_eq!(graph.reconstruct(5), Err(PlanError::DetachedNode));
    assert_eq!(graph.reconstruct(usize::MAX), Err(PlanError::DetachedNode));
    let empty = NodeGraph { nodes: Vec::new() };
    assert_eq!(empty.reconstruct(0), Err(PlanError::DetachedNode));
}

#[test]
fn node_whose_links_leave_the_graph_is_detached() {
    let mut graph = chain();
    graph.nodes[1].parent = Some(9);
    assert_eq!(graph.reconstruct(4), Err(PlanError::DetachedNode));
    assert_eq!(graph.reconstruct(1), Err(PlanError::DetachedNode));
    assert!(graph.reconstruct(3).is_ok());
}

#[test]
fn node_whose_links_go_round_is_detached() {
    let mut graph = chain();
    graph.nodes[0].parent = Some(2);
    assert_eq!(graph.reconstruct(4), Err(PlanError::DetachedNode));
    assert_eq!(graph.reconstruct(0), Err(PlanError::DetachedNode));
    let own = Node { location: at(0, 0), parent: Some(0), cost: Cost::zero() };
    let graph = NodeGraph { nodes: vec![own] };
    assert_eq!(graph.reconstruct(0), Err(PlanError::DetachedNode));
}

#[test]
fn path_cost_adds_the_steps() {
    let route = Route {
        points: vec![at(0, 0), at(1, 0), at(2, 1), at(2, 2), at(1, 3), at(1, 3)],
        cost: Cost::zero(),
    };
    assert_eq!(path_cost(&route), cost(2, 2));
    let single = Route { points: vec![at(5, 5)], cost: Cost::zero() };
    assert_eq!(path_cost(&single), Cost::zero());
    let none = Route { points: Vec::new(), cost: Cost::zero() };
    assert_eq!(path_cost(&none), Cost::zero());
}

#[test]
fn path_cost_keeps_a_jump_as_a_stride() {
    let route = Route { points: vec![at(0, 0), at(1, 0), at(3, 0)], cost: Cost::zero() };
    assert_eq!(
        path_cost(&route),
        Cost { paces: Paces { straight: 1, diagonal: 0 }, strides: vec![Stride { dx: 2, dy: 0 }] }
    );
    assert_eq!(as_float(&path_cost(&route)), 3.0);
    let route = Route { points: vec![at(0, 0), at(6, 8), at(6, 9)], cost: Cost::zero() };
    assert_eq!(as_float(&path_cost(&route)), 11.0);
}

#[test]
fn metadata_keeps_its_parts() {
    let meta = RoverMetadata::generate("A*".to_string(), 12);
    assert_eq!(meta.algorithm, "A*");
    assert_eq!(meta.elevation_delta, 12);
}

#[test]
fn algorithm_is_chosen_by_its_exact_name() {
    let named = |name: &str| RoverMetadata::generate(name.to_string(), 0).strategy();
    assert_eq!(named("Dijkstra"), Ok(Algorithm::Dijkstra));
    assert_eq!(named("A*"), Ok(Algorithm::AStar));
    for name in ["", "dijkstra", "DIJKSTRA", "Dijkstra ", " A*", "A", "a*", "AStar", "Dijkstr"] {
        assert_eq!(named(name), Err(PlanError::UnsupportedAlgorithm));
    }
}
