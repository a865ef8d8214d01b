use rover_planner::cost::{Cost, Paces};
use rover_planner::error::PlanError;
use rover_planner::grid::RoverMap;
use rover_planner::metadata::RoverMetadata;
use rover_planner::planner::plan;
use rover_planner::point::Point;
use rover_planner::request::PlanningRequest;
use rover_planner::route::{path_cost, Route};

fn request(
    algorithm: &str,
    max_delta: u32,
    landing: (u32, u32),
    targets: &[(u32, u32)],
    elevations: Vec<Vec<u32>>,
) -> PlanningRequest {
    let height = elevations.len() as u32;
    let width = if elevations.is_empty() { 0 } else { elevations[0].len() as u32 };
    let sites: Vec<Point> = targets.iter().map(|t| Point::new_point(t.0, t.1)).collect();
    let map = RoverMap::generate(
        width,
        height,
        Point::new_point(landing.0, landing.1),
        sites,
        elevations,
    );
    assert!(map.is_well_formed());
    PlanningRequest::new(RoverMetadata::generate(algorithm.to_string(), max_delta), map)
}

fn points(cells: &[(u32, u32)]) -> Vec<Point> {
    cells.iter().map(|c| Point::new_point(c.0, c.1)).collect()
}

fn as_float(cost: &Cost) -> f64 {
    let strides: f64 = cost
        .strides
        .iter()
        .map(|s| ((s.dx as f64).powi(2) + (s.dy as f64).powi(2)).sqrt())
        .sum();
    cost.paces.straight as f64 + cost.paces.diagonal as f64 * 2f64.sqrt() + strides
}

fn cost(straight: u64, diagonal: u64) -> Cost {
    Cost { paces: Paces { straight, diagonal }, strides: Vec::new() }
}

fn flat(width: usize, height: usize) -> Vec<Vec<u32>> {
    vec![vec![0; width]; height]
}

fn bumpy(width: usize, height: usize, seed: u64) -> Vec<Vec<u32>> {
    let mut state = seed;
    let mut rows = Vec::new();
    for _ in 0..height {
        let mut row = Vec::new();
        for _ in 0..width {
            state = state.wrapping_mul(6364136223846793005).wrapping_add(1442695040888963407);
            row.push(((state >> 33) % 7) as u32);
        }
        rows.push(row);
    }
    rows
}

#[test]
fn flat_grid_is_crossed_along_the_diagonal() {
    for name in ["Dijkstra", "A*"] {
        let req = request(name, 0, (0, 0), &[(2, 2)], flat(3, 3));
        let answers = plan(&req).unwrap();
        assert_eq!(answers.len(), 1);
        let route = answers[0].clone().unwrap();
        assert_eq!(route.points, points(&[(0, 0), (1, 1), (2, 2)]));
        assert_eq!(route.cost, cost(0, 2));
        assert!((as_float(&route.cost) - 2.0 * 2f64.sqrt()).abs() < 1e-12);
    }
}

#[test]
fn high_cell_is_walked_around() {
    for name in ["Dijkstra", "A*"] {
        let mut elevations = flat(3, 3);
        elevations[1][1] = 100;
        let req = request(name, 5, (0, 0), &[(2, 2)], elevations);
        let route = plan(&req).unwrap()[0].clone().unwrap();
        assert_eq!(route.cost, cost(2, 1));
        assert_eq!(route.points, points(&[(0, 0), (0, 1), (1, 2), (2, 2)]));
        assert!(!route.points.contains(&Point::new_point(1, 1)));
        assert!(as_float(&route.cost) > 2.0 * 2f64.sqrt());
    }
}

#[test]
fn target_at_the_landing_point_costs_nothing() {
    for name in ["Dijkstra", "A*"] {
        let req = request(name, 0, (1, 2), &[(1, 2)], flat(3, 3));
        let route = plan(&req).unwrap()[0].clone().unwrap();
        assert_eq!(route.points, points(&[(1, 2)]));
        assert_eq!(route.cost, cost(0, 0));
    }
}

#[test]
fn unreachable_target_does_not_fail_the_others() {
    for name in ["Dijkstra", "A*"] {
        let elevations = vec![vec![0, 100, 0], vec![0, 100, 0]];
        let req = request(name, 5, (0, 0), &[(2, 0), (0, 1), (2, 1)], elevations);
        let answers = plan(&req).unwrap();
        assert_eq!(answers.len(), 3);
        assert_eq!(answers[0], Err(PlanError::Unreachable));
        assert_eq!(
            answers[1],
            Ok(Route { points: points(&[(0, 0), (0, 1)]), cost: cost(1, 0) })
        );
        assert_eq!(answers[2], Err(PlanError::Unreachable));
    }
}

#[test]
fn wall_with_a_gap_is_passed_through_the_gap() {
    // Column 2 is high but for its last row.
    let mut elevations = flat(5, 5);
    for row in elevations.iter_mut().take(4) {
        row[2] = 50;
    }
    for name in ["Dijkstra", "A*"] {
        let req = request(name, 3, (0, 0), &[(4, 0)], elevations.clone());
        let route = plan(&req).unwrap()[0].clone().unwrap();
        // Down to the gap at (2, 4) and up again: two diagonal and two
        // straight moves each way.
        assert_eq!(route.cost, cost(4, 4));
        assert!(route.points.contains(&Point::new_point(2, 4)));
        assert_eq!(path_cost(&route), route.cost);
    }
}

#[test]
fn landing_outside_the_grid_is_refused() {
    let req = request("Dijkstra", 0, (3, 0), &[(1, 1)], flat(3, 3));
    assert_eq!(plan(&req), Err(PlanError::OutOfBounds));
    let req = request("A*", 0, (0, 3), &[(1, 1)], flat(3, 3));
    assert_eq!(plan(&req), Err(PlanError::OutOfBounds));
}

#[test]
fn target_outside_the_grid_is_refused() {
    let req = request("Dijkstra", 0, (0, 0), &[(1, 1), (0, 3)], flat(3, 3));
    assert_eq!(plan(&req), Err(PlanError::OutOfBounds));
}

#[test]
fn empty_grid_holds_no_landing_point() {
    let req = request("Dijkstra", 0, (0, 0), &[], Vec::new());
    assert_eq!(plan(&req), Err(PlanError::OutOfBounds));
}

#[test]
fn unknown_algorithm_is_refused() {
    for name in ["", "dijkstra", "A", "BFS", "A* ", "Dijkstra\n"] {
        let req = request(name, 0, (0, 0), &[(1, 1)], flat(3, 3));
        assert_eq!(plan(&req), Err(PlanError::UnsupportedAlgorithm));
    }
}

#[test]
fn sites_are_checked_before_the_algorithm() {
    let req = request("BFS", 0, (9, 9), &[(1, 1)], flat(3, 3));
    assert_eq!(plan(&req), Err(PlanError::OutOfBounds));
}

#[test]
fn no_targets_give_no_answers() {
    for name in ["Dijkstra", "A*"] {
        let req = request(name, 0, (0, 0), &[], flat(3, 3));
        assert_eq!(plan(&req), Ok(Vec::new()));
    }
}

#[test]
fn answers_come_in_the_order_of_the_targets() {
    for name in ["Dijkstra", "A*"] {
        let req = request(name, 0, (0, 0), &[(3, 0), (1, 0), (2, 0), (1, 0)], flat(4, 1));
        let answers = plan(&req).unwrap();
        let costs: Vec<Cost> = answers.iter().map(|a| a.clone().unwrap().cost).collect();
        let straight = |n: u64| cost(n, 0);
        assert_eq!(costs, vec![straight(3), straight(1), straight(2), straight(1)]);
        assert_eq!(answers[0].clone().unwrap().points, points(&[(0, 0), (1, 0), (2, 0), (3, 0)]));
    }
}

#[test]
fn planning_twice_gives_the_same_answers() {
    for name in ["Dijkstra", "A*"] {
        let req = request(name, 2, (0, 0), &[(7, 5), (3, 3), (0, 7)], bumpy(8, 8, 11));
        assert_eq!(plan(&req), plan(&req));
        assert_eq!(plan(&req), plan(&req.clone()));
    }
}

#[test]
fn equal_routes_are_told_apart_by_the_smaller_point() {
    // (1, 0) and (0, 1) both lead to (1, 1) on a grid where the diagonal
    // step from (0, 0) is too steep; the way through (0, 1) is taken.
    let elevations = vec![vec![0, 3], vec![3, 6]];
    for name in ["Dijkstra", "A*"] {
        let req = request(name, 3, (0, 0), &[(1, 1)], elevations.clone());
        let route = plan(&req).unwrap()[0].clone().unwrap();
        assert_eq!(route.points, points(&[(0, 0), (0, 1), (1, 1)]));
        assert_eq!(route.cost, cost(2, 0));
    }
}

#[test]
fn route_cost_is_the_sum_of_its_steps() {
    for name in ["Dijkstra", "A*"] {
        let req = request(name, 2, (0, 0), &[(9, 9), (0, 9), (9, 0), (5, 4)], bumpy(10, 10, 7));
        for answer in plan(&req).unwrap() {
            if let Ok(route) = answer {
                assert_eq!(path_cost(&route), route.cost);
                assert_eq!(route.points[0], Point::new_point(0, 0));
            }
        }
    }
}

#[test]
fn both_algorithms_find_routes_of_the_same_cost() {
    for seed in 1..20u64 {
        let elevations = bumpy(9, 7, seed);
        let targets = [(8, 6), (0, 6), (8, 0), (4, 3), (1, 5)];
        let by_cost = plan(&request("Dijkstra", 2, (0, 0), &targets, elevations.clone())).unwrap();
        let by_estimate = plan(&request("A*", 2, (0, 0), &targets, elevations)).unwrap();
        assert_eq!(by_cost.len(), by_estimate.len());
        for (a, b) in by_cost.iter().zip(by_estimate.iter()) {
            match (a, b) {
                (Ok(a), Ok(b)) => assert_eq!(a.cost, b.cost),
                (Err(a), Err(b)) => assert_eq!(a, b),
                _ => panic!("one algorithm reached a target that the other did not"),
            }
        }
    }
}

#[test]
fn no_route_is_longer_than_any_walk_found_by_relaxing_all_steps() {
    // Shortest lengths by relaxing every step until nothing changes.
    let elevations = bumpy(6, 6, 3);
    let limit = 2u32;
    let mut best: Vec<Vec<Option<Paces>>> = vec![vec![None; 6]; 6];
    best[0][0] = Some(Paces { straight: 0, diagonal: 0 });
    let mut changed = true;
    while changed {
        changed = false;
        for y in 0..6i64 {
            for x in 0..6i64 {
                let Some(here) = best[y as usize][x as usize] else { continue };
                for (dx, dy) in [(-1, -1), (0, -1), (1, -1), (-1, 0), (1, 0), (-1, 1), (0, 1), (1, 1)] {
                    let (nx, ny) = (x + dx, y + dy);
                    if nx < 0 || ny < 0 || nx >= 6 || ny >= 6 {
                        continue;
                    }
                    let a = elevations[y as usize][x as usize];
                    let b = elevations[ny as usize][nx as usize];
                    if a.abs_diff(b) > limit {
                        continue;
                    }
                    let step = if dx != 0 && dy != 0 {
                        Paces { straight: 0, diagonal: 1 }
                    } else {
                        Paces { straight: 1, diagonal: 0 }
                    };
                    let there = here.plus(&step);
                    let better = match best[ny as usize][nx as usize] {
                        None => true,
                        Some(old) => there.lt(&old),
                    };
                    if better {
                        best[ny as usize][nx as usize] = Some(there);
                        changed = true;
                    }
                }
            }
        }
    }
    let mut targets = Vec::new();
    for y in 0..6u32 {
        for x in 0..6u32 {
            targets.push((x, y));
        }
    }
    for name in ["Dijkstra", "A*"] {
        let answers = plan(&request(name, limit, (0, 0), &targets, elevations.clone())).unwrap();
        for (target, answer) in targets.iter().zip(answers.iter()) {
            let expected = best[target.1 as usize][target.0 as usize];
            match answer {
                Ok(route) => {
                    assert!(route.cost.strides.is_empty());
                    assert_eq!(Some(route.cost.paces), expected);
                },
                Err(e) => {
                    assert_eq!(*e, PlanError::Unreachable);
                    assert_eq!(expected, None);
                },
            }
        }
    }
}

#[test]
fn long_corridor_is_walked_to_its_end() {
    for name in ["Dijkstra", "A*"] {
        let req = request(name, 0, (0, 0), &[(199, 0)], flat(200, 1));
        let route = plan(&req).unwrap()[0].clone().unwrap();
        assert_eq!(route.cost, cost(199, 0));
        assert_eq!(route.points.len(), 200);
    }
}

#[test]
fn large_grid_is_planned() {
    for name in ["Dijkstra", "A*"] {
        let req = request(name, 0, (0, 0), &[(249, 199), (0, 199), (249, 0)], flat(250, 200));
        let answers = plan(&req).unwrap();
        let costs: Vec<Cost> = answers.iter().map(|a| a.clone().unwrap().cost).collect();
        assert_eq!(
            costs,
            vec![
                cost(50, 199),
                cost(199, 0),
                cost(249, 0),
            ]
        );
    }
}

#[test]
fn maze_is_walked_through() {
    // Walls at every other column, with gaps at alternating ends.
    let width = 21;
    let height = 9;
    let mut elevations = flat(width, height);
    for x in (1..width).step_by(2) {
        for y in 0..height {
            elevations[y][x] = 90;
        }
        let gap = if (x / 2) % 2 == 0 { height - 1 } else { 0 };
        elevations[gap][x] = 0;
    }
    for name in ["Dijkstra", "A*"] {
        let req = request(name, 1, (0, 0), &[(20, 0)], elevations.clone());
        let route = plan(&req).unwrap()[0].clone().unwrap();
        assert_eq!(path_cost(&route), route.cost);
        assert_eq!(route.points.first(), Some(&Point::new_point(0, 0)));
        assert_eq!(route.points.last(), Some(&Point::new_point(20, 0)));
        for pair in route.points.windows(2) {
            let a = elevations[pair[0].y as usize][pair[0].x as usize];
            let b = elevations[pair[1].y as usize][pair[1].x as usize];
            assert!(a.abs_diff(b) <= 1);
        }
        // The only way leads through the ten gaps, which lie at alternating
        // ends of the walls.
        assert_eq!(route.cost, cost(62, 19));
    }
}
