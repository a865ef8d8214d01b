use rover_planner::error::PlanError;
use rover_planner::feasibility::is_traversable;
use rover_planner::grid::RoverMap;
use rover_planner::point::{axis_distance, Point};

fn map(elevations: Vec<Vec<u32>>) -> RoverMap {
    let height = elevations.len() as u32;
    let width = elevations[0].len() as u32;
    RoverMap::generate(width, height, Point::new_point(0, 0), Vec::new(), elevations)
}

fn sample() -> RoverMap {
    map(vec![vec![1, 2, 3, 4], vec![5, 6, 7, 8], vec![9, 10, 11, 12]])
}

#[test]
fn point_keeps_its_coordinates() {
    let p = Point::new_point(3, 9);
    assert_eq!(p.get_coords(), [3, 9]);
    assert_eq!(p, Point { x: 3, y: 9 });
    assert_ne!(p, Point::new_point(9, 3));
}

#[test]
fn points_are_ordered_by_x_then_y() {
    let p = Point::new_point(1, 5);
    assert!(p.precedes(&Point::new_point(2, 0)));
    assert!(p.precedes(&Point::new_point(1, 6)));
    assert!(!p.precedes(&p));
    assert!(!p.precedes(&Point::new_point(0, 9)));
    assert!(!p.precedes(&Point::new_point(1, 4)));
}

#[test]
fn axis_distance_is_the_absolute_difference() {
    assert_eq!(axis_distance(3, 8), 5);
    assert_eq!(axis_distance(8, 3), 5);
    assert_eq!(axis_distance(4, 4), 0);
    assert_eq!(axis_distance(0, u32::MAX), u32::MAX);
}

#[test]
fn generate_keeps_the_parts() {
    let targets = vec![Point::new_point(1, 1), Point::new_point(0, 2)];
    let elevations = vec![vec![1, 2], vec![3, 4], vec![5, 6]];
    let m = RoverMap::generate(2, 3, Point::new_point(1, 0), targets.clone(), elevations.clone());
    assert_eq!(m.width, 2);
    assert_eq!(m.height, 3);
    assert_eq!(m.landing_coords, Point::new_point(1, 0));
    assert_eq!(m.target_sites, targets);
    assert_eq!(m.elevations, elevations);
    assert!(m.is_well_formed());
}

#[test]
fn shape_is_checked() {
    let origin = Point::new_point(0, 0);
    let short_row = RoverMap::generate(2, 2, origin, Vec::new(), vec![vec![1, 2], vec![3]]);
    assert!(!short_row.is_well_formed());
    let long_row = RoverMap::generate(2, 2, origin, Vec::new(), vec![vec![1, 2, 3], vec![3, 4]]);
    assert!(!long_row.is_well_formed());
    let missing_row = RoverMap::generate(2, 2, origin, Vec::new(), vec![vec![1, 2]]);
    assert!(!missing_row.is_well_formed());
    let extra_row = RoverMap::generate(1, 1, origin, Vec::new(), vec![vec![1], vec![2]]);
    assert!(!extra_row.is_well_formed());
    let empty = RoverMap::generate(0, 0, origin, Vec::new(), Vec::new());
    assert!(empty.is_well_formed());
}

#[test]
fn elevation_is_read_by_column_and_row() {
    let m = sample();
    assert_eq!(m.elevation_at(Point::new_point(0, 0)), Ok(1));
    assert_eq!(m.elevation_at(Point::new_point(3, 0)), Ok(4));
    assert_eq!(m.elevation_at(Point::new_point(0, 2)), Ok(9));
    assert_eq!(m.elevation_at(Point::new_point(2, 1)), Ok(7));
}

#[test]
fn elevation_outside_the_grid_is_out_of_bounds() {
    let m = sample();
    assert_eq!(m.elevation_at(Point::new_point(4, 0)), Err(PlanError::OutOfBounds));
    assert_eq!(m.elevation_at(Point::new_point(0, 3)), Err(PlanError::OutOfBounds));
    assert_eq!(m.elevation_at(Point::new_point(u32::MAX, u32::MAX)), Err(PlanError::OutOfBounds));
}

#[test]
fn contains_tells_cells_from_other_points() {
    let m = sample();
    assert!(m.contains(Point::new_point(3, 2)));
    assert!(!m.contains(Point::new_point(4, 2)));
    assert!(!m.contains(Point::new_point(3, 3)));
}

#[test]
fn inner_cell_has_eight_neighbours() {
    let m = sample();
    let cells = m.neighbors(Point::new_point(1, 1));
    let expected: Vec<Point> = [(0, 0), (1, 0), (2, 0), (0, 1), (2, 1), (0, 2), (1, 2), (2, 2)]
        .iter()
        .map(|c| Point::new_point(c.0, c.1))
        .collect();
    assert_eq!(cells, expected);
}

#[test]
fn corner_and_edge_cells_have_fewer_neighbours() {
    let m = sample();
    let at = |x, y| Point::new_point(x, y);
    assert_eq!(m.neighbors(at(0, 0)), vec![at(1, 0), at(0, 1), at(1, 1)]);
    assert_eq!(m.neighbors(at(3, 2)), vec![at(2, 1), at(3, 1), at(2, 2)]);
    assert_eq!(m.neighbors(at(2, 0)), vec![at(1, 0), at(3, 0), at(1, 1), at(2, 1), at(3, 1)]);
    assert_eq!(m.neighbors(at(0, 1)).len(), 5);
}

#[test]
fn neighbours_of_a_point_off_the_grid_are_the_cells_next_to_it() {
    let m = sample();
    let at = |x, y| Point::new_point(x, y);
    assert_eq!(m.neighbors(at(4, 3)), vec![at(3, 2)]);
    assert_eq!(m.neighbors(at(9, 9)), Vec::new());
    assert_eq!(m.neighbors(at(u32::MAX, u32::MAX)), Vec::new());
    let single = map(vec![vec![7]]);
    assert_eq!(single.neighbors(at(0, 0)), Vec::new());
}

#[test]
fn step_is_traversable_within_the_limit() {
    let m = map(vec![vec![10, 13, 20]]);
    let at = |x| Point::new_point(x, 0);
    assert_eq!(is_traversable(at(0), at(1), &m, 3), Ok(true));
    assert_eq!(is_traversable(at(0), at(1), &m, 2), Ok(false));
    assert_eq!(is_traversable(at(1), at(2), &m, 7), Ok(true));
    assert_eq!(is_traversable(at(1), at(2), &m, 6), Ok(false));
    assert_eq!(is_traversable(at(1), at(1), &m, 0), Ok(true));
}

#[test]
fn traversability_is_symmetric() {
    let m = sample();
    for limit in [0, 1, 3, 4, 5, 100] {
        for ay in 0..4 {
            for ax in 0..5 {
                for by in 0..4 {
                    for bx in 0..5 {
                        let a = Point::new_point(ax, ay);
                        let b = Point::new_point(bx, by);
                        assert_eq!(is_traversable(a, b, &m, limit), is_traversable(b, a, &m, limit));
                    }
                }
            }
        }
    }
}

#[test]
fn traversability_off_the_grid_is_out_of_bounds() {
    let m = sample();
    let inside = Point::new_point(0, 0);
    let outside = Point::new_point(4, 0);
    assert_eq!(is_traversable(inside, outside, &m, 100), Err(PlanError::OutOfBounds));
    assert_eq!(is_traversable(outside, inside, &m, 100), Err(PlanError::OutOfBounds));
    assert_eq!(is_traversable(outside, outside, &m, 100), Err(PlanError::OutOfBounds));
}
