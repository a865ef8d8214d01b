use rover_planner::cost::{open_cost, step_cost, Cost, Paces, Stride};
use rover_planner::point::Point;

fn cost(straight: u64, diagonal: u64) -> Paces {
    Paces { straight, diagonal }
}

fn steps(straight: u64, diagonal: u64) -> Cost {
    Cost { paces: Paces { straight, diagonal }, strides: Vec::new() }
}

fn as_float(paces: &Paces) -> f64 {
    paces.straight as f64 + paces.diagonal as f64 * 2f64.sqrt()
}

fn in_all(cost: &Cost) -> f64 {
    let strides: f64 = cost
        .strides
        .iter()
        .map(|s| ((s.dx as f64).powi(2) + (s.dy as f64).powi(2)).sqrt())
        .sum();
    as_float(&cost.paces) + strides
}

#[test]
fn step_cost_is_the_euclidean_distance() {
    let centre = Point::new_point(5, 5);
    for x in 0..=12u32 {
        for y in 0..=12u32 {
            let to = Point::new_point(x, y);
            let dx = x as f64 - 5.0;
            let dy = y as f64 - 5.0;
            assert!((in_all(&step_cost(centre, to)) - (dx * dx + dy * dy).sqrt()).abs() < 1e-12);
        }
    }
}

#[test]
fn single_steps_are_counted() {
    let p = Point::new_point(3, 3);
    assert_eq!(step_cost(p, p), steps(0, 0));
    assert_eq!(step_cost(p, Point::new_point(4, 3)), steps(1, 0));
    assert_eq!(step_cost(p, Point::new_point(3, 2)), steps(1, 0));
    assert_eq!(step_cost(p, Point::new_point(2, 2)), steps(0, 1));
    assert_eq!(step_cost(p, Point::new_point(4, 2)), steps(0, 1));
}

#[test]
fn longer_moves_are_kept_as_strides() {
    let p = Point::new_point(3, 3);
    let far = step_cost(p, Point::new_point(6, 7));
    assert_eq!(far, Cost { paces: cost(0, 0), strides: vec![Stride { dx: 3, dy: 4 }] });
    assert_eq!(in_all(&far), 5.0);
    assert_eq!(in_all(&step_cost(p, Point::new_point(5, 3))), 2.0);
    let widest = step_cost(Point::new_point(0, 0), Point::new_point(u32::MAX, 0));
    assert_eq!(widest.strides, vec![Stride { dx: u32::MAX, dy: 0 }]);
}

#[test]
fn step_cost_does_not_depend_on_the_direction() {
    let a = Point::new_point(0, 1);
    let b = Point::new_point(1, 0);
    assert_eq!(step_cost(a, b), step_cost(b, a));
    let c = Point::new_point(30, 41);
    assert_eq!(step_cost(a, c), step_cost(c, a));
}

#[test]
fn moves_add_up_in_their_order() {
    let a = Point::new_point(0, 0);
    let b = Point::new_point(1, 1);
    let c = Point::new_point(4, 5);
    let d = Point::new_point(4, 6);
    let way = Cost::zero().after(a, b).after(b, c).after(c, d);
    assert_eq!(way, Cost { paces: cost(1, 1), strides: vec![Stride { dx: 3, dy: 4 }] });
    assert_eq!(way.copy(), way);
    assert!((in_all(&way) - (6.0 + 2f64.sqrt())).abs() < 1e-12);
}

#[test]
fn costs_of_single_steps_are_compared() {
    assert_eq!(steps(0, 2).lt(&steps(3, 0)), Some(true));
    assert_eq!(steps(3, 0).le(&steps(0, 2)), Some(false));
    assert_eq!(steps(1, 1).le(&steps(1, 1)), Some(true));
    assert_eq!(steps(1, 1).lt(&steps(1, 1)), Some(false));
}

#[test]
fn costs_with_strides_are_not_compared() {
    let far = step_cost(Point::new_point(0, 0), Point::new_point(3, 4));
    assert_eq!(far.le(&steps(9, 0)), None);
    assert_eq!(steps(9, 0).lt(&far), None);
    assert_eq!(far.le(&far), None);
}

#[test]
fn zero_is_the_cost_of_no_move() {
    assert_eq!(Paces::zero(), cost(0, 0));
    assert_eq!(Cost::zero(), steps(0, 0));
}

#[test]
fn costs_add_up_by_kind_of_move() {
    assert_eq!(cost(2, 3).plus(&cost(5, 7)), cost(7, 10));
    assert_eq!(cost(2, 3).plus(&Paces::zero()), cost(2, 3));
}

#[test]
fn costs_are_compared_as_real_numbers() {
    // 3 > 2 * sqrt(2) and 7 < 5 * sqrt(2).
    assert!(cost(0, 2).lt(&cost(3, 0)));
    assert!(!cost(3, 0).le(&cost(0, 2)));
    assert!(cost(7, 0).lt(&cost(0, 5)));
    assert!(!cost(0, 5).le(&cost(7, 0)));
    // 1 + sqrt(2) < 2.5 < 1 + 2 * sqrt(2)
    assert!(cost(1, 1).lt(&cost(3, 0)));
    assert!(cost(3, 0).lt(&cost(1, 2)));
    // More of both kinds is more.
    assert!(cost(1, 1).lt(&cost(1, 2)));
    assert!(cost(1, 1).lt(&cost(2, 1)));
    assert!(cost(1, 1).le(&cost(1, 1)));
    assert!(!cost(1, 1).lt(&cost(1, 1)));
}

#[test]
fn close_costs_are_told_apart() {
    // 1393 / 985 is a little below sqrt(2), 1394 / 985 above.
    assert!(cost(1393, 0).lt(&cost(0, 985)));
    assert!(cost(0, 985).lt(&cost(1394, 0)));
    // 3363 / 2378 is a little above sqrt(2), 3362 / 2378 below.
    assert!(cost(0, 2378).lt(&cost(3363, 0)));
    assert!(cost(3362, 0).lt(&cost(0, 2378)));
}

#[test]
fn large_costs_are_compared_without_overflow() {
    let most = u64::MAX;
    assert!(cost(most, 0).lt(&cost(0, most)));
    assert!(!cost(0, most).le(&cost(most, 0)));
    assert!(cost(0, 0).le(&cost(most, most)));
    assert!(!cost(most, most).le(&cost(0, 0)));
    assert!(cost(most, 0).le(&cost(most, 0)));
    // most / sqrt(2) lies between these two.
    assert!(cost(0, 13043817825332782211).lt(&cost(most, 0)));
    assert!(cost(most, 0).lt(&cost(0, 13043817825332782212)));
}

#[test]
fn comparison_agrees_with_floating_point_where_that_is_exact_enough() {
    for a in 0..12u64 {
        for b in 0..12u64 {
            for c in 0..12u64 {
                for d in 0..12u64 {
                    let x = cost(a, b);
                    let y = cost(c, d);
                    let diff = as_float(&y) - as_float(&x);
                    if diff.abs() > 1e-9 {
                        assert_eq!(x.le(&y), diff > 0.0);
                        assert_eq!(x.lt(&y), diff > 0.0);
                    } else {
                        assert_eq!(x, y);
                        assert!(x.le(&y));
                        assert!(!x.lt(&y));
                    }
                }
            }
        }
    }
}

#[test]
fn open_cost_takes_the_diagonal_first() {
    let from = Point::new_point(2, 3);
    assert_eq!(open_cost(from, from), cost(0, 0));
    assert_eq!(open_cost(from, Point::new_point(7, 3)), cost(5, 0));
    assert_eq!(open_cost(from, Point::new_point(2, 0)), cost(3, 0));
    assert_eq!(open_cost(from, Point::new_point(5, 6)), cost(0, 3));
    assert_eq!(open_cost(from, Point::new_point(0, 9)), cost(4, 2));
    assert_eq!(open_cost(from, Point::new_point(9, 4)), cost(6, 1));
    assert_eq!(
        open_cost(Point::new_point(0, 0), Point::new_point(u32::MAX, u32::MAX)),
        cost(0, u32::MAX as u64)
    );
}
