use rover_planner::cost::{Cost, Paces};
use rover_planner::mapfile::{parse_map_data, ParseError};
use rover_planner::planner::plan;
use rover_planner::point::Point;
use rover_planner::request::PlanningRequest;

const SAMPLE: &str = "A*\n4 3\n1 2\n5\n2\n3 0\n0 1\n1 2 3 4\n5 6 7 8\n9 10 11 12\n";

fn line_of(text: &str) -> usize {
    match parse_map_data(text) {
        Ok(_) => panic!("the text was read"),
        Err(e) => e.line,
    }
}

#[test]
fn request_is_read_record_by_record() {
    let (meta, map) = parse_map_data(SAMPLE).unwrap();
    assert_eq!(meta.algorithm, "A*");
    assert_eq!(meta.elevation_delta, 5);
    assert_eq!(map.width, 4);
    assert_eq!(map.height, 3);
    assert_eq!(map.landing_coords, Point::new_point(1, 2));
    assert_eq!(map.target_sites, vec![Point::new_point(3, 0), Point::new_point(0, 1)]);
    assert_eq!(map.elevations, vec![vec![1, 2, 3, 4], vec![5, 6, 7, 8], vec![9, 10, 11, 12]]);
    assert!(map.is_well_formed());
}

#[test]
fn text_without_a_last_line_feed_is_read() {
    let text = SAMPLE.trim_end();
    assert_eq!(parse_map_data(text), parse_map_data(SAMPLE));
}

#[test]
fn lines_after_the_last_row_are_not_read() {
    let text = format!("{}not a row\n\n-1\n", SAMPLE);
    assert_eq!(parse_map_data(&text), parse_map_data(SAMPLE));
}

#[test]
fn fields_after_those_needed_are_not_read() {
    let text = "A*\n4 3 x\n1 2 \n5\n2\n3 0 7 7\n0 1 -\n1 2 3 4 5\n5 6 7 8 \n9 10 11 12 zz\n";
    assert_eq!(parse_map_data(text), parse_map_data(SAMPLE));
}

#[test]
fn algorithm_name_is_the_whole_first_line() {
    let (meta, _) = parse_map_data(" Dijkstra's way \u{e9}\n0 0\n0 0\n0\n0\n").unwrap();
    assert_eq!(meta.algorithm, " Dijkstra's way \u{e9}");
    let (meta, _) = parse_map_data("\n0 0\n0 0\n0\n0\n").unwrap();
    assert_eq!(meta.algorithm, "");
}

#[test]
fn numbers_may_carry_a_plus_and_leading_zeros() {
    let (meta, map) = parse_map_data("A*\n+1 001\n+0 0\n+4294967295\n0\n00042\n").unwrap();
    assert_eq!(meta.elevation_delta, u32::MAX);
    assert_eq!(map.width, 1);
    assert_eq!(map.height, 1);
    assert_eq!(map.elevations, vec![vec![42]]);
}

#[test]
fn number_beyond_32_bits_is_not_read() {
    assert_eq!(line_of("A*\n1 1\n0 0\n4294967296\n0\n0\n"), 3);
    assert_eq!(line_of("A*\n1 1\n0 0\n99999999999999999999999999\n0\n0\n"), 3);
    assert_eq!(line_of("A*\n1 1\n0 0\n0\n0\n4294967296\n"), 5);
}

#[test]
fn number_with_other_bytes_is_not_read() {
    for bad in ["", "+", "-1", "1.5", "1e3", "0x10", "1_000", "++1", "1+", "\u{663}", "\u{a0}1"] {
        let text = format!("A*\n1 1\n0 0\n{}\n0\n0\n", bad);
        assert_eq!(line_of(&text), 3, "{:?}", bad);
    }
}

#[test]
fn fields_are_parted_by_any_number_of_blanks() {
    let (_, map) = parse_map_data("Dijkstra\n2 1\n0 0\n5\n0\n7  9").unwrap();
    assert_eq!(map.width, 2);
    assert_eq!(map.height, 1);
    assert_eq!(map.elevations, vec![vec![7, 9]]);
    let spaced = "A*\n  4 \t 3\n\t1   2\n 5 \n\t2\n3\t0\n 0 1 \n1  2\t3 \t 4\n 5 6 7 8\n9\t10\t11\t12\n";
    assert_eq!(parse_map_data(spaced), parse_map_data(SAMPLE));
    let other_blanks = "A*\n4\u{b}3\n1\u{c}2\n5\n2\n3 0\n0 1\n1 2 3 4\n5 6 7 8\n9 10 11 12\n";
    assert_eq!(parse_map_data(other_blanks), parse_map_data(SAMPLE));
}

#[test]
fn carriage_returns_at_line_ends_are_blanks() {
    let text = SAMPLE.replace('\n', "\r\n");
    let (meta, map) = parse_map_data(&text).unwrap();
    assert_eq!(meta.algorithm, "A*\r");
    assert_eq!(map, parse_map_data(SAMPLE).unwrap().1);
}

#[test]
fn line_of_blanks_holds_no_field() {
    assert_eq!(line_of("A*\n \t \n0 0\n0\n0\n"), 1);
    assert_eq!(line_of("A*\n1 1\n0 0\n  \n0\n0\n"), 3);
    assert_eq!(line_of("A*\n2 1\n0 0\n0\n0\n7 \n"), 5);
}

#[test]
fn number_lines_are_read_by_their_first_field() {
    let (meta, map) = parse_map_data("A*\n1 1\n0 0\n 5 metres\n0 targets\n3\n").unwrap();
    assert_eq!(meta.elevation_delta, 5);
    assert!(map.target_sites.is_empty());
}

#[test]
fn first_unreadable_line_is_named() {
    assert_eq!(line_of(""), 1);
    assert_eq!(line_of("A*"), 1);
    assert_eq!(line_of("A*\n"), 1);
    assert_eq!(line_of("A*\n3\n"), 1);
    assert_eq!(line_of("A*\n3 3"), 2);
    assert_eq!(line_of("A*\n3 3\n0\n"), 2);
    assert_eq!(line_of("A*\n3 3\n0 0\n"), 3);
    assert_eq!(line_of("A*\n3 3\n0 0\nfive\n"), 3);
    assert_eq!(line_of("A*\n3 3\n0 0\n5"), 4);
    assert_eq!(line_of("A*\n3 3\n0 0\n5\n-2\n"), 4);
    assert_eq!(line_of("A*\n3 3\n0 0\n5\n2\n1 1\n2\n"), 6);
    assert_eq!(line_of("A*\n3 3\n0 0\n5\n2\n1 1"), 6);
    assert_eq!(line_of("A*\n3 3\n0 0\n5\n2\n1 1\n2 2\n0 0 0\n0 0\n0 0 0\n"), 8);
    assert_eq!(line_of("A*\n3 3\n0 0\n5\n2\n1 1\n2 2\n0 0 0\n0 0 0\n"), 9);
    assert_eq!(line_of("A*\n3 3\n0 0\n5\n2\n1 1\n2 2\n0 0 0\n0 0 0"), 9);
    assert_eq!(line_of("A*\n3 3\n0 0\n5\n2\n1 1\n2 2\n0 0 0\n0 0 0\n0 0 a\n"), 9);
    assert_eq!(line_of("x\n1 1\n0 0\n1\n4294967295\n1 1\n"), 6);
}

#[test]
fn error_names_the_line() {
    assert_eq!(parse_map_data("A*\n3 3\n0 0\nfive\n"), Err(ParseError { line: 3 }));
}

#[test]
fn earlier_line_is_named_before_a_later_one() {
    assert_eq!(line_of("A*\n3 3\n0 0\nfive\n2\n1\n"), 3);
    assert_eq!(line_of("A*\nx\ny\nz\n"), 1);
}

#[test]
fn grid_without_columns_needs_its_rows_all_the_same() {
    let (_, map) = parse_map_data("A*\n0 2\n0 0\n0\n0\nanything\n\n").unwrap();
    assert_eq!(map.elevations, vec![Vec::<u32>::new(), Vec::new()]);
    assert_eq!(line_of("A*\n0 2\n0 0\n0\n0\nanything"), 6);
}

#[test]
fn sites_are_not_held_to_the_grid_when_read() {
    let (_, map) = parse_map_data("A*\n1 1\n5 5\n0\n1\n9 9\n0\n").unwrap();
    assert_eq!(map.landing_coords, Point::new_point(5, 5));
    assert_eq!(map.target_sites, vec![Point::new_point(9, 9)]);
}

#[test]
fn request_that_was_read_can_be_planned() {
    let text = "Dijkstra\n3 3\n0 0\n5\n2\n2 2\n1 1\n0 0 0\n0 100 0\n0 0 0\n";
    let (meta, map) = parse_map_data(text).unwrap();
    let answers = plan(&PlanningRequest::new(meta, map)).unwrap();
    assert_eq!(
        answers[0].clone().unwrap().cost,
        Cost { paces: Paces { straight: 2, diagonal: 1 }, strides: Vec::new() }
    );
    assert!(answers[1].is_err());
}
