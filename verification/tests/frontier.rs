use rover_planner::cost::Paces;
use rover_planner::frontier::{at_most, Entry, Frontier};
use rover_planner::point::Point;

fn entry(straight: u64, diagonal: u64, x: u32, y: u32, node: usize) -> Entry {
    Entry { key: Paces { straight, diagonal }, cell: Point::new_point(x, y), node }
}

fn drain(heap: &mut Frontier) -> Vec<Entry> {
    let mut out = Vec::new();
    while let Some(e) = heap.pop() {
        out.push(e);
    }
    out
}

#[test]
fn empty_frontier_gives_nothing() {
    let mut heap = Frontier::new();
    assert_eq!(heap.len(), 0);
    assert_eq!(heap.pop(), None);
    assert_eq!(heap.len(), 0);
}

#[test]
fn entries_come_out_by_key() {
    let mut heap = Frontier::new();
    // 3, 2 * sqrt(2), 1 + sqrt(2), 0, 4 * sqrt(2), 5
    let entries = [
        entry(3, 0, 0, 0, 0),
        entry(0, 2, 0, 0, 1),
        entry(1, 1, 0, 0, 2),
        entry(0, 0, 0, 0, 3),
        entry(0, 4, 0, 0, 4),
        entry(5, 0, 0, 0, 5),
    ];
    for e in entries {
        heap.push(e);
    }
    assert_eq!(heap.len(), 6);
    let nodes: Vec<usize> = drain(&mut heap).iter().map(|e| e.node).collect();
    assert_eq!(nodes, vec![3, 2, 1, 0, 5, 4]);
    assert_eq!(heap.len(), 0);
}

#[test]
fn equal_keys_come_out_by_cell() {
    let mut heap = Frontier::new();
    heap.push(entry(2, 1, 3, 1, 0));
    heap.push(entry(2, 1, 1, 9, 1));
    heap.push(entry(2, 1, 3, 0, 2));
    heap.push(entry(2, 1, 0, 7, 3));
    heap.push(entry(2, 1, 1, 2, 4));
    let nodes: Vec<usize> = drain(&mut heap).iter().map(|e| e.node).collect();
    assert_eq!(nodes, vec![3, 4, 1, 2, 0]);
}

#[test]
fn entries_pushed_between_pops_find_their_place() {
    let mut heap = Frontier::new();
    heap.push(entry(5, 0, 0, 0, 0));
    heap.push(entry(1, 0, 0, 0, 1));
    assert_eq!(heap.pop().unwrap().node, 1);
    heap.push(entry(3, 0, 0, 0, 2));
    heap.push(entry(7, 0, 0, 0, 3));
    assert_eq!(heap.pop().unwrap().node, 2);
    heap.push(entry(0, 0, 0, 0, 4));
    assert_eq!(heap.pop().unwrap().node, 4);
    assert_eq!(heap.pop().unwrap().node, 0);
    assert_eq!(heap.pop().unwrap().node, 3);
    assert_eq!(heap.pop(), None);
}

#[test]
fn many_entries_come_out_in_order() {
    let mut heap = Frontier::new();
    let mut state: u64 = 99;
    let mut pushed = Vec::new();
    for node in 0..500usize {
        state = state.wrapping_mul(6364136223846793005).wrapping_add(1442695040888963407);
        let e = entry((state >> 40) % 50, (state >> 20) % 50, ((state >> 8) % 4) as u32, (state % 4) as u32, node);
        heap.push(e);
        pushed.push(e);
    }
    let out = drain(&mut heap);
    assert_eq!(out.len(), 500);
    for pair in out.windows(2) {
        assert!(at_most(&pair[0], &pair[1]));
    }
    let mut nodes: Vec<usize> = out.iter().map(|e| e.node).collect();
    nodes.sort();
    assert_eq!(nodes, (0..500).collect::<Vec<usize>>());
    for e in &out {
        assert_eq!(pushed[e.node], *e);
    }
}

#[test]
fn at_most_orders_by_key_then_cell() {
    let a = entry(1, 1, 5, 5, 0);
    assert!(at_most(&a, &a));
    assert!(at_most(&a, &entry(3, 0, 0, 0, 0)));
    assert!(!at_most(&entry(3, 0, 0, 0, 0), &a));
    assert!(at_most(&a, &entry(1, 1, 5, 6, 0)));
    assert!(at_most(&a, &entry(1, 1, 6, 0, 0)));
    assert!(!at_most(&a, &entry(1, 1, 5, 4, 0)));
    assert!(!at_most(&a, &entry(1, 1, 4, 9, 0)));
    assert!(at_most(&a, &entry(1, 1, 5, 5, 7)));
}

#[test]
fn equal_entries_are_kept_as_often_as_they_were_pushed() {
    let mut heap = Frontier::new();
    let twice = entry(2, 0, 1, 1, 7);
    let other = entry(1, 0, 0, 0, 3);
    heap.push(twice);
    heap.push(other);
    heap.push(twice);
    heap.push(twice);
    assert_eq!(heap.len(), 4);
    assert_eq!(drain(&mut heap), vec![other, twice, twice, twice]);
}
