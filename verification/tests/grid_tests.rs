use pinguiny::frontier::{Frontier, PriorityNode};
use pinguiny::grid_navigation::{setup_hex_nav_grid, NavPath};
use pinguiny::grid_system::{CellData, HexNavGrid};
use std::cmp::Ordering;

fn adjacent(a: (i32, i32), b: (i32, i32)) -> bool {
    let d = (b.0 - a.0, b.1 - a.1);
    [(-1, 1), (-1, 0), (0, -1), (1, -1), (1, 0), (0, 1)].contains(&d)
}

fn check_walk(grid: &HexNavGrid, path: &[(i32, i32)], start: (i32, i32), target: (i32, i32)) {
    assert!(!path.is_empty());
    assert_eq!(path[0], start);
    assert_eq!(*path.last().unwrap(), target);
    for c in path {
        assert!(grid.get_cell(c.0, c.1).unwrap().walkable);
    }
    for w in path.windows(2) {
        assert!(adjacent(w[0], w[1]), "{:?} -> {:?}", w[0], w[1]);
    }
}

#[test]
fn cell_default_is_walkable_cost_one() {
    let c = CellData::default();
    assert!(c.walkable);
    assert_eq!(c.cost, 1);
}

#[test]
fn new_grid_has_default_cells_in_bounds_only() {
    let g = HexNavGrid::new(2, 1);
    assert!(g.in_bounds(2, 1));
    assert!(g.in_bounds(-2, -1));
    assert!(!g.in_bounds(3, 0));
    assert!(!g.in_bounds(0, -2));
    assert_eq!(g.get_cell(0, 0), Some(&CellData { walkable: true, cost: 1 }));
    assert_eq!(g.get_cell(-3, 0), None);
}

#[test]
fn set_cell_changes_only_that_cell() {
    let mut g = HexNavGrid::new(2, 2);
    g.set_cell(1, -1, false, 7);
    assert_eq!(g.get_cell(1, -1), Some(&CellData { walkable: false, cost: 7 }));
    assert_eq!(g.get_cell(-1, 1), Some(&CellData { walkable: true, cost: 1 }));
    // outside the grid nothing happens
    g.set_cell(5, 5, false, 3);
    assert_eq!(g.get_cell(5, 5), None);
    let blocked = g.iter_cells().iter().filter(|(_, c)| !c.walkable).count();
    assert_eq!(blocked, 1);
}

#[test]
fn iter_cells_lists_every_coordinate_once_in_row_order() {
    let mut g = HexNavGrid::new(1, 1);
    g.set_cell(0, 1, true, 5);
    let cells = g.iter_cells();
    assert_eq!(cells.len(), 9);
    assert_eq!(cells[0].0, (-1, -1));
    assert_eq!(cells[1].0, (0, -1));
    assert_eq!(cells[3].0, (-1, 0));
    assert_eq!(cells[8].0, (1, 1));
    assert_eq!(cells[7], ((0, 1), CellData { walkable: true, cost: 5 }));
    for ((q, r), c) in &cells {
        assert_eq!(g.get_cell(*q, *r), Some(c));
    }
}

#[test]
fn neighbors_are_the_six_adjacent_hexes_in_order() {
    let n = HexNavGrid::neighbors(3, -2);
    assert_eq!(n, [(2, -1), (2, -2), (3, -3), (4, -3), (4, -2), (3, -1)]);
    for c in n {
        assert_eq!(HexNavGrid::hex_distance(3, -2, c.0, c.1), 1);
    }
}

#[test]
fn hex_distance_values() {
    assert_eq!(HexNavGrid::hex_distance(0, 0, 0, 0), 0);
    assert_eq!(HexNavGrid::hex_distance(0, 0, 3, 0), 3);
    assert_eq!(HexNavGrid::hex_distance(0, 0, 2, -1), 2);
    assert_eq!(HexNavGrid::hex_distance(0, 0, 2, 2), 4);
    assert_eq!(HexNavGrid::hex_distance(-1, 3, 2, -4), 7);
    assert_eq!(HexNavGrid::hex_distance(2, -4, -1, 3), 7);
}

#[test]
fn hex_distance_triangle_example() {
    let a = (0, 0);
    let b = (2, 1);
    let c = (-3, 4);
    let ac = HexNavGrid::hex_distance(a.0, a.1, c.0, c.1);
    let ab = HexNavGrid::hex_distance(a.0, a.1, b.0, b.1);
    let bc = HexNavGrid::hex_distance(b.0, b.1, c.0, c.1);
    assert!(ac <= ab + bc);
}

#[test]
fn path_to_self_is_the_single_cell() {
    let g = HexNavGrid::new(3, 3);
    assert_eq!(g.find_path_bidirectional((1, 1), (1, 1)), Some(vec![(1, 1)]));
}

#[test]
fn no_path_from_or_to_a_blocked_or_outside_cell() {
    let mut g = HexNavGrid::new(3, 3);
    g.set_cell(0, 0, false, 1);
    assert_eq!(g.find_path_bidirectional((0, 0), (2, 2)), None);
    assert_eq!(g.find_path_bidirectional((2, 2), (0, 0)), None);
    assert_eq!(g.find_path_bidirectional((9, 9), (1, 1)), None);
    assert_eq!(g.find_path_bidirectional((0, 0), (0, 0)), None);
}

#[test]
fn path_between_neighbours_is_two_cells() {
    let g = HexNavGrid::new(3, 3);
    let p = g.find_path_bidirectional((0, 0), (1, 0)).unwrap();
    assert_eq!(p, vec![(0, 0), (1, 0)]);
}

#[test]
fn path_on_open_grid_is_a_shortest_walk() {
    let g = HexNavGrid::new(5, 5);
    let start = (-4, 2);
    let target = (3, -3);
    let p = g.find_path_bidirectional(start, target).unwrap();
    check_walk(&g, &p, start, target);
    let d = HexNavGrid::hex_distance(start.0, start.1, target.0, target.1);
    assert_eq!(p.len() as i32, d + 1);
}

#[test]
fn path_goes_around_walls() {
    let g = setup_hex_nav_grid();
    let start = (0, 0);
    let target = (4, 0);
    let p = g.find_path_bidirectional(start, target).unwrap();
    check_walk(&g, &p, start, target);
    for wall in [(2, -1), (2, 0), (2, 1), (2, 2)] {
        assert!(!p.contains(&wall));
    }
    assert!(p.len() > 5, "the straight way of 5 cells is walled off");
}

#[test]
fn no_path_to_an_enclosed_cell() {
    let mut g = HexNavGrid::new(4, 4);
    for (q, r) in HexNavGrid::neighbors(2, 0) {
        g.set_cell(q, r, false, 1);
    }
    assert_eq!(g.find_path_bidirectional((-3, 0), (2, 0)), None);
    assert_eq!(g.find_path_bidirectional((2, 0), (-3, 0)), None);
}

#[test]
fn path_prefers_cheap_cells() {
    let mut g = HexNavGrid::new(3, 3);
    // make the straight line expensive
    g.set_cell(0, 0, true, 50);
    let p = g.find_path_bidirectional((-2, 0), (2, 0)).unwrap();
    check_walk(&g, &p, (-2, 0), (2, 0));
    assert!(!p.contains(&(0, 0)));
}

#[test]
fn path_with_zero_cost_cells_still_ends() {
    let mut g = HexNavGrid::new(3, 2);
    for ((q, r), _) in g.iter_cells() {
        g.set_cell(q, r, true, 0);
    }
    let p = g.find_path_bidirectional((-3, 2), (3, -2)).unwrap();
    check_walk(&g, &p, (-3, 2), (3, -2));
}

#[test]
fn setup_grid_has_the_walls() {
    let g = setup_hex_nav_grid();
    assert!(g.in_bounds(80, 70));
    assert!(!g.in_bounds(81, 0));
    assert!(!g.in_bounds(0, 71));
    for (q, r) in [(2, -1), (2, 0), (2, 1), (2, 2), (-3, 1), (-3, 3), (0, -3), (1, -3), (2, -3)] {
        assert_eq!(g.get_cell(q, r), Some(&CellData { walkable: false, cost: u32::MAX }));
    }
    assert_eq!(g.get_cell(0, 0), Some(&CellData { walkable: true, cost: 1 }));
    assert_eq!(g.iter_cells().len(), 161 * 141);
}

#[test]
fn priority_node_order_is_reversed_priority() {
    let low = PriorityNode { priority: 1, q: 0, r: 0 };
    let high = PriorityNode { priority: 5, q: 9, r: 9 };
    assert_eq!(low.cmp(&high), Ordering::Greater);
    assert_eq!(high.cmp(&low), Ordering::Less);
    assert_eq!(low.cmp(&PriorityNode { priority: 1, q: 3, r: 3 }), Ordering::Equal);
    assert_eq!(high.partial_cmp(&low), Some(Ordering::Less));
}

#[test]
fn frontier_pops_lowest_priority_first() {
    let mut f = Frontier::new();
    assert!(f.is_empty());
    assert_eq!(f.pop(), None);
    for (p, q) in [(7u64, 0), (3, 1), (9, 2), (1, 3), (3, 4)] {
        f.push(PriorityNode { priority: p, q, r: 0 });
    }
    assert_eq!(f.len(), 5);
    let mut got = Vec::new();
    while let Some(n) = f.pop() {
        got.push(n.priority);
    }
    assert_eq!(got, vec![1, 3, 3, 7, 9]);
    assert!(f.is_empty());
}

#[test]
fn nav_path_walks_from_the_last_entry() {
    let mut nav = NavPath { path: vec![(0, 0), (1, 0), (2, 0)] };
    assert_eq!(nav.next_waypoint(), Some((2, 0)));
    nav.waypoint_reached();
    assert_eq!(nav.next_waypoint(), Some((1, 0)));
    nav.waypoint_reached();
    nav.waypoint_reached();
    assert_eq!(nav.next_waypoint(), None);
    nav.waypoint_reached();
    assert!(nav.path.is_empty());
}

#[test]
fn path_exists_both_ways_or_neither() {
    let mut g = HexNavGrid::new(4, 4);
    for (q, r) in HexNavGrid::neighbors(2, 0) {
        g.set_cell(q, r, false, 1);
    }
    g.set_cell(-1, -1, true, 9);
    let pairs = [((-3, 0), (2, 0)), ((-3, 0), (3, 3)), ((0, 0), (-4, 4)), ((2, 0), (2, 0))];
    for (a, b) in pairs {
        let there = g.find_path_bidirectional(a, b);
        let back = g.find_path_bidirectional(b, a);
        assert_eq!(there.is_some(), back.is_some(), "{:?} {:?}", a, b);
    }
}

#[test]
fn found_paths_are_never_shorter_than_the_distance() {
    let g = setup_hex_nav_grid();
    for (a, b) in [((0, 0), (4, 0)), ((-5, 5), (6, -6)), ((3, -3), (-4, 2)), ((10, 10), (12, 9))] {
        let p = g.find_path_bidirectional(a, b).unwrap();
        check_walk(&g, &p, a, b);
        assert!(p.len() as i32 - 1 >= HexNavGrid::hex_distance(a.0, a.1, b.0, b.1));
    }
}

#[test]
fn set_then_get_reads_back_the_write() {
    let mut g = HexNavGrid::new(3, 2);
    let before = g.iter_cells();
    g.set_cell(-2, 1, false, 42);
    assert_eq!(g.get_cell(-2, 1), Some(&CellData { walkable: false, cost: 42 }));
    let after = g.iter_cells();
    let changed: Vec<_> = before.iter().zip(after.iter()).filter(|(x, y)| x != y).collect();
    assert_eq!(changed.len(), 1);
    assert_eq!((changed[0].1).0, (-2, 1));
}

#[test]
fn unreachable_cell_on_big_grid_gives_none() {
    let mut g = setup_hex_nav_grid();
    for (q, r) in HexNavGrid::neighbors(40, 40) {
        g.set_cell(q, r, false, u32::MAX);
    }
    assert_eq!(g.find_path_bidirectional((0, 0), (40, 40)), None);
}

#[test]
fn frontier_sorts_many_nodes() {
    let mut f = Frontier::new();
    let mut x: u64 = 12345;
    let mut pushed = Vec::new();
    for i in 0..200 {
        x = x.wrapping_mul(6364136223846793005).wrapping_add(1442695040888963407);
        let p = (x >> 33) % 50;
        pushed.push(p);
        f.push(PriorityNode { priority: p, q: i, r: -i });
        if i % 7 == 3 {
            let n = f.pop().unwrap();
            let min = *pushed.iter().min().unwrap();
            assert_eq!(n.priority, min);
            let at = pushed.iter().position(|v| *v == min).unwrap();
            pushed.remove(at);
        }
    }
    assert_eq!(f.len(), pushed.len());
    pushed.sort();
    let mut got = Vec::new();
    while let Some(n) = f.pop() {
        got.push(n.priority);
    }
    assert_eq!(got, pushed);
}

#[test]
fn negative_radii_give_cells_outside_the_bounds() {
    let g = HexNavGrid::new(-1, -1);
    assert!(!g.in_bounds(0, 0));
    assert!(!g.in_bounds(1, 1));
    assert_eq!(g.get_cell(0, 0), None);
    assert_eq!(g.iter_cells(), vec![((1, 1), CellData { walkable: true, cost: 1 })]);
    assert_eq!(g.find_path_bidirectional((0, 0), (0, 0)), None);

    let mut h = HexNavGrid::new(-2, -1);
    h.set_cell(2, 1, false, 9);
    let cells: Vec<_> = h.iter_cells().into_iter().map(|(c, _)| c).collect();
    assert_eq!(cells, vec![(2, 1), (3, 1), (4, 1)]);
    assert!(h.iter_cells().iter().all(|(_, c)| *c == CellData::default()));
}

#[test]
fn straight_row_gives_the_straight_path() {
    let g = HexNavGrid::new(2, 0);
    assert_eq!(
        g.find_path_bidirectional((-2, 0), (2, 0)),
        Some(vec![(-2, 0), (-1, 0), (0, 0), (1, 0), (2, 0)])
    );
}

#[test]
fn found_paths_never_repeat_a_cell() {
    let mut g = setup_hex_nav_grid();
    g.set_cell(5, 5, true, 0);
    g.set_cell(6, 5, true, 0);
    for (a, b) in [((0, 0), (4, 0)), ((-5, 5), (6, -6)), ((3, -3), (-4, 2)), ((5, 5), (7, 5))] {
        let p = g.find_path_bidirectional(a, b).unwrap();
        let mut seen = std::collections::HashSet::new();
        for c in &p {
            assert!(seen.insert(*c), "{:?} repeats", c);
            assert!(g.in_bounds(c.0, c.1));
        }
    }
}

#[test]
fn radius_q_reads_back() {
    assert_eq!(HexNavGrid::new(3, 1).radius_q(), 3);
    assert_eq!(HexNavGrid::new(-2, -1).radius_q(), -2);
}
