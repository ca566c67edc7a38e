use warehouse_nav::geometry::{clamp_index, Node};
use warehouse_nav::{calculate_path, set_internal_coordinates, testing, NavError, Warehouse, Waypoint};

fn cell_of(w: &Warehouse, p: &Waypoint) -> (i64, i64) {
    ((p.half_widths_x + w.rows() as i64) / 2, p.depths_y + w.cols() as i64)
}

fn cost_of(cells: &[(i64, i64)]) -> i64 {
    let mut total = 0;
    for pair in cells.windows(2) {
        let dx = (pair[0].0 - pair[1].0).abs();
        let dy = (pair[0].1 - pair[1].1).abs();
        assert!(dx <= 1 && dy <= 1 && dx + dy > 0, "cells not adjacent");
        total += if dx == 1 && dy == 1 { 14 } else { 10 };
    }
    total
}

fn node_cost(path: &[Node]) -> i64 {
    let cells: Vec<(i64, i64)> = path.iter().map(|n| (n.x as i64, n.y as i64)).collect();
    cost_of(&cells)
}

fn column_wall(gap: Option<i32>) -> Vec<(i32, i32)> {
    (0..10).filter(|x| Some(*x) != gap).map(|x| (x, 5)).collect()
}

#[test]
fn open_grid_diagonal_route_costs_126() {
    let mut ctx: Option<Warehouse> = None;
    assert_eq!(set_internal_coordinates(&mut ctx, 10, 10, &vec![]), Ok(()));
    let path = calculate_path(&ctx, (0, 0), (9, 9)).unwrap().unwrap();
    let w = ctx.as_ref().unwrap();
    let cells: Vec<(i64, i64)> = path.iter().map(|p| cell_of(w, p)).collect();
    assert_eq!(cells.len(), 10);
    assert_eq!(cells[0], (9, 9));
    assert_eq!(cells[9], (0, 0));
    assert_eq!(cost_of(&cells), 126);
}

#[test]
fn open_grid_cost_equals_octile_distance() {
    let w = Warehouse::new(10, 7, &vec![]).unwrap();
    let pairs = [((0, 0), (9, 6)), ((2, 5), (8, 1)), ((4, 4), (4, 0)), ((9, 0), (0, 3))];
    for (s, g) in pairs {
        let start = Node::new(s.0, s.1);
        let goal = Node::new(g.0, g.1);
        let path = w.find_path(start, goal).unwrap();
        assert_eq!(path[0], goal);
        assert_eq!(*path.last().unwrap(), start);
        assert_eq!(node_cost(&path), start.get_distance(&goal));
    }
}

#[test]
fn wall_with_gap_routes_through_gap() {
    let w = Warehouse::new(10, 10, &column_wall(Some(3))).unwrap();
    let start = Node::new(0, 0);
    let goal = Node::new(9, 9);
    let path = w.find_path(start, goal).unwrap();
    assert!(path.contains(&Node::new(3, 5)));
    assert_eq!(node_cost(&path), 138);
    for n in &path {
        assert!(n.y != 5 || n.x == 3);
    }
    assert_eq!(path[0], goal);
    assert_eq!(*path.last().unwrap(), start);
}

#[test]
fn full_wall_gives_no_path() {
    let mut ctx: Option<Warehouse> = None;
    set_internal_coordinates(&mut ctx, 10, 10, &column_wall(None)).unwrap();
    assert_eq!(calculate_path(&ctx, (0, 0), (9, 9)), Ok(None));
}

#[test]
fn enclosed_goal_gives_no_path() {
    let mut ring = Vec::new();
    for dx in -1..=1 {
        for dy in -1..=1 {
            if dx != 0 || dy != 0 {
                ring.push((5 + dx, 5 + dy));
            }
        }
    }
    let w = Warehouse::new(10, 10, &ring).unwrap();
    assert_eq!(w.find_path(Node::new(0, 0), Node::new(5, 5)), None);
    assert_eq!(w.find_path(Node::new(5, 5), Node::new(0, 0)).is_some(), false);
}

#[test]
fn start_equal_to_goal_is_one_cell() {
    let w = Warehouse::new(4, 4, &vec![(2, 2)]).unwrap();
    assert_eq!(w.find_path(Node::new(2, 2), Node::new(2, 2)), Some(vec![Node::new(2, 2)]));
}

#[test]
fn occupied_start_can_leave() {
    let w = Warehouse::new(3, 3, &vec![(0, 0)]).unwrap();
    let path = w.find_path(Node::new(0, 0), Node::new(2, 2)).unwrap();
    assert_eq!(path, vec![Node::new(2, 2), Node::new(1, 1), Node::new(0, 0)]);
}

#[test]
fn dimensions_must_be_positive() {
    assert!(matches!(Warehouse::new(0, 5, &vec![]), Err(NavError::InvalidDimensions)));
    assert!(matches!(Warehouse::new(5, -1, &vec![]), Err(NavError::InvalidDimensions)));
    let w = Warehouse::new(1, 1, &vec![]).unwrap();
    assert_eq!((w.rows(), w.cols()), (1, 1));
}

#[test]
fn failed_configuration_keeps_previous_context() {
    let mut ctx: Option<Warehouse> = None;
    set_internal_coordinates(&mut ctx, 2, 3, &vec![]).unwrap();
    assert_eq!(set_internal_coordinates(&mut ctx, 0, 3, &vec![]), Err(NavError::InvalidDimensions));
    let w = ctx.as_ref().unwrap();
    assert_eq!((w.rows(), w.cols()), (2, 3));
}

#[test]
fn queries_before_configuration_fail() {
    let ctx: Option<Warehouse> = None;
    assert_eq!(calculate_path(&ctx, (0, 0), (1, 1)), Err(NavError::NotConfigured));
    assert_eq!(testing(&ctx), Err(NavError::NotConfigured));
}

#[test]
fn grid_coordinates_are_clamped() {
    let w = Warehouse::new(10, 6, &vec![]).unwrap();
    assert_eq!(w.get_grid_coordinate(-5, 100), Node::new(0, 5));
    assert_eq!(w.get_grid_coordinate(i32::MAX, i32::MIN), Node::new(9, 0));
    assert_eq!(w.get_grid_coordinate(4, 3), Node::new(4, 3));
    assert_eq!(clamp_index(10, 10), 9);
    assert_eq!(clamp_index(-1, 10), 0);
}

#[test]
fn real_coordinates_of_cells() {
    let w = Warehouse::new(10, 10, &vec![]).unwrap();
    let corner = w.get_real_coordinate(Node::new(0, 0));
    assert_eq!((corner.half_widths_x, corner.depths_y), (-10, -10));
    let far = w.get_real_coordinate(Node::new(9, 9));
    assert_eq!((far.half_widths_x, far.depths_y), (8, -1));
    let odd = Warehouse::new(5, 3, &vec![]).unwrap();
    let mid = odd.get_real_coordinate(Node::new(2, 1));
    assert_eq!((mid.half_widths_x, mid.depths_y), (-1, -2));
}

#[test]
fn octile_distance_values() {
    assert_eq!(Node::new(0, 0).get_distance(&Node::new(3, 5)), 62);
    assert_eq!(Node::new(7, 1).get_distance(&Node::new(0, 1)), 70);
    assert_eq!(Node::new(2, 2).get_distance(&Node::new(2, 2)), 0);
    assert_eq!(Node::new(0, 0).get_distance(&Node::new(9, 9)), 126);
}

#[test]
fn neighbors_stay_inside_grid() {
    assert_eq!(
        Node::new(0, 0).get_neighbors(3, 3),
        vec![Node::new(0, 1), Node::new(1, 0), Node::new(1, 1)]
    );
    assert_eq!(Node::new(1, 1).get_neighbors(3, 3).len(), 8);
    assert_eq!(Node::new(0, 0).get_neighbors(1, 1).len(), 0);
}

#[test]
fn occupancy_dump_is_column_major_and_repeatable() {
    let mut ctx: Option<Warehouse> = None;
    set_internal_coordinates(&mut ctx, 3, 2, &vec![(2, 0), (0, 1), (0, 1), (-4, 9)]).unwrap();
    let first = testing(&ctx).unwrap();
    let second = testing(&ctx).unwrap();
    assert_eq!(first, vec![vec![0, 0, 1], vec![1, 0, 0]]);
    assert_eq!(first, second);
}

#[test]
fn occupancy_queries() {
    let w = Warehouse::new(4, 4, &vec![(1, 2)]).unwrap();
    assert_eq!(w.is_occupied(Node::new(1, 2)), Ok(true));
    assert_eq!(w.is_occupied(Node::new(2, 1)), Ok(false));
    assert_eq!(w.is_occupied(Node::new(4, 0)), Err(NavError::OutOfRange));
    assert_eq!(w.is_occupied(Node::new(0, -1)), Err(NavError::OutOfRange));
}

#[test]
fn neighbors_in_row_then_column_offset_order() {
    assert_eq!(
        Node::new(0, 0).get_neighbors(10, 10),
        vec![Node::new(0, 1), Node::new(1, 0), Node::new(1, 1)]
    );
    assert_eq!(
        Node::new(5, 5).get_neighbors(10, 10),
        vec![
            Node::new(4, 4),
            Node::new(4, 5),
            Node::new(4, 6),
            Node::new(5, 4),
            Node::new(5, 6),
            Node::new(6, 4),
            Node::new(6, 5),
            Node::new(6, 6),
        ]
    );
    assert_eq!(
        Node::new(9, 3).get_neighbors(10, 10),
        vec![Node::new(8, 2), Node::new(8, 3), Node::new(8, 4), Node::new(9, 2), Node::new(9, 4)]
    );
}

#[test]
fn repeated_queries_return_the_same_route() {
    let mut ctx: Option<Warehouse> = None;
    set_internal_coordinates(&mut ctx, 8, 8, &vec![(3, 3), (3, 4), (4, 3)]).unwrap();
    let first = calculate_path(&ctx, (0, 0), (7, 7));
    let second = calculate_path(&ctx, (0, 0), (7, 7));
    assert!(first.as_ref().unwrap().is_some());
    assert_eq!(first, second);
}

#[test]
fn equal_priority_ties_follow_insertion_order() {
    let w = Warehouse::new(3, 3, &vec![]).unwrap();
    // From (0,0) to (2,0): the straight route is the only shortest one.
    assert_eq!(
        w.find_path(Node::new(0, 0), Node::new(2, 0)),
        Some(vec![Node::new(2, 0), Node::new(1, 0), Node::new(0, 0)])
    );
    // From (0,0) to (2,1) two routes cost 24, through (1,0) or through (1,1).
    // Both neighbours get priority 24; (1,0) was inserted first, so it is
    // expanded first and reaches the goal's entry first.
    assert_eq!(
        w.find_path(Node::new(0, 0), Node::new(2, 1)),
        Some(vec![Node::new(2, 1), Node::new(1, 0), Node::new(0, 0)])
    );
}
