use stara::grid::Grid;
use stara::grid::VectorU;
use stara::los::has_line_of_sight;
use stara::AStar;
use stara::reduce::reduce;
use stara::IMPASSABLE;

#[test]
fn test_line_of_sight_clear_and_blocked() {
    let mut grid = Grid::new(VectorU::new(8, 8), 1);
    assert!(has_line_of_sight(
        &grid,
        VectorU::new(0, 0),
        VectorU::new(7, 0),
        IMPASSABLE
    ));
    grid.set_cost(VectorU::new(4, 0), IMPASSABLE);
    assert!(!has_line_of_sight(
        &grid,
        VectorU::new(0, 0),
        VectorU::new(7, 0),
        IMPASSABLE
    ));
}

#[test]
fn test_line_of_sight_out_of_bounds_fails() {
    let grid = Grid::new(VectorU::new(4, 4), 1);
    assert!(!has_line_of_sight(
        &grid,
        VectorU::new(0, 0),
        VectorU::new(6, 0),
        IMPASSABLE
    ));
}

#[test]
fn test_line_of_sight_respects_threshold() {
    let mut grid = Grid::new(VectorU::new(8, 1), 1);
    grid.set_cost(VectorU::new(3, 0), 10);
    // a cell of cost 10 blocks under threshold 10 but not under 11
    assert!(!has_line_of_sight(
        &grid,
        VectorU::new(0, 0),
        VectorU::new(7, 0),
        10
    ));
    assert!(has_line_of_sight(
        &grid,
        VectorU::new(0, 0),
        VectorU::new(7, 0),
        11
    ));
}

#[test]
fn test_visibility_monotonic_in_threshold() {
    let mut grid = Grid::new(VectorU::new(6, 6), 2);
    grid.set_cost(VectorU::new(2, 2), 7);
    grid.set_cost(VectorU::new(3, 3), 9);
    let a = VectorU::new(0, 0);
    let b = VectorU::new(5, 5);
    let mut seen = false;
    let mut t: u8 = 1;
    while t < 255 {
        let visible = has_line_of_sight(&grid, a, b, t);
        // once visible under some threshold, raising it never blocks again
        if seen {
            assert!(visible);
        }
        seen = visible;
        t += 1;
    }
}

#[test]
fn test_diagonal_corner_cut_blocked() {
    // the diagonal from (0,0) to (2,2) passes between (0,1) and (1,0);
    // blocking either corner breaks visibility
    let mut grid = Grid::new(VectorU::new(3, 3), 1);
    assert!(has_line_of_sight(
        &grid,
        VectorU::new(0, 0),
        VectorU::new(2, 2),
        IMPASSABLE
    ));
    grid.set_cost(VectorU::new(0, 1), IMPASSABLE);
    grid.set_cost(VectorU::new(1, 0), IMPASSABLE);
    assert!(!has_line_of_sight(
        &grid,
        VectorU::new(0, 0),
        VectorU::new(2, 2),
        IMPASSABLE
    ));
}

#[test]
fn test_reduce_empty_and_single() {
    let grid = Grid::new(VectorU::new(4, 4), 1);
    let empty: Vec<VectorU> = vec![];
    assert_eq!(reduce(&grid, &empty), vec![]);
    let single = vec![VectorU::new(1, 1)];
    assert_eq!(reduce(&grid, &single), single);
}

#[test]
fn test_reduce_straight_path_keeps_endpoints() {
    let grid = Grid::new(VectorU::new(6, 1), 1);
    let path = vec![
        VectorU::new(0, 0),
        VectorU::new(1, 0),
        VectorU::new(2, 0),
        VectorU::new(3, 0),
        VectorU::new(4, 0),
        VectorU::new(5, 0),
    ];
    let waypoints = reduce(&grid, &path);
    assert_eq!(waypoints, vec![VectorU::new(0, 0), VectorU::new(5, 0)]);
}

#[test]
fn test_reduce_path_around_obstacle() {
    let mut grid = Grid::new(VectorU::new(6, 3), 1);
    grid.set_cost(VectorU::new(3, 0), IMPASSABLE);
    grid.set_cost(VectorU::new(3, 1), IMPASSABLE);
    let path = vec![
        VectorU::new(0, 0),
        VectorU::new(1, 0),
        VectorU::new(2, 0),
        VectorU::new(2, 1),
        VectorU::new(2, 2),
        VectorU::new(3, 2),
        VectorU::new(4, 2),
        VectorU::new(5, 2),
        VectorU::new(5, 1),
        VectorU::new(5, 0),
    ];
    let waypoints = reduce(&grid, &path);
    // endpoints are always kept
    assert_eq!(*waypoints.first().unwrap(), VectorU::new(0, 0));
    assert_eq!(*waypoints.last().unwrap(), VectorU::new(5, 0));
    assert!(waypoints.len() < path.len());
    // every consecutive pair of waypoints sees each other
    for w in waypoints.windows(2) {
        assert!(has_line_of_sight(&grid, w[0], w[1], IMPASSABLE));
    }
}

#[test]
fn test_reduce_idempotent_on_reduced_list() {
    let mut grid = Grid::new(VectorU::new(6, 3), 1);
    grid.set_cost(VectorU::new(3, 0), IMPASSABLE);
    grid.set_cost(VectorU::new(3, 1), IMPASSABLE);
    let path = vec![
        VectorU::new(0, 0),
        VectorU::new(1, 0),
        VectorU::new(2, 0),
        VectorU::new(2, 1),
        VectorU::new(2, 2),
        VectorU::new(3, 2),
        VectorU::new(4, 2),
        VectorU::new(5, 2),
        VectorU::new(5, 1),
        VectorU::new(5, 0),
    ];
    let waypoints = reduce(&grid, &path);
    let again = reduce(&grid, &waypoints);
    assert_eq!(waypoints, again);
}

#[test]
fn test_search_then_reduce_end_to_end() {
    let mut grid = Grid::new(VectorU::new(8, 8), 1);
    let mut y: u32 = 0;
    while y < 6 {
        grid.set_cost(VectorU::new(4, y), IMPASSABLE);
        y += 1;
    }
    let start = VectorU::new(0, 0);
    let goal = VectorU::new(7, 0);
    let path = AStar::search(start, goal, &grid).unwrap();
    let waypoints = reduce(&grid, &path);
    assert_eq!(*waypoints.first().unwrap(), start);
    assert_eq!(*waypoints.last().unwrap(), goal);
    assert!(waypoints.len() <= path.len());
    for w in waypoints.windows(2) {
        assert!(has_line_of_sight(&grid, w[0], w[1], IMPASSABLE));
    }
}

#[test]
fn test_grid_accessors() {
    let mut grid = Grid::new(VectorU::new(3, 2), 5);
    assert_eq!(grid.size(), VectorU::new(3, 2));
    assert!(grid.in_bounds(VectorU::new(2, 1)));
    assert!(!grid.in_bounds(VectorU::new(3, 0)));
    assert!(!grid.in_bounds(VectorU::new(0, 2)));
    assert_eq!(grid.cost(VectorU::new(2, 1)), 5);
    grid.set_cost(VectorU::new(2, 1), 9);
    assert_eq!(grid.cost(VectorU::new(2, 1)), 9);
    assert_eq!(grid.cost(VectorU::new(1, 1)), 5);
}
