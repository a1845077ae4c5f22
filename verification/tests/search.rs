use stara::grid::Grid;
use stara::grid::VectorU;
use stara::AStar;
use stara::IMPASSABLE;

#[test]
fn test_horizontal_path_no_obstacles() {
    let start = VectorU::new(0, 0);
    let goal = VectorU::new(5, 0);
    let width: u32 = 6;
    let height: u32 = 1;
    let size = VectorU {
        x: width,
        y: height,
    };

    let grid = Grid::new(size, 1);
    let path = AStar::search(start, goal, &grid).unwrap();

    let expected_path = vec![
        VectorU::new(0, 0),
        VectorU::new(1, 0),
        VectorU::new(2, 0),
        VectorU::new(3, 0),
        VectorU::new(4, 0),
        VectorU::new(5, 0),
    ];

    assert_eq!(path, expected_path);
}

#[test]
fn test_path_around_obstacle() {
    let start = VectorU::new(0, 0);
    let goal = VectorU::new(5, 0);
    let width: u32 = 6;
    let height: u32 = 3;
    let size = VectorU {
        x: width,
        y: height,
    };

    let mut grid = Grid::new(size, 1);
    grid.set_cost(VectorU::new(3, 0), IMPASSABLE);
    grid.set_cost(VectorU::new(3, 1), IMPASSABLE);

    let path = AStar::search(start, goal, &grid).unwrap();

    let expected_path = vec![
        VectorU::new(0, 0),
        VectorU::new(1, 0),
        VectorU::new(2, 0),
        VectorU::new(2, 1),
        VectorU::new(2, 2),
        VectorU::new(3, 2),
        VectorU::new(4, 2),
        VectorU::new(5, 2),
        VectorU::new(5, 1),
        VectorU::new(5, 0),
    ];

    assert_eq!(path, expected_path);
}

#[test]
fn test_no_path() {
    let start = VectorU::new(0, 0);
    let goal = VectorU::new(5, 0);
    let width: u32 = 6;
    let height: u32 = 1;

    let size = VectorU {
        x: width,
        y: height,
    };

    let mut grid = Grid::new(size, 1);
    grid.set_cost(VectorU::new(3, 0), IMPASSABLE);
    grid.set_cost(VectorU::new(4, 0), IMPASSABLE);
    grid.set_cost(VectorU::new(5, 0), IMPASSABLE);

    let path = AStar::search(start, goal, &grid);

    assert!(path.is_none());
}

#[test]
fn test_shortest_path_with_high_cost() {
    let start = VectorU::new(0, 0);
    let goal = VectorU::new(4, 4);
    let width: u32 = 5;
    let height: u32 = 5;

    let size = VectorU {
        x: width,
        y: height,
    };

    let mut grid = Grid::new(size, 1);
    grid.set_cost(VectorU::new(2, 1), 10);
    grid.set_cost(VectorU::new(2, 2), 10);
    grid.set_cost(VectorU::new(2, 3), 10);

    let path = AStar::search(start, goal, &grid).unwrap();

    let expected_path = vec![
        VectorU::new(0, 0),
        VectorU::new(1, 0),
        VectorU::new(1, 1),
        VectorU::new(1, 2),
        VectorU::new(1, 3),
        VectorU::new(1, 4),
        VectorU::new(2, 4),
        VectorU::new(3, 4),
        VectorU::new(4, 4),
    ];

    assert_eq!(path, expected_path);
}

#[test]
fn test_two_agents() {
    let start = VectorU::new(0, 0);
    let goal = VectorU::new(4, 4);
    let width: u32 = 5;
    let height: u32 = 5;

    let size = VectorU {
        x: width,
        y: height,
    };

    let mut grid = Grid::new(size, 1);
    grid.set_cost(VectorU::new(2, 1), 10);
    grid.set_cost(VectorU::new(2, 2), 10);
    grid.set_cost(VectorU::new(2, 3), 10);

    {
        let path1 = AStar::search(start, goal, &grid).unwrap();

        let expected_path1 = vec![
            VectorU::new(0, 0),
            VectorU::new(1, 0),
            VectorU::new(1, 1),
            VectorU::new(1, 2),
            VectorU::new(1, 3),
            VectorU::new(1, 4),
            VectorU::new(2, 4),
            VectorU::new(3, 4),
            VectorU::new(4, 4),
        ];

        assert_eq!(path1, expected_path1);
    }

    {
        let start2 = VectorU::new(0, 0);
        let goal2 = VectorU::new(4, 0);
        let path2 = AStar::search(start2, goal2, &grid).unwrap();

        let expected_path2 = vec![
            VectorU::new(0, 0),
            VectorU::new(1, 0),
            VectorU::new(2, 0),
            VectorU::new(3, 0),
            VectorU::new(4, 0),
        ];

        assert_eq!(path2, expected_path2);
    }
}

#[test]
fn test_degenerate_search_start_equals_goal() {
    let grid = Grid::new(VectorU::new(4, 4), 1);
    let p = VectorU::new(2, 3);
    let path = AStar::search(p, p, &grid).unwrap();
    assert_eq!(path, vec![p]);
}

#[test]
fn test_optimal_length_on_uniform_grid() {
    // on a uniform unit-cost grid with no obstacles, the path length is
    // 1 + Manhattan distance
    let grid = Grid::new(VectorU::new(10, 10), 1);
    let path = AStar::search(VectorU::new(1, 2), VectorU::new(8, 6), &grid).unwrap();
    assert_eq!(path.len(), 1 + (8 - 1) + (6 - 2));
}

#[test]
fn test_zero_size_grid() {
    let grid = Grid::new(VectorU::new(0, 0), 1);
    assert!(AStar::search(VectorU::new(0, 0), VectorU::new(1, 0), &grid).is_none());
    // start equals goal yields the degenerate single-cell path even here
    let p = VectorU::new(0, 0);
    assert_eq!(AStar::search(p, p, &grid).unwrap(), vec![p]);
}

#[test]
fn test_no_path_goal_sealed_off() {
    // every cell around the goal is impassable
    let mut grid = Grid::new(VectorU::new(5, 5), 1);
    grid.set_cost(VectorU::new(2, 1), IMPASSABLE);
    grid.set_cost(VectorU::new(1, 2), IMPASSABLE);
    grid.set_cost(VectorU::new(3, 2), IMPASSABLE);
    grid.set_cost(VectorU::new(2, 3), IMPASSABLE);
    let path = AStar::search(VectorU::new(0, 0), VectorU::new(2, 2), &grid);
    assert!(path.is_none());
}
