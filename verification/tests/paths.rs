use workpool::astar::{astar, Grid, Position};
use workpool::dijkstra::{create_sample_graph, dijkstra};

#[test]
fn dijkstra_on_the_sample_graph() {
    let graph = create_sample_graph();
    let distances = dijkstra(&graph, 0);

    // the start node itself is never relaxed, so it keeps the
    // "unreached" marker
    let expected: Vec<usize> = vec![
        usize::MAX,
        1,
        2,
        3,
        1,
        1,
        2,
        3,
        2,
        2,
        2,
        3,
        3,
        3,
        3,
        3,
    ];
    assert_eq!(distances, expected);
}

#[test]
fn dijkstra_unreachable_nodes_stay_at_max() {
    // two nodes, no edges at all
    let graph: Vec<Vec<(usize, usize)>> = vec![vec![], vec![]];
    let distances = dijkstra(&graph, 0);
    assert_eq!(distances, vec![usize::MAX, usize::MAX]);
}

#[test]
fn astar_routes_around_the_wall() {
    let mut grid = Grid::new(10, 10);
    for y in 2..8 {
        grid.add_obstacle(Position::new(5, y));
    }

    let start = Position::new(1, 5);
    let goal = Position::new(8, 5);

    let (path, cost) = astar(&grid, start, goal).expect("a path exists around the wall");

    assert_eq!(cost, 13);
    assert_eq!(path.len(), 14);
    assert_eq!(path[0], start);
    assert_eq!(path[path.len() - 1], goal);

    // every step moves to an adjacent, unblocked cell
    for w in path.windows(2) {
        let dx = (w[0].x - w[1].x).abs();
        let dy = (w[0].y - w[1].y).abs();
        assert_eq!(dx + dy, 1);
        assert!(grid.is_valid(&w[1]));
    }
}

#[test]
fn astar_reports_no_path_through_a_full_wall() {
    let mut grid = Grid::new(3, 3);
    for y in 0..3 {
        grid.add_obstacle(Position::new(1, y));
    }
    let start = Position::new(0, 1);
    let goal = Position::new(2, 1);
    assert!(astar(&grid, start, goal).is_none());
}

#[test]
fn astar_start_equals_goal() {
    let grid = Grid::new(4, 4);
    let p = Position::new(2, 2);
    let (path, cost) = astar(&grid, p, p).expect("the trivial path exists");
    assert_eq!(cost, 0);
    assert_eq!(path, vec![p]);
}

#[test]
fn astar_answers_off_grid_queries_directly() {
    let grid = Grid::new(5, 5);

    // endpoints without a cell slot are reported unreachable
    assert!(astar(&grid, Position::new(-1, 2), Position::new(2, 2)).is_none());
    assert!(astar(&grid, Position::new(2, 2), Position::new(7, 2)).is_none());

    // a degenerate grid has no slots at all
    let empty = Grid::new(0, 3);
    assert!(astar(&empty, Position::new(0, 0), Position::new(0, 1)).is_none());

    // a cell reaches itself trivially, wherever it lies
    let p = Position::new(-3, -3);
    let (path, cost) = astar(&grid, p, p).expect("the trivial path exists");
    assert_eq!(path, vec![p]);
    assert_eq!(cost, 0);
}

#[test]
fn manhattan_distance_is_the_coordinate_gap() {
    let a = Position::new(1, 5);
    let b = Position::new(8, 2);
    assert_eq!(a.manhattan_distance(&b), 10);
    assert_eq!(b.manhattan_distance(&a), 10);
    assert_eq!(a.manhattan_distance(&a), 0);
}
