//! Tests of the incremental (textbook) A* variant.

use pathfinder::search::engine::is_valid_move;
use pathfinder::{AStarPathfinder, Board, Heuristic, Point, Polygon};

fn create_test_board() -> Board {
    let polygons = vec![Polygon::new(vec![
        Point::new(40, 40),
        Point::new(40, 60),
        Point::new(60, 60),
        Point::new(60, 40),
    ])];
    Board::new(polygons)
}

#[test]
fn test_path_found() {
    let board = create_test_board();
    let start = Point::new(0, 0);
    let goal = Point::new(100, 100);
    let search = AStarPathfinder::new(board, start, goal, Heuristic::Euclidean);

    assert!(
        search.get_optimal_path().is_some(),
        "Search should find a path"
    );
}

#[test]
fn test_path_valid() {
    let board = create_test_board();
    let start = Point::new(0, 0);
    let goal = Point::new(100, 100);
    let search = AStarPathfinder::new(board.clone(), start, goal, Heuristic::Euclidean);

    let (path, _) = search.get_optimal_path().unwrap();

    // Check path connects start to goal
    assert_eq!(*path.first().unwrap(), start);
    assert_eq!(*path.last().unwrap(), goal);

    // Check no segments intersect obstacles
    for window in path.windows(2) {
        let from = window[0];
        let to = window[1];
        assert!(
            is_valid_move(search.get_board(), &from, &to),
            "Path segment from {:?} to {:?} intersects obstacle",
            from,
            to
        );
    }
}

#[test]
fn test_nodes_never_reopened() {
    let board = Board::new(vec![Polygon::new(vec![
        Point::new(40, 0),
        Point::new(40, 30),
        Point::new(60, 30),
        Point::new(60, 0),
    ])]);

    let start = Point::new(20, 20);
    let goal = Point::new(80, 20);
    let search = AStarPathfinder::new(board, start, goal, Heuristic::Euclidean);

    // Verify that no node in a closed set ever appears in a later open set
    let mut ever_closed: Vec<Point> = Vec::new();

    for state in search.history() {
        // Check that no previously closed node is in open
        for p in state.open.as_vec() {
            assert!(
                !ever_closed.contains(p),
                "Found reopened node! Open member: {:?}, Previously closed: {:?}",
                p,
                ever_closed
            );
        }

        // Add currently closed nodes to our set
        for p in state.closed.as_vec() {
            if !ever_closed.contains(p) {
                ever_closed.push(*p);
            }
        }
    }
}

#[test]
fn test_path_optimality() {
    // Use same board setup as reopening test
    let board = Board::new(vec![
        Polygon::new(vec![
            Point::new(30, 0),
            Point::new(30, 40),
            Point::new(35, 40),
            Point::new(35, 0),
        ]),
        Polygon::new(vec![
            Point::new(50, 20),
            Point::new(50, 60),
            Point::new(55, 60),
            Point::new(55, 20),
        ]),
        Polygon::new(vec![
            Point::new(70, 0),
            Point::new(70, 40),
            Point::new(75, 40),
            Point::new(75, 0),
        ]),
    ]);

    let start = Point::new(20, 20);
    let goal = Point::new(80, 20);

    // Run with both heuristics to compare
    let euclidean = AStarPathfinder::new(board.clone(), start, goal, Heuristic::Euclidean);
    let manhattan = AStarPathfinder::new(board, start, goal, Heuristic::Manhattan);

    let (euclidean_path, euclidean_cost) = euclidean.get_optimal_path().unwrap();
    let (_manhattan_path, manhattan_cost) = manhattan.get_optimal_path().unwrap();

    // Euclidean heuristic should never produce a longer path
    assert!(
        euclidean_cost <= manhattan_cost,
        "Euclidean path cost ({}) should not exceed Manhattan path cost ({})",
        euclidean_cost,
        manhattan_cost
    );

    // Verify path is valid
    for window in euclidean_path.windows(2) {
        assert!(
            is_valid_move(euclidean.get_board(), &window[0], &window[1]),
            "Invalid move in optimal path: {:?} -> {:?}",
            window[0],
            window[1]
        );
    }
}
