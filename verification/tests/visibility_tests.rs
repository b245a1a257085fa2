//! Tests of the visibility-graph A* variant and the graph builder.

use pathfinder::search::visibility::build_visibility_graph;
use pathfinder::{Board, Heuristic, Point, Polygon, VisibilityGraphPathfinder};

fn create_test_board() -> Board {
    let polygons = vec![Polygon::new(vec![
        Point::new(40, 40),
        Point::new(40, 60),
        Point::new(60, 60),
        Point::new(60, 40),
    ])];
    Board::new(polygons)
}

#[test]
fn test_search_completes() {
    let board = create_test_board();
    let start = Point::new(0, 0);
    let goal = Point::new(100, 100);
    let search = VisibilityGraphPathfinder::new(board, start, goal, Heuristic::Euclidean);

    assert!(
        search.get_optimal_path().is_some(),
        "Search should find a path"
    );
}

#[test]
fn test_path_connects_start_to_goal() {
    let board = create_test_board();
    let start = Point::new(0, 0);
    let goal = Point::new(100, 100);
    let search = VisibilityGraphPathfinder::new(board, start, goal, Heuristic::Euclidean);

    let (path, _) = search.get_optimal_path().unwrap();
    assert_eq!(
        *path.first().unwrap(),
        start,
        "Path should start at start point"
    );
    assert_eq!(*path.last().unwrap(), goal, "Path should end at goal point");
}

#[test]
fn test_consecutive_states_are_different() {
    let board = create_test_board();
    let start = Point::new(0, 0);
    let goal = Point::new(100, 100);
    let mut search = VisibilityGraphPathfinder::new(board, start, goal, Heuristic::Euclidean);

    let total_steps = search.total_steps();
    let mut previous_state = None;

    for step in 0..=total_steps {
        search.jump_to(step);
        let state = search.get_state();
        let current_state = (
            state.open.clone(),
            state.closed.clone(),
            state.considered_edges.clone(),
        );

        if let Some(prev_state) = previous_state {
            assert_ne!(
                current_state, prev_state,
                "State at step {} should be different from previous state",
                step
            );
        }

        previous_state = Some(current_state);
    }
}

#[test]
fn test_path_avoids_obstacles() {
    let board = create_test_board();
    let start = Point::new(0, 0);
    let goal = Point::new(100, 100);
    let search = VisibilityGraphPathfinder::new(board.clone(), start, goal, Heuristic::Euclidean);

    let (path, _) = search.get_optimal_path().unwrap();

    // Check that no line segment in the path intersects with any polygon
    for window in path.windows(2) {
        let from = window[0];
        let to = window[1];

        for polygon in board.polygons() {
            assert!(
                !polygon.intersects_segment(&from, &to),
                "Path segment from {:?} to {:?} intersects with polygon",
                from,
                to
            );
        }
    }
}

#[test]
fn test_heuristic_consistency() {
    let board = create_test_board();
    let start = Point::new(0, 0);
    let goal = Point::new(100, 100);

    // Run search with both heuristics
    let euclidean =
        VisibilityGraphPathfinder::new(board.clone(), start, goal, Heuristic::Euclidean);
    let manhattan = VisibilityGraphPathfinder::new(board, start, goal, Heuristic::Manhattan);

    // Both should find a path
    assert!(euclidean.get_optimal_path().is_some());
    assert!(manhattan.get_optimal_path().is_some());

    let (_, euclidean_score) = euclidean.get_optimal_path().unwrap();
    let (_, manhattan_score) = manhattan.get_optimal_path().unwrap();

    // Euclidean distance is always shortest possible, so its path should never be longer
    assert!(
        euclidean_score <= manhattan_score,
        "Euclidean path length ({}) should not exceed Manhattan path length ({})",
        euclidean_score,
        manhattan_score
    );
}

#[test]
fn test_visibility_graph_properties() {
    let board = create_test_board();
    let start = Point::new(0, 0);
    let goal = Point::new(100, 100);

    let graph = build_visibility_graph(&board, start, goal);

    // Check that start and goal are in the graph
    assert!(
        graph.contains_key(start),
        "Start point should be in visibility graph"
    );
    assert!(
        graph.contains_key(goal),
        "Goal point should be in visibility graph"
    );

    // Check symmetry property: if A can see B, B can see A
    for vertex in graph.keys() {
        let visible = graph.get(vertex).unwrap();
        for neighbor in visible.as_vec() {
            assert!(
                graph.get(*neighbor).unwrap().contains(vertex),
                "Visibility graph should be symmetric: if {:?} sees {:?}, {:?} should see {:?}",
                vertex,
                neighbor,
                neighbor,
                vertex
            );
        }
    }
}

#[test]
fn test_state_history_ends_at_goal() {
    let board = create_test_board();
    let start = Point::new(0, 0);
    let goal = Point::new(100, 100);
    let mut search = VisibilityGraphPathfinder::new(board, start, goal, Heuristic::Euclidean);

    // Move to the final state
    let last = search.total_steps();
    search.jump_to(last);
    let state = search.get_state();

    // The goal should be in either open or closed set
    assert!(
        state.open.contains(goal) || state.closed.contains(goal),
        "Final state should contain goal point"
    );

    // The best path should reach the goal
    assert_eq!(
        state.best_path.as_ref().unwrap().last().unwrap(),
        &goal,
        "Best path should reach goal in final state"
    );
}
