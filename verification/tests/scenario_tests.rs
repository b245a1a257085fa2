//! End-to-end scenarios, replay navigation, and exact-value checks of the
//! shared distance function.

use pathfinder::pathfinder::distance;
use pathfinder::{
    AStarPathfinder, Board, Heuristic, Point, Polygon, Search, SearchVariant,
    VisibilityGraphPathfinder,
};

fn square_board() -> Board {
    Board::new(vec![Polygon::new(vec![
        Point::new(40, 40),
        Point::new(40, 60),
        Point::new(60, 60),
        Point::new(60, 40),
    ])])
}

#[test]
fn scenario_single_square_obstacle() {
    // One axis-aligned square between start and goal: the optimal path routes
    // around one corner, costing strictly more than the unobstructed straight
    // line and exactly the two-leg distance through the cheaper viable corner.
    let board = square_board();
    let start = Point::new(0, 0);
    let goal = Point::new(100, 100);
    let search = VisibilityGraphPathfinder::new(board, start, goal, Heuristic::Euclidean);

    let (path, cost) = search.get_optimal_path().unwrap();
    assert_eq!(*path.first().unwrap(), start);
    assert_eq!(*path.last().unwrap(), goal);

    let straight = distance(&start, &goal);
    assert_eq!(straight, 141);
    assert!(*cost > straight, "Path around the square must cost more than the straight line");

    let corner_a = Point::new(40, 60);
    let corner_b = Point::new(60, 40);
    let via_a = distance(&start, &corner_a) + distance(&corner_a, &goal);
    let via_b = distance(&start, &corner_b) + distance(&corner_b, &goal);
    let cheaper = via_a.min(via_b);
    assert_eq!(*cost, cheaper, "Cost must equal the cheaper one-corner route");

    // The score accessors agree with the recorded outcome: no best path is
    // shown before the final snapshot, and the final snapshot's best path
    // scores exactly the reported cost.
    let found_cost = *cost;
    let mut search = search;
    assert_eq!(search.optimal_path_score(), Some(found_cost));
    assert_eq!(search.best_path_score(), None);
    let last = search.total_steps();
    search.jump_to(last);
    assert_eq!(search.best_path_score(), Some(found_cost));
}

#[test]
fn scenario_empty_board() {
    // No obstacles: the optimal path is exactly [start, goal] and its cost is
    // the truncated Euclidean distance between them.
    let board = Board::new(vec![]);
    let start = Point::new(0, 0);
    let goal = Point::new(30, 40);
    let search = VisibilityGraphPathfinder::new(board, start, goal, Heuristic::Euclidean);

    let (path, cost) = search.get_optimal_path().unwrap();
    assert_eq!(path.len(), 2);
    assert_eq!(path[0], start);
    assert_eq!(path[1], goal);
    assert_eq!(*cost, distance(&start, &goal));
    assert_eq!(*cost, 50);
}

#[test]
fn scenario_no_path() {
    // The goal sits strictly inside an obstacle: no chain of unblocked
    // segments reaches it, so both variants report that no path exists.
    let board = square_board();
    let start = Point::new(0, 0);
    let goal = Point::new(50, 50);
    let vis = VisibilityGraphPathfinder::new(board.clone(), start, goal, Heuristic::Euclidean);
    let inc = AStarPathfinder::new(board, start, goal, Heuristic::Euclidean);
    assert!(vis.get_optimal_path().is_none());
    assert!(inc.get_optimal_path().is_none());
}

fn reopening_board() -> Board {
    // Two small triangles contribute the vertices (8, 4) and (17, 8); in the
    // truncated metric the two-leg route through (8, 4) to (17, 8) costs
    // 8 + 9 = 17 while the direct segment costs 18. A tall wall hides the
    // goal so the run keeps expanding on the near side.
    Board::new(vec![
        Polygon::new(vec![Point::new(8, 4), Point::new(8, 6), Point::new(6, 6)]),
        Polygon::new(vec![Point::new(17, 8), Point::new(17, 10), Point::new(15, 10)]),
        Polygon::new(vec![
            Point::new(19, -30),
            Point::new(19, 40),
            Point::new(20, 40),
            Point::new(20, -30),
        ]),
    ])
}

#[test]
fn reopening_exercised() {
    // Blocking shapes between start and goal, with an overestimating
    // heuristic, drive the incremental variant to revisit a closed vertex
    // with a strictly lower g-score; the final path cost still matches the
    // visibility variant's cost on the identical input.
    let board = reopening_board();
    let start = Point::new(0, 0);
    let goal = Point::new(25, 16);
    let inc = AStarPathfinder::new(board.clone(), start, goal, Heuristic::Manhattan);

    let mut reopened = false;
    let mut ever_closed: Vec<Point> = Vec::new();
    for state in inc.history() {
        for p in state.open.as_vec() {
            if ever_closed.contains(p) {
                reopened = true;
            }
        }
        for p in state.closed.as_vec() {
            if !ever_closed.contains(p) {
                ever_closed.push(*p);
            }
        }
    }
    assert!(reopened, "This board should force at least one reopening");

    let vis = VisibilityGraphPathfinder::new(board, start, goal, Heuristic::Manhattan);
    let (_, inc_cost) = inc.get_optimal_path().unwrap();
    let (_, vis_cost) = vis.get_optimal_path().unwrap();
    assert_eq!(
        inc_cost, vis_cost,
        "Both variants should agree on the path cost for this board"
    );
}

#[test]
fn navigation_idempotence() {
    // jump_to(current_step()) is a no-op; step_forward then step_back
    // restores the prior state exactly; reset() equals jump_to(0).
    let board = square_board();
    let start = Point::new(0, 0);
    let goal = Point::new(100, 100);
    let mut search = VisibilityGraphPathfinder::new(board, start, goal, Heuristic::Euclidean);

    search.step_forward();
    let here = search.current_step();
    let state_here = search.get_state().clone();
    assert!(search.jump_to(here));
    assert_eq!(search.current_step(), here);
    assert_eq!(*search.get_state(), state_here);

    assert!(search.step_forward());
    assert!(search.step_back());
    assert_eq!(search.current_step(), here);
    assert_eq!(*search.get_state(), state_here);

    let mut a = VisibilityGraphPathfinder::new(
        square_board(),
        start,
        goal,
        Heuristic::Euclidean,
    );
    let mut b = VisibilityGraphPathfinder::new(
        square_board(),
        start,
        goal,
        Heuristic::Euclidean,
    );
    a.step_forward();
    b.step_forward();
    a.reset();
    b.jump_to(0);
    assert_eq!(a.current_step(), b.current_step());
    assert_eq!(*a.get_state(), *b.get_state());
}

#[test]
fn navigation_bounds() {
    // Out-of-range jumps fail and change nothing; stepping back at step zero
    // fails and changes nothing.
    let board = square_board();
    let start = Point::new(0, 0);
    let goal = Point::new(100, 100);
    let mut search = VisibilityGraphPathfinder::new(board, start, goal, Heuristic::Euclidean);

    let last = search.total_steps();
    assert!(!search.jump_to(last + 1));
    assert_eq!(search.current_step(), 0);
    assert!(!search.step_back());
    assert_eq!(search.current_step(), 0);

    assert!(search.jump_to(last));
    assert!(search.is_finished());
    assert!(!search.step_forward());
    assert_eq!(search.current_step(), last);
}

#[test]
fn search_selector_dispatch() {
    // The tagged selector runs the chosen variant and exposes the same
    // navigation surface.
    let board = square_board();
    let start = Point::new(0, 0);
    let goal = Point::new(100, 100);
    let mut search = Search::new_for_variant(
        board.clone(),
        start,
        goal,
        Heuristic::Euclidean,
        SearchVariant::AStar,
    );
    assert_eq!(search.variant(), SearchVariant::AStar);
    assert!(search.get_optimal_path().is_some());
    assert!(search.step_forward());
    assert!(search.step_back());
    assert_eq!(search.current_step(), 0);
    search.change_heuristic(Heuristic::Manhattan);
    assert_eq!(search.get_heuristic(), Heuristic::Manhattan);
    assert!(search.get_optimal_path().is_some());
    assert!(search.optimal_path_score().is_some());
    assert_eq!(search.best_path_score(), None);
    let last = search.total_steps();
    search.jump_to(last);
    assert_eq!(search.best_path_score(), search.optimal_path_score());

    let vis = Search::new(board, start, goal, Heuristic::Euclidean);
    assert_eq!(vis.variant(), SearchVariant::VisibilityGraph);
    assert_eq!(vis.get_start(), start);
    assert_eq!(vis.get_goal(), goal);
}

#[test]
fn distance_exact_values() {
    // The one shared distance function truncates the Euclidean length.
    assert_eq!(distance(&Point::new(0, 0), &Point::new(3, 4)), 5);
    assert_eq!(distance(&Point::new(0, 0), &Point::new(1, 1)), 1);
    assert_eq!(distance(&Point::new(0, 0), &Point::new(100, 100)), 141);
    assert_eq!(distance(&Point::new(10, 10), &Point::new(10, 10)), 0);

    let h = Heuristic::Manhattan;
    assert_eq!(h.distance(&Point::new(0, 0), &Point::new(3, 4)), 7);
    let e = Heuristic::Euclidean;
    assert_eq!(e.distance(&Point::new(0, 0), &Point::new(3, 4)), 5);
}

#[test]
fn sample_board_shape() {
    let board = pathfinder::sample_board();
    assert_eq!(board.polygon_count(), 8);
    assert_eq!(board.vertex_count(), 33);
    assert_eq!(board.vertices_per_polygon(), vec![4, 4, 6, 5, 4, 4, 3, 3]);
    let search = Search::new(
        board,
        Point::new(115, 655),
        Point::new(380, 560),
        Heuristic::Euclidean,
    );
    assert!(search.get_optimal_path().is_some());
}
