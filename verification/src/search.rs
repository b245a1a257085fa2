//! The two search strategies and the tagged selector dispatching between
//! them.

pub mod engine;
pub mod simple;
pub mod visibility;

pub use engine::SearchVariant;
pub use simple::AStarPathfinder;
pub use visibility::VisibilityGraphPathfinder;

use vstd::prelude::*;

use crate::board::Board;
use crate::mapset::PointMap;
use crate::pathfinder::{Heuristic, SearchState};
use crate::point::{in_range, Point};
use engine::{nav_back, nav_forward, nav_jump, pf_wf, same_run, PfView};

verus! {

/// A running search of either variant, behind one shared surface.
pub enum Search {
    Visibility(VisibilityGraphPathfinder),
    AStar(AStarPathfinder),
}

/// The view of whichever pathfinder a selector holds.
pub open spec fn search_view(s: Search) -> PfView {
    match s {
        Search::Visibility(p) => p@,
        Search::AStar(p) => p@,
    }
}

/// Whether a selector carries a completed, law-abiding run of its variant;
/// for the visibility variant the graph searched over is exactly the board's
/// visibility relation.
pub open spec fn search_ok(s: Search) -> bool {
    match s {
        Search::Visibility(p) => pf_wf(p@) && visibility::searched(p@) && visibility::graph_matches(
            p@,
        ),
        Search::AStar(p) => pf_wf(p@) && simple::searched(p@),
    }
}

impl Search {
    /// Which variant this search runs.
    pub fn variant(&self) -> (v: SearchVariant)
        ensures
            v == (match self {
                Search::Visibility(_) => SearchVariant::VisibilityGraph,
                Search::AStar(_) => SearchVariant::AStar,
            }),
    {
        match self {
            Search::Visibility(_) => SearchVariant::VisibilityGraph,
            Search::AStar(_) => SearchVariant::AStar,
        }
    }

    /// The snapshot history of the completed run.
    pub fn history(&self) -> (h: &Vec<SearchState>)
        ensures
            h@.len() == search_view(*self).history.len(),
            forall|k: int|
                0 <= k < h@.len() ==> (#[trigger] h@[k])@ == search_view(*self).history[k],
    {
        match self {
            Search::Visibility(p) => p.history(),
            Search::AStar(p) => p.history(),
        }
    }

    /// Runs a fresh search of the chosen variant.
    pub fn new_for_variant(
        board: Board,
        start: Point,
        goal: Point,
        heuristic: Heuristic,
        variant: SearchVariant,
    ) -> (s: Self)
        requires
            in_range(start),
            in_range(goal),
        ensures
            search_ok(s),
            search_view(s).board == board@,
            search_view(s).start == start,
            search_view(s).goal == goal,
            search_view(s).heuristic == heuristic,
            search_view(s).current_step == 0,
            s is Visibility <==> variant == SearchVariant::VisibilityGraph,
    {
        match variant {
            SearchVariant::VisibilityGraph => Search::Visibility(
                VisibilityGraphPathfinder::new(board, start, goal, heuristic),
            ),
            SearchVariant::AStar => Search::AStar(
                AStarPathfinder::new(board, start, goal, heuristic),
            ),
        }
    }

    /// Runs a fresh visibility-graph search, the default variant.
    pub fn new(board: Board, start: Point, goal: Point, heuristic: Heuristic) -> (s: Self)
        requires
            in_range(start),
            in_range(goal),
        ensures
            search_ok(s),
            search_view(s).board == board@,
            search_view(s).start == start,
            search_view(s).goal == goal,
            search_view(s).heuristic == heuristic,
            search_view(s).current_step == 0,
            s is Visibility,
    {
        Search::Visibility(VisibilityGraphPathfinder::new(board, start, goal, heuristic))
    }

    /// The snapshot the replay cursor points at.
    pub fn get_state(&self) -> (st: &SearchState)
        ensures
            st@ == search_view(*self).state,
    {
        match self {
            Search::Visibility(p) => p.get_state(),
            Search::AStar(p) => p.get_state(),
        }
    }

    /// The start vertex.
    pub fn get_start(&self) -> (p: Point)
        ensures
            p == search_view(*self).start,
    {
        match self {
            Search::Visibility(p) => p.get_start(),
            Search::AStar(p) => p.get_start(),
        }
    }

    /// The goal vertex.
    pub fn get_goal(&self) -> (p: Point)
        ensures
            p == search_view(*self).goal,
    {
        match self {
            Search::Visibility(p) => p.get_goal(),
            Search::AStar(p) => p.get_goal(),
        }
    }

    /// The heuristic the run used.
    pub fn get_heuristic(&self) -> (h: Heuristic)
        ensures
            h == search_view(*self).heuristic,
    {
        match self {
            Search::Visibility(p) => p.get_heuristic(),
            Search::AStar(p) => p.get_heuristic(),
        }
    }

    /// The found path and its cost, if one exists.
    ///
    /// The cost is exactly the sum of the path's truncated segment
    /// distances; minimality over all valid paths is not claimed (see
    /// [`engine::run_ok`]).
    pub fn get_optimal_path(&self) -> (r: Option<&(Vec<Point>, i32)>)
        ensures
            match r {
                Some(pc) => search_view(*self).optimal_path == Some((pc.0@, pc.1 as int)),
                None => search_view(*self).optimal_path is None,
            },
    {
        match self {
            Search::Visibility(p) => p.get_optimal_path(),
            Search::AStar(p) => p.get_optimal_path(),
        }
    }

    /// The score of the best path recorded in the snapshot under the cursor.
    pub fn best_path_score(&self) -> (r: Option<i32>)
        requires
            pf_wf(search_view(*self)),
            search_ok(*self),
        ensures
            match search_view(*self).state.best_path {
                Some(bp) => (match r {
                    Some(c) => c as int == engine::path_cost(bp),
                    None => false,
                }),
                None => r is None,
            },
    {
        match self {
            Search::Visibility(p) => p.best_path_score(),
            Search::AStar(p) => p.best_path_score(),
        }
    }

    /// The score of the optimal path, if one was found.
    pub fn optimal_path_score(&self) -> (r: Option<i32>)
        ensures
            match r {
                Some(c) => (match search_view(*self).optimal_path {
                    Some(pc) => pc.1 == c as int,
                    None => false,
                }),
                None => search_view(*self).optimal_path is None,
            },
    {
        match self {
            Search::Visibility(p) => p.optimal_path_score(),
            Search::AStar(p) => p.optimal_path_score(),
        }
    }

    /// The index of the last step of the recorded history.
    pub fn total_steps(&self) -> (n: usize)
        requires
            pf_wf(search_view(*self)),
        ensures
            n == search_view(*self).history.len() - 1,
    {
        match self {
            Search::Visibility(p) => p.total_steps(),
            Search::AStar(p) => p.total_steps(),
        }
    }

    /// The replay cursor.
    pub fn current_step(&self) -> (n: usize)
        ensures
            n == search_view(*self).current_step,
    {
        match self {
            Search::Visibility(p) => p.current_step(),
            Search::AStar(p) => p.current_step(),
        }
    }

    /// Whether the cursor stands at the last recorded step.
    pub fn is_finished(&self) -> (r: bool)
        requires
            pf_wf(search_view(*self)),
        ensures
            r == (search_view(*self).current_step == search_view(*self).history.len() - 1),
    {
        match self {
            Search::Visibility(p) => p.is_finished(),
            Search::AStar(p) => p.is_finished(),
        }
    }

    /// Advances one recorded step; a no-op returning false at the last step.
    pub fn step_forward(&mut self) -> (r: bool)
        requires
            pf_wf(search_view(*old(self))),
        ensures
            pf_wf(search_view(*final(self))),
            same_run(search_view(*old(self)), search_view(*final(self))),
            (*final(self)) is Visibility <==> (*old(self)) is Visibility,
            search_view(*final(self)).current_step == nav_forward(
                search_view(*old(self)).history.len() as int,
                search_view(*old(self)).current_step,
            ),
            r == (search_view(*old(self)).current_step < search_view(*old(self)).history.len()
                - 1),
    {
        match self {
            Search::Visibility(p) => p.step_forward(),
            Search::AStar(p) => p.step_forward(),
        }
    }

    /// Retreats one recorded step; a no-op returning false at step zero.
    pub fn step_back(&mut self) -> (r: bool)
        requires
            pf_wf(search_view(*old(self))),
        ensures
            pf_wf(search_view(*final(self))),
            same_run(search_view(*old(self)), search_view(*final(self))),
            (*final(self)) is Visibility <==> (*old(self)) is Visibility,
            search_view(*final(self)).current_step == nav_back(
                search_view(*old(self)).current_step,
            ),
            r == (search_view(*old(self)).current_step > 0),
    {
        match self {
            Search::Visibility(p) => p.step_back(),
            Search::AStar(p) => p.step_back(),
        }
    }

    /// Moves the cursor to step `step`; a no-op returning false when `step`
    /// lies beyond the history.
    pub fn jump_to(&mut self, step: usize) -> (r: bool)
        requires
            pf_wf(search_view(*old(self))),
        ensures
            pf_wf(search_view(*final(self))),
            same_run(search_view(*old(self)), search_view(*final(self))),
            (*final(self)) is Visibility <==> (*old(self)) is Visibility,
            search_view(*final(self)).current_step == nav_jump(
                search_view(*old(self)).history.len() as int,
                search_view(*old(self)).current_step,
                step as int,
            ),
            r == (step <= search_view(*old(self)).history.len() - 1),
    {
        match self {
            Search::Visibility(p) => p.jump_to(step),
            Search::AStar(p) => p.jump_to(step),
        }
    }

    /// Moves the cursor back to the initial snapshot.
    pub fn reset(&mut self)
        requires
            pf_wf(search_view(*old(self))),
        ensures
            pf_wf(search_view(*final(self))),
            same_run(search_view(*old(self)), search_view(*final(self))),
            (*final(self)) is Visibility <==> (*old(self)) is Visibility,
            search_view(*final(self)).current_step == 0,
    {
        match self {
            Search::Visibility(p) => p.reset(),
            Search::AStar(p) => p.reset(),
        }
    }

    /// Replaces the heuristic, discards the history, recomputes the whole
    /// search from scratch and resets to step zero.
    pub fn change_heuristic(&mut self, heuristic: Heuristic)
        requires
            pf_wf(search_view(*old(self))),
            search_ok(*old(self)),
        ensures
            search_ok(*final(self)),
            (*final(self)) is Visibility <==> (*old(self)) is Visibility,
            search_view(*final(self)).board == search_view(*old(self)).board,
            search_view(*final(self)).start == search_view(*old(self)).start,
            search_view(*final(self)).goal == search_view(*old(self)).goal,
            search_view(*final(self)).heuristic == heuristic,
            search_view(*final(self)).current_step == 0,
    {
        match self {
            Search::Visibility(p) => p.change_heuristic(heuristic),
            Search::AStar(p) => p.change_heuristic(heuristic),
        }
    }
}

} // verus!
