//! The incremental (textbook) A* variant: no precomputed graph, successors
//! generated on demand, explicit OPEN and CLOSED lists, and reopening of
//! closed vertices when a strictly better path to them is found.
//!
//! Cost propagation to the already-closed descendants of a reopened vertex is
//! intentionally not performed; reopening only reinserts the vertex itself.

use vstd::prelude::*;

use crate::board::{Board, MAX_BOARD_VERTICES};
use crate::mapset::{PointMap, PointSet};
use crate::pathfinder::{Heuristic, SearchState};
use crate::point::{in_range, Point};
use crate::polygon::seg_blocked;
use crate::search::engine::{
    ctx_ok, move_ok, nav_back, nav_forward, nav_jump, path_cost, path_ok, pf_ctx, pf_wf, run_ok,
    same_run, universe, valid_move_spec, PfView, SearchCtx, SearchVariant,
};

verus! {

/// Whether a pathfinder view carries a completed, law-abiding incremental
/// run.
pub open spec fn searched(v: PfView) -> bool {
    &&& ctx_ok(pf_ctx(v, SearchVariant::AStar))
    &&& run_ok(pf_ctx(v, SearchVariant::AStar), v.history, v.optimal_path)
}

/// Textbook A* with explicit OPEN/CLOSED lists and reopening.
///
/// Construction eagerly runs the whole search and records its history; the
/// navigation operations only move a cursor over the recorded snapshots.
pub struct AStarPathfinder {
    board: Board,
    start: Point,
    goal: Point,
    heuristic: Heuristic,
    state: SearchState,
    history: Vec<SearchState>,
    current_step: usize,
    optimal_path: Option<(Vec<Point>, i32)>,
}

impl View for AStarPathfinder {
    type V = PfView;

    closed spec fn view(&self) -> PfView {
        PfView {
            board: self.board@,
            start: self.start,
            goal: self.goal,
            heuristic: self.heuristic,
            graph: Map::empty(),
            state: self.state@,
            history: self.history@.map_values(|st: SearchState| st@),
            current_step: self.current_step as int,
            optimal_path: match self.optimal_path {
                Some(pc) => Some((pc.0@, pc.1 as int)),
                None => None,
            },
        }
    }
}

impl AStarPathfinder {
    /// Runs the incremental search to completion and records the whole
    /// history, positioned at the initial snapshot.
    ///
    /// The outcome is `Some` exactly when some chain of unblocked segments
    /// through the board's vertices joins the start to the goal; the
    /// returned path then runs from the start to the goal along unblocked
    /// segments, and its reported cost is the sum of the truncated segment
    /// distances.
    pub fn new(board: Board, start: Point, goal: Point, heuristic: Heuristic) -> (s: Self)
        requires
            in_range(start),
            in_range(goal),
        ensures
            s@.board == board@,
            s@.start == start,
            s@.goal == goal,
            s@.heuristic == heuristic,
            s@.current_step == 0,
            pf_wf(s@),
            searched(s@),
    {
        let graph: PointMap<PointSet> = PointMap::new();
        let ghost ctx = SearchCtx {
            variant: SearchVariant::AStar,
            board: board@,
            graph: graph@,
            start,
            goal,
            heuristic,
        };
        let mut vset = board.vertices();
        vset.insert(start);
        vset.insert(goal);
        let verts = vset.as_vec();
        proof {
            assert(universe(ctx) == verts@.to_set());
            assert(universe(ctx).len() <= MAX_BOARD_VERTICES as int + 2);
            assert forall|u: Point, v: Point| #[trigger] move_ok(ctx, u, v) implies u != v by {
                assert(valid_move_spec(ctx.board, u, v));
            }
            assert forall|p: Point| universe(ctx).contains(p) implies in_range(p) by {}
            assert(ctx_ok(ctx));
        }
        let (history, optimal_path) = crate::search::engine::run_search(
            Ghost(ctx),
            Ghost(verts@),
            &board,
            &graph,
            SearchVariant::AStar,
            start,
            goal,
            heuristic,
        );
        let state = history[0].clone();
        let s = AStarPathfinder {
            board,
            start,
            goal,
            heuristic,
            state,
            history,
            current_step: 0,
            optimal_path,
        };
        proof {
            assert(s@.history[0] == s.history@[0]@);
        }
        s
    }

    /// The snapshot history of the completed run.
    pub fn history(&self) -> (h: &Vec<SearchState>)
        ensures
            h@.len() == self@.history.len(),
            forall|k: int| 0 <= k < h@.len() ==> (#[trigger] h@[k])@ == self@.history[k],
    {
        &self.history
    }

    /// The board this search ran on.
    pub fn get_board(&self) -> (b: &Board)
        ensures
            b@ == self@.board,
    {
        &self.board
    }

    /// The snapshot the replay cursor points at.
    pub fn get_state(&self) -> (st: &SearchState)
        ensures
            st@ == self@.state,
    {
        &self.state
    }

    /// The start vertex.
    pub fn get_start(&self) -> (p: Point)
        ensures
            p == self@.start,
    {
        self.start
    }

    /// The goal vertex.
    pub fn get_goal(&self) -> (p: Point)
        ensures
            p == self@.goal,
    {
        self.goal
    }

    /// The heuristic the run used.
    pub fn get_heuristic(&self) -> (h: Heuristic)
        ensures
            h == self@.heuristic,
    {
        self.heuristic
    }

    /// The found path and its cost, if one exists.
    ///
    /// The cost is exactly the sum of the path's truncated segment
    /// distances; minimality over all valid paths is not claimed (see
    /// [`crate::search::engine::run_ok`]).
    pub fn get_optimal_path(&self) -> (r: Option<&(Vec<Point>, i32)>)
        ensures
            match r {
                Some(pc) => self@.optimal_path == Some((pc.0@, pc.1 as int)),
                None => self@.optimal_path is None,
            },
    {
        self.optimal_path.as_ref()
    }


    /// The score of the best path recorded in the snapshot under the cursor:
    /// the sum of its truncated segment distances. Only the final snapshot of
    /// a run carries a best path, so every earlier cursor position yields
    /// nothing.
    pub fn best_path_score(&self) -> (r: Option<i32>)
        requires
            pf_wf(self@),
            searched(self@),
        ensures
            match self@.state.best_path {
                Some(bp) => (match r {
                    Some(c) => c as int == path_cost(bp),
                    None => false,
                }),
                None => r is None,
            },
    {
        let ghost ctx = pf_ctx(self@, SearchVariant::AStar);
        match &self.state.best_path {
            None => None,
            Some(p) => {
                proof {
                    assert(self@.state == self@.history[self@.current_step]);
                    if self@.current_step < self@.history.len() - 1 {
                        assert(self@.history[self@.current_step].best_path is None);
                    }
                    assert(self@.state == self@.history.last());
                    match self@.optimal_path {
                        Some(pc) => {
                            assert(self@.history.last().best_path == Some(pc.0));
                            assert(p@ == pc.0);
                            assert(path_ok(ctx, ctx.goal, p@));
                            assert(p@.last() == ctx.goal);
                        },
                        None => {
                            assert(self@.history.last().best_path is None);
                        },
                    }
                }
                Some(crate::search::engine::path_score(Ghost(ctx), p))
            },
        }
    }

    /// The score of the optimal path, if one was found.
    pub fn optimal_path_score(&self) -> (r: Option<i32>)
        ensures
            match r {
                Some(c) => (match self@.optimal_path {
                    Some(pc) => pc.1 == c as int,
                    None => false,
                }),
                None => self@.optimal_path is None,
            },
    {
        match &self.optimal_path {
            Some(pc) => Some(pc.1),
            None => None,
        }
    }

    /// The index of the last step of the recorded history.
    pub fn total_steps(&self) -> (n: usize)
        requires
            pf_wf(self@),
        ensures
            n == self@.history.len() - 1,
    {
        self.history.len() - 1
    }

    /// The replay cursor.
    pub fn current_step(&self) -> (n: usize)
        ensures
            n == self@.current_step,
    {
        self.current_step
    }

    /// Whether the cursor stands at the last recorded step.
    pub fn is_finished(&self) -> (r: bool)
        requires
            pf_wf(self@),
        ensures
            r == (self@.current_step == self@.history.len() - 1),
    {
        self.current_step >= self.history.len() - 1
    }

    /// Advances one recorded step; a no-op returning false at the last step.
    pub fn step_forward(&mut self) -> (r: bool)
        requires
            pf_wf(old(self)@),
        ensures
            pf_wf(final(self)@),
            same_run(old(self)@, final(self)@),
            final(self)@.current_step == nav_forward(
                old(self)@.history.len() as int,
                old(self)@.current_step,
            ),
            r == (old(self)@.current_step < old(self)@.history.len() - 1),
    {
        if self.current_step >= self.history.len() - 1 {
            return false;
        }
        self.current_step = self.current_step + 1;
        self.state = self.history[self.current_step].clone();
        true
    }

    /// Retreats one recorded step; a no-op returning false at step zero.
    pub fn step_back(&mut self) -> (r: bool)
        requires
            pf_wf(old(self)@),
        ensures
            pf_wf(final(self)@),
            same_run(old(self)@, final(self)@),
            final(self)@.current_step == nav_back(old(self)@.current_step),
            r == (old(self)@.current_step > 0),
    {
        if self.current_step == 0 {
            return false;
        }
        self.current_step = self.current_step - 1;
        self.state = self.history[self.current_step].clone();
        true
    }

    /// Moves the cursor to step `step`; a no-op returning false when `step`
    /// lies beyond the history.
    pub fn jump_to(&mut self, step: usize) -> (r: bool)
        requires
            pf_wf(old(self)@),
        ensures
            pf_wf(final(self)@),
            same_run(old(self)@, final(self)@),
            final(self)@.current_step == nav_jump(
                old(self)@.history.len() as int,
                old(self)@.current_step,
                step as int,
            ),
            r == (step <= old(self)@.history.len() - 1),
    {
        if step > self.history.len() - 1 {
            return false;
        }
        self.current_step = step;
        self.state = self.history[self.current_step].clone();
        true
    }

    /// Moves the cursor back to the initial snapshot.
    pub fn reset(&mut self)
        requires
            pf_wf(old(self)@),
        ensures
            pf_wf(final(self)@),
            same_run(old(self)@, final(self)@),
            final(self)@.current_step == 0,
    {
        self.current_step = 0;
        self.state = self.history[0].clone();
    }

    /// Replaces the heuristic, discards the history, recomputes the whole
    /// search from scratch and resets to step zero.
    pub fn change_heuristic(&mut self, heuristic: Heuristic)
        requires
            pf_wf(old(self)@),
            searched(old(self)@),
        ensures
            pf_wf(final(self)@),
            searched(final(self)@),
            final(self)@.board == old(self)@.board,
            final(self)@.start == old(self)@.start,
            final(self)@.goal == old(self)@.goal,
            final(self)@.heuristic == heuristic,
            final(self)@.current_step == 0,
    {
        proof {
            let ctx = pf_ctx(old(self)@, SearchVariant::AStar);
            assert(universe(ctx).contains(ctx.start) && universe(ctx).contains(ctx.goal));
            assert(in_range(self.start) && in_range(self.goal));
        }
        let board = self.board.clone();
        *self = Self::new(board, self.start, self.goal, heuristic);
    }
}

/// A found path is valid: it runs from the start to the goal and no polygon
/// of the board blocks any of its segments.
pub proof fn lemma_found_path_valid(v: PfView, p: Seq<Point>, c: int)
    requires
        searched(v),
        v.optimal_path == Some((p, c)),
    ensures
        p.len() >= 1,
        p[0] == v.start,
        p.last() == v.goal,
        c == path_cost(p),
        forall|i: int| 0 <= i < p.len() - 1 ==> valid_move_spec(v.board, #[trigger] p[i], p[i + 1]),
        forall|i: int, j: int|
            0 <= i < p.len() - 1 && 0 <= j < v.board.len() ==> !seg_blocked(
                #[trigger] v.board[j],
                #[trigger] p[i],
                p[i + 1],
            ),
{
    let ctx = pf_ctx(v, SearchVariant::AStar);
    assert(path_ok(ctx, ctx.goal, p));
    assert forall|i: int| 0 <= i < p.len() - 1 implies valid_move_spec(
        v.board,
        #[trigger] p[i],
        p[i + 1],
    ) by {
        assert(move_ok(ctx, p[i], p[i + 1]));
    }
}

} // verus!
