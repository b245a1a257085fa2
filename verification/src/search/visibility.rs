//! The visibility predicate, the visibility-graph builder, and the A*
//! variant that searches over the precomputed graph without reopening.

use vstd::prelude::*;

use crate::board::{board_vert_set, Board, MAX_BOARD_VERTICES};
use crate::mapset::{copy_points, PointMap, PointSet};
use crate::pathfinder::{Heuristic, SearchState, StateView};
use crate::point::{in_range, Point};
use crate::polygon::{
    adjacent_in, lemma_adjacent_not_blocked, lemma_seg_blocked_symmetric, seg_blocked,
};
use crate::search::engine::{
    ctx_ok, graph_edge, move_ok, nav_back, nav_forward, nav_jump, path_cost, path_ok, pf_ctx,
    pf_wf, run_ok, same_run, state_core, universe, PfView, SearchCtx, SearchVariant,
};
use vstd::set_lib::lemma_len_subset;

verus! {

/// The per-polygon visibility condition: vertices of the same polygon see
/// each other only as boundary neighbours, any other pair must not be
/// blocked.
pub open spec fn polygon_ok(vs: Seq<Point>, u: Point, v: Point) -> bool {
    if vs.contains(u) && vs.contains(v) {
        adjacent_in(vs, u, v)
    } else {
        !seg_blocked(vs, u, v)
    }
}

/// Whether `u` and `v` see each other on the board: they are distinct and
/// every polygon passes the per-polygon condition.
pub open spec fn spec_visible(board: Seq<Seq<Point>>, u: Point, v: Point) -> bool {
    u != v && forall|j: int| 0 <= j < board.len() ==> polygon_ok(#[trigger] board[j], u, v)
}

/// Visibility is symmetric.
pub proof fn lemma_visible_symmetric(board: Seq<Seq<Point>>, u: Point, v: Point)
    ensures
        spec_visible(board, u, v) == spec_visible(board, v, u),
{
    assert forall|j: int| 0 <= j < board.len() implies polygon_ok(#[trigger] board[j], u, v)
        == polygon_ok(board[j], v, u) by {
        lemma_seg_blocked_symmetric(board[j], u, v);
    }
}

/// Visible pairs are blocked by no polygon: the law behind obstacle
/// avoidance. A same-polygon pair is visible only when adjacent, and a
/// boundary edge is never blocked by its own polygon.
pub proof fn lemma_visible_not_blocked(board: Seq<Seq<Point>>, u: Point, v: Point)
    requires
        spec_visible(board, u, v),
    ensures
        forall|j: int| 0 <= j < board.len() ==> !seg_blocked(#[trigger] board[j], u, v),
{
    assert forall|j: int| 0 <= j < board.len() implies !seg_blocked(#[trigger] board[j], u, v) by {
        assert(polygon_ok(board[j], u, v));
        if board[j].contains(u) && board[j].contains(v) {
            lemma_adjacent_not_blocked(board[j], u, v);
        }
    }
}

/// Whether `u` and `v` are neighbouring vertices of this vertex list.
fn points_adjacent(pv: &Vec<Point>, u: Point, v: Point) -> (r: bool)
    requires
        pv@.len() >= 1,
    ensures
        r == adjacent_in(pv@, u, v),
{
    let n = pv.len();
    let mut i: usize = 0;
    while i < n
        invariant
            n == pv@.len(),
            1 <= n,
            i <= n,
            forall|j: int|
                0 <= j < i ==> !((#[trigger] crate::polygon::edge_at(pv@, j).start == u
                    && crate::polygon::edge_at(pv@, j).end == v) || (crate::polygon::edge_at(
                    pv@,
                    j,
                ).start == v && crate::polygon::edge_at(pv@, j).end == u)),
        decreases n - i,
    {
        let next = if i + 1 == n {
            0
        } else {
            i + 1
        };
        let a = pv[i];
        let b = pv[next];
        if (a == u && b == v) || (a == v && b == u) {
            proof {
                assert(crate::polygon::edge_at(pv@, i as int).start == a && crate::polygon::edge_at(
                    pv@,
                    i as int,
                ).end == b);
            }
            return true;
        }
        proof {
            assert(crate::polygon::edge_at(pv@, i as int).start == a && crate::polygon::edge_at(
                pv@,
                i as int,
            ).end == b);
        }
        i = i + 1;
    }
    false
}

/// Whether two vertices see each other across the whole board.
pub fn are_vertices_visible(board: &Board, v1: Point, v2: Point) -> (r: bool)
    ensures
        r == spec_visible(board@, v1, v2),
{
    if v1 == v2 {
        return false;
    }
    let polys = board.polygons();
    let n = polys.len();
    let mut i: usize = 0;
    while i < n
        invariant
            n == polys@.len(),
            n == board@.len(),
            forall|k: int| 0 <= k < n ==> #[trigger] polys@[k]@ == board@[k],
            i <= n,
            forall|j: int| 0 <= j < i ==> polygon_ok(#[trigger] board@[j], v1, v2),
        decreases n - i,
    {
        let poly = &polys[i];
        let pv = poly.vertices();
        let has1 = poly.has_vertex(&v1);
        let has2 = poly.has_vertex(&v2);
        if has1 && has2 {
            if !points_adjacent(pv, v1, v2) {
                return false;
            }
        } else {
            if poly.intersects_segment(&v1, &v2) {
                return false;
            }
        }
        i = i + 1;
    }
    true
}

/// Records `v` as visible from `u`.
fn add_edge(graph: &mut PointMap<PointSet>, u: Point, v: Point)
    ensures
        forall|a: Point, b: Point|
            #[trigger] graph_edge(final(graph)@, a, b) == (graph_edge(old(graph)@, a, b) || (a == u
                && b == v)),
        final(graph)@.dom() == old(graph)@.dom().insert(u),
{
    let entry = match graph.get(u) {
        Some(s) => {
            let mut s2 = s.clone();
            s2.insert(v);
            s2
        },
        None => {
            let mut s2 = PointSet::new();
            s2.insert(v);
            s2
        },
    };
    graph.insert(u, entry);
    proof {
        assert(graph@.dom() =~= old(graph)@.dom().insert(u));
    }
}

/// Whether the unordered pair `{a, b}` has already been handled by the pair
/// scan when it reaches outer index `i` and inner index `j`.
pub open spec fn pair_covered(vs: Seq<Point>, i: int, j: int, a: Point, b: Point) -> bool {
    exists|p: int, q: int|
        0 <= p < q < vs.len() && (p < i || (p == i && q < j)) && ((a == vs[p] && b == vs[q]) || (a
            == #[trigger] vs[q] && b == #[trigger] vs[p]))
}

/// Builds the visibility graph over the board's vertices plus `start` and
/// `goal`: two vertices are joined exactly when they are distinct members of
/// that universe and mutually visible. The graph is symmetric by
/// construction, and visibility itself is symmetric.
pub fn build_visibility_graph(board: &Board, start: Point, goal: Point) -> (graph: PointMap<
    PointSet,
>)
    ensures
        forall|a: Point, b: Point|
            #[trigger] graph_edge(graph@, a, b) <==> (board_vert_set(board@).insert(start).insert(
                goal,
            ).contains(a) && board_vert_set(board@).insert(start).insert(goal).contains(b)
                && spec_visible(board@, a, b)),
        forall|k: Point|
            #[trigger] graph@.dom().contains(k) ==> board_vert_set(board@).insert(start).insert(
                goal,
            ).contains(k),
{
    let ghost uni = board_vert_set(board@).insert(start).insert(goal);
    let mut vset = board.vertices();
    vset.insert(start);
    vset.insert(goal);
    let verts = vset.as_vec();
    let n = verts.len();
    proof {
        assert(verts@.to_set() == uni);
    }
    let mut graph: PointMap<PointSet> = PointMap::new();
    let mut i: usize = 0;
    while i < n
        invariant
            n == verts@.len(),
            verts@.to_set() == uni,
            verts@.no_duplicates(),
            uni == board_vert_set(board@).insert(start).insert(goal),
            i <= n,
            forall|a: Point, b: Point|
                #[trigger] graph_edge(graph@, a, b) <==> (pair_covered(verts@, i as int, i as int + 1, a, b)
                    && spec_visible(board@, a, b)),
            forall|k: Point| #[trigger] graph@.dom().contains(k) ==> uni.contains(k),
        decreases n - i,
    {
        let u = verts[i];
        let mut j: usize = i + 1;
        while j < n
            invariant
                n == verts@.len(),
                verts@.to_set() == uni,
                verts@.no_duplicates(),
                uni == board_vert_set(board@).insert(start).insert(goal),
                i < n,
                u == verts@[i as int],
                i < j <= n,
                forall|a: Point, b: Point|
                    #[trigger] graph_edge(graph@, a, b) <==> (pair_covered(verts@, i as int, j as int, a, b)
                        && spec_visible(board@, a, b)),
                forall|k: Point| #[trigger] graph@.dom().contains(k) ==> uni.contains(k),
            decreases n - j,
        {
            let v = verts[j];
            let ghost pre = graph@;
            if are_vertices_visible(board, u, v) {
                add_edge(&mut graph, u, v);
                add_edge(&mut graph, v, u);
                proof {
                    lemma_visible_symmetric(board@, u, v);
                }
            }
            proof {
                assert forall|a: Point, b: Point| #[trigger] graph_edge(graph@, a, b) implies (
                pair_covered(verts@, i as int, j as int + 1, a, b) && spec_visible(
                    board@,
                    a,
                    b,
                )) by {
                    if graph_edge(pre, a, b) {
                        let (p, q) = choose|p: int, q: int|
                            0 <= p < q < verts@.len() && (p < i as int || (p == i as int && q
                                < j as int)) && ((a == verts@[p] && b == verts@[q]) || (a
                                == #[trigger] verts@[q] && b == #[trigger] verts@[p]));
                        assert(pair_covered(verts@, i as int, j as int + 1, a, b));
                    } else {
                        lemma_visible_symmetric(board@, u, v);
                        assert((a == u && b == v) || (a == v && b == u));
                        assert(pair_covered(verts@, i as int, j as int + 1, a, b));
                    }
                }
                assert forall|a: Point, b: Point|
                    pair_covered(verts@, i as int, j as int + 1, a, b) && spec_visible(
                        board@,
                        a,
                        b,
                    ) implies #[trigger] graph_edge(graph@, a, b) by {
                    let (p, q) = choose|p: int, q: int|
                        0 <= p < q < verts@.len() && (p < i as int || (p == i as int && q < j as int
                            + 1)) && ((a == verts@[p] && b == verts@[q]) || (a == #[trigger] verts@[q]
                            && b == #[trigger] verts@[p]));
                    if p == i as int && q == j as int {
                        lemma_visible_symmetric(board@, u, v);
                        assert(spec_visible(board@, u, v));
                    } else {
                        assert(pair_covered(verts@, i as int, j as int, a, b));
                    }
                }
            }
            j = j + 1;
        }
        proof {
            assert forall|a: Point, b: Point|
                pair_covered(verts@, i as int + 1, i as int + 2, a, b) implies pair_covered(
                verts@,
                i as int,
                n as int,
                a,
                b,
            ) by {
                let (p, q) = choose|p: int, q: int|
                    0 <= p < q < verts@.len() && (p < i as int + 1 || (p == i as int + 1 && q
                        < i as int + 2)) && ((a == verts@[p] && b == verts@[q]) || (a
                        == #[trigger] verts@[q] && b == #[trigger] verts@[p]));
            }
            assert forall|a: Point, b: Point|
                pair_covered(verts@, i as int, n as int, a, b) implies pair_covered(
                verts@,
                i as int + 1,
                i as int + 2,
                a,
                b,
            ) by {
                let (p, q) = choose|p: int, q: int|
                    0 <= p < q < verts@.len() && (p < i as int || (p == i as int && q < n as int))
                        && ((a == verts@[p] && b == verts@[q]) || (a == #[trigger] verts@[q] && b
                        == #[trigger] verts@[p]));
            }
        }
        i = i + 1;
    }
    proof {
        assert forall|a: Point, b: Point| #[trigger] graph_edge(graph@, a, b) implies (uni.contains(
            a,
        ) && uni.contains(b) && spec_visible(board@, a, b)) by {
            let (p, q) = choose|p: int, q: int|
                0 <= p < q < verts@.len() && (p < n as int || (p == n as int && q < n as int + 1))
                    && ((a == verts@[p] && b == verts@[q]) || (a == #[trigger] verts@[q] && b
                    == #[trigger] verts@[p]));
            assert(verts@.contains(a) && verts@.contains(b));
        }
        assert forall|a: Point, b: Point|
            uni.contains(a) && uni.contains(b) && spec_visible(board@, a, b) implies
            #[trigger] graph_edge(graph@, a, b) by {
            let p = choose|p: int| 0 <= p < verts@.len() && verts@[p] == a;
            let q = choose|q: int| 0 <= q < verts@.len() && verts@[q] == b;
            assert(verts@[p] == a && verts@[q] == b);
            if p < q {
                assert(pair_covered(verts@, n as int, n as int + 1, a, b));
            } else {
                assert(p != q);
                assert(pair_covered(verts@, n as int, n as int + 1, a, b));
            }
        }
    }
    graph
}

} // verus!


verus! {

/// Whether a pathfinder view's graph is exactly the visibility relation of
/// its board: joined pairs are distinct universe members seeing each other.
pub open spec fn graph_matches(v: PfView) -> bool {
    forall|a: Point, b: Point|
        #[trigger] graph_edge(v.graph, a, b) <==> (universe(
            pf_ctx(v, SearchVariant::VisibilityGraph),
        ).contains(a) && universe(pf_ctx(v, SearchVariant::VisibilityGraph)).contains(b)
            && spec_visible(v.board, a, b))
}

/// Whether a pathfinder view carries a completed, law-abiding search run.
pub open spec fn searched(v: PfView) -> bool {
    &&& ctx_ok(pf_ctx(v, SearchVariant::VisibilityGraph))
    &&& run_ok(pf_ctx(v, SearchVariant::VisibilityGraph), v.history, v.optimal_path)
}

/// A* over the precomputed visibility graph.
///
/// Construction eagerly runs the whole search and records its history; the
/// navigation operations only move a cursor over the recorded snapshots.
pub struct VisibilityGraphPathfinder {
    board: Board,
    start: Point,
    goal: Point,
    heuristic: Heuristic,
    visibility_graph: PointMap<PointSet>,
    state: SearchState,
    history: Vec<SearchState>,
    current_step: usize,
    optimal_path: Option<(Vec<Point>, i32)>,
}

impl View for VisibilityGraphPathfinder {
    type V = PfView;

    closed spec fn view(&self) -> PfView {
        PfView {
            board: self.board@,
            start: self.start,
            goal: self.goal,
            heuristic: self.heuristic,
            graph: self.visibility_graph@,
            state: self.state@,
            history: self.history@.map_values(|st: SearchState| st@),
            current_step: self.current_step as int,
            optimal_path: match self.optimal_path {
                Some(pc) => Some((pc.0@, pc.1 as int)),
                None => None,
            },
        }
    }
}

impl VisibilityGraphPathfinder {
    /// Builds the visibility graph, runs the search to completion, and
    /// records the whole history, positioned at the initial snapshot.
    ///
    /// The outcome is `Some` exactly when some chain of visible segments
    /// joins the start to the goal; the returned path then runs from the
    /// start to the goal along graph edges, and its reported cost is the sum
    /// of the truncated segment distances.
    pub fn new(board: Board, start: Point, goal: Point, heuristic: Heuristic) -> (s: Self)
        requires
            in_range(start),
            in_range(goal),
        ensures
            s@.board == board@,
            s@.start == start,
            s@.goal == goal,
            s@.heuristic == heuristic,
            s@.current_step == 0,
            pf_wf(s@),
            searched(s@),
            graph_matches(s@),
    {
        let graph = build_visibility_graph(&board, start, goal);
        let ghost ctx = SearchCtx {
            variant: SearchVariant::VisibilityGraph,
            board: board@,
            graph: graph@,
            start,
            goal,
            heuristic,
        };
        let mut vset = board.vertices();
        vset.insert(start);
        vset.insert(goal);
        let verts = vset.as_vec();
        proof {
            assert(universe(ctx) == verts@.to_set());
            assert(universe(ctx).len() <= MAX_BOARD_VERTICES as int + 2);
            assert forall|u: Point, v: Point| #[trigger] move_ok(ctx, u, v) implies u != v by {
                assert(graph_edge(ctx.graph, u, v));
            }
            assert forall|p: Point| universe(ctx).contains(p) implies in_range(p) by {}
            assert(ctx_ok(ctx));
        }
        let (history, optimal_path) = crate::search::engine::run_search(
            Ghost(ctx),
            Ghost(verts@),
            &board,
            &graph,
            SearchVariant::VisibilityGraph,
            start,
            goal,
            heuristic,
        );
        let state = history[0].clone();
        let s = VisibilityGraphPathfinder {
            board,
            start,
            goal,
            heuristic,
            visibility_graph: graph,
            state,
            history,
            current_step: 0,
            optimal_path,
        };
        proof {
            assert(s@.history[0] == s.history@[0]@);
        }
        s
    }

    /// The snapshot history of the completed run.
    pub fn history(&self) -> (h: &Vec<SearchState>)
        ensures
            h@.len() == self@.history.len(),
            forall|k: int| 0 <= k < h@.len() ==> (#[trigger] h@[k])@ == self@.history[k],
    {
        &self.history
    }

    /// The board this search ran on.
    pub fn get_board(&self) -> (b: &Board)
        ensures
            b@ == self@.board,
    {
        &self.board
    }

    /// The snapshot the replay cursor points at.
    pub fn get_state(&self) -> (st: &SearchState)
        ensures
            st@ == self@.state,
    {
        &self.state
    }

    /// The start vertex.
    pub fn get_start(&self) -> (p: Point)
        ensures
            p == self@.start,
    {
        self.start
    }

    /// The goal vertex.
    pub fn get_goal(&self) -> (p: Point)
        ensures
            p == self@.goal,
    {
        self.goal
    }

    /// The heuristic the run used.
    pub fn get_heuristic(&self) -> (h: Heuristic)
        ensures
            h == self@.heuristic,
    {
        self.heuristic
    }

    /// The found path and its cost, if one exists.
    ///
    /// The cost is exactly the sum of the path's truncated segment
    /// distances; minimality over all valid paths is not claimed (see
    /// [`crate::search::engine::run_ok`]).
    pub fn get_optimal_path(&self) -> (r: Option<&(Vec<Point>, i32)>)
        ensures
            match r {
                Some(pc) => self@.optimal_path == Some((pc.0@, pc.1 as int)),
                None => self@.optimal_path is None,
            },
    {
        self.optimal_path.as_ref()
    }


    /// The score of the best path recorded in the snapshot under the cursor:
    /// the sum of its truncated segment distances. Only the final snapshot of
    /// a run carries a best path, so every earlier cursor position yields
    /// nothing.
    pub fn best_path_score(&self) -> (r: Option<i32>)
        requires
            pf_wf(self@),
            searched(self@),
        ensures
            match self@.state.best_path {
                Some(bp) => (match r {
                    Some(c) => c as int == path_cost(bp),
                    None => false,
                }),
                None => r is None,
            },
    {
        let ghost ctx = pf_ctx(self@, SearchVariant::VisibilityGraph);
        match &self.state.best_path {
            None => None,
            Some(p) => {
                proof {
                    assert(self@.state == self@.history[self@.current_step]);
                    if self@.current_step < self@.history.len() - 1 {
                        assert(self@.history[self@.current_step].best_path is None);
                    }
                    assert(self@.state == self@.history.last());
                    match self@.optimal_path {
                        Some(pc) => {
                            assert(self@.history.last().best_path == Some(pc.0));
                            assert(p@ == pc.0);
                            assert(path_ok(ctx, ctx.goal, p@));
                            assert(p@.last() == ctx.goal);
                        },
                        None => {
                            assert(self@.history.last().best_path is None);
                        },
                    }
                }
                Some(crate::search::engine::path_score(Ghost(ctx), p))
            },
        }
    }

    /// The score of the optimal path, if one was found.
    pub fn optimal_path_score(&self) -> (r: Option<i32>)
        ensures
            match r {
                Some(c) => (match self@.optimal_path {
                    Some(pc) => pc.1 == c as int,
                    None => false,
                }),
                None => self@.optimal_path is None,
            },
    {
        match &self.optimal_path {
            Some(pc) => Some(pc.1),
            None => None,
        }
    }

    /// The index of the last step of the recorded history.
    pub fn total_steps(&self) -> (n: usize)
        requires
            pf_wf(self@),
        ensures
            n == self@.history.len() - 1,
    {
        self.history.len() - 1
    }

    /// The replay cursor.
    pub fn current_step(&self) -> (n: usize)
        ensures
            n == self@.current_step,
    {
        self.current_step
    }

    /// Whether the cursor stands at the last recorded step.
    pub fn is_finished(&self) -> (r: bool)
        requires
            pf_wf(self@),
        ensures
            r == (self@.current_step == self@.history.len() - 1),
    {
        self.current_step >= self.history.len() - 1
    }

    /// Advances one recorded step; a no-op returning false at the last step.
    pub fn step_forward(&mut self) -> (r: bool)
        requires
            pf_wf(old(self)@),
        ensures
            pf_wf(final(self)@),
            same_run(old(self)@, final(self)@),
            final(self)@.current_step == nav_forward(
                old(self)@.history.len() as int,
                old(self)@.current_step,
            ),
            r == (old(self)@.current_step < old(self)@.history.len() - 1),
    {
        if self.current_step >= self.history.len() - 1 {
            return false;
        }
        self.current_step = self.current_step + 1;
        self.state = self.history[self.current_step].clone();
        true
    }

    /// Retreats one recorded step; a no-op returning false at step zero.
    pub fn step_back(&mut self) -> (r: bool)
        requires
            pf_wf(old(self)@),
        ensures
            pf_wf(final(self)@),
            same_run(old(self)@, final(self)@),
            final(self)@.current_step == nav_back(old(self)@.current_step),
            r == (old(self)@.current_step > 0),
    {
        if self.current_step == 0 {
            return false;
        }
        self.current_step = self.current_step - 1;
        self.state = self.history[self.current_step].clone();
        true
    }

    /// Moves the cursor to step `step`; a no-op returning false when `step`
    /// lies beyond the history.
    pub fn jump_to(&mut self, step: usize) -> (r: bool)
        requires
            pf_wf(old(self)@),
        ensures
            pf_wf(final(self)@),
            same_run(old(self)@, final(self)@),
            final(self)@.current_step == nav_jump(
                old(self)@.history.len() as int,
                old(self)@.current_step,
                step as int,
            ),
            r == (step <= old(self)@.history.len() - 1),
    {
        if step > self.history.len() - 1 {
            return false;
        }
        self.current_step = step;
        self.state = self.history[self.current_step].clone();
        true
    }

    /// Moves the cursor back to the initial snapshot.
    pub fn reset(&mut self)
        requires
            pf_wf(old(self)@),
        ensures
            pf_wf(final(self)@),
            same_run(old(self)@, final(self)@),
            final(self)@.current_step == 0,
    {
        self.current_step = 0;
        self.state = self.history[0].clone();
    }

    /// Replaces the heuristic, discards the history, recomputes the whole
    /// search from scratch and resets to step zero.
    pub fn change_heuristic(&mut self, heuristic: Heuristic)
        requires
            pf_wf(old(self)@),
            searched(old(self)@),
        ensures
            pf_wf(final(self)@),
            searched(final(self)@),
            graph_matches(final(self)@),
            final(self)@.board == old(self)@.board,
            final(self)@.start == old(self)@.start,
            final(self)@.goal == old(self)@.goal,
            final(self)@.heuristic == heuristic,
            final(self)@.current_step == 0,
    {
        proof {
            let ctx = pf_ctx(old(self)@, SearchVariant::VisibilityGraph);
            assert(universe(ctx).contains(ctx.start) && universe(ctx).contains(ctx.goal));
            assert(in_range(self.start) && in_range(self.goal));
        }
        let board = self.board.clone();
        *self = Self::new(board, self.start, self.goal, heuristic);
    }
}

/// Once a vertex is in the closed set at some step, it is never in the open
/// set at that or any later step: this variant never reopens a vertex.
pub proof fn lemma_never_reopened(v: PfView, x: Point, k: int, l: int)
    requires
        searched(v),
        0 <= k <= l < v.history.len(),
        v.history[k].closed.contains(x),
    ensures
        !v.history[l].open.contains(x),
{
    assert(v.history[k].closed.subset_of(v.history[l].closed));
    assert(state_core(pf_ctx(v, SearchVariant::VisibilityGraph), v.history[l]));
    assert(v.history[l].open.disjoint(v.history[l].closed));
}

/// The visibility graph is symmetric: `b` is a neighbour of `a` exactly when
/// `a` is a neighbour of `b`.
pub proof fn lemma_graph_symmetric(v: PfView, a: Point, b: Point)
    requires
        graph_matches(v),
    ensures
        graph_edge(v.graph, a, b) == graph_edge(v.graph, b, a),
{
    lemma_visible_symmetric(v.board, a, b);
}

/// A found path is valid: it runs from the start to the goal, every
/// consecutive pair is joined by a graph edge (mutually visible), and no
/// polygon of the board blocks any of its segments.
pub proof fn lemma_found_path_valid(v: PfView, p: Seq<Point>, c: int)
    requires
        searched(v),
        graph_matches(v),
        v.optimal_path == Some((p, c)),
    ensures
        p.len() >= 1,
        p[0] == v.start,
        p.last() == v.goal,
        c == path_cost(p),
        forall|i: int| 0 <= i < p.len() - 1 ==> graph_edge(v.graph, #[trigger] p[i], p[i + 1]),
        forall|i: int, j: int|
            0 <= i < p.len() - 1 && 0 <= j < v.board.len() ==> !seg_blocked(
                #[trigger] v.board[j],
                #[trigger] p[i],
                p[i + 1],
            ),
{
    let ctx = pf_ctx(v, SearchVariant::VisibilityGraph);
    assert(path_ok(ctx, ctx.goal, p));
    assert forall|i: int, j: int|
        0 <= i < p.len() - 1 && 0 <= j < v.board.len() implies !seg_blocked(
        #[trigger] v.board[j],
        #[trigger] p[i],
        p[i + 1],
    ) by {
        assert(move_ok(ctx, p[i], p[i + 1]));
        assert(graph_edge(v.graph, p[i], p[i + 1]));
        assert(spec_visible(v.board, p[i], p[i + 1]));
        lemma_visible_not_blocked(v.board, p[i], p[i + 1]);
    }
}

} // verus!
