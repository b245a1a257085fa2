//! The machinery both search variants share: the frontier, the relaxation
//! step, and the invariants tying a search state to the paths it has found.
//!
//! Everything a search records is pinned to its `current_paths` map: every
//! discovered vertex carries a concrete duplicate-free path from the start
//! whose recorded cost equals its g-score, every edge of that path is a legal
//! move of the variant being run, and every prefix of any recorded path costs
//! at least the current g-score of the vertex it ends at. The last fact is
//! what keeps recorded paths acyclic even when the incremental variant
//! reopens closed vertices.

use vstd::prelude::*;

use crate::board::{board_vert_set, Board, MAX_BOARD_VERTICES};
use crate::mapset::{copy_points, PointMap, PointSet};
use crate::pathfinder::{
    dist_spec, distance, h_spec, Heuristic, SearchState, StateView, MAX_DIST,
};
use crate::point::{in_range, Point};
use crate::polygon::seg_blocked;
use vstd::set_lib::lemma_len_subset;

verus! {

/// The two search strategies.
#[derive(Clone, Copy, Debug, PartialEq, Eq, Structural)]
pub enum SearchVariant {
    /// A* over a precomputed visibility graph, without reopening.
    VisibilityGraph,
    /// Textbook incremental A* with explicit OPEN/CLOSED lists and reopening.
    AStar,
}

/// The largest cost a recorded path can have: a duplicate-free path visits at
/// most the whole vertex universe, and each of its segments is at most the
/// window diagonal.
pub const MAX_PATH_COST: i32 = 28_312_284;

/// One frontier entry: a vertex with the g- and f-scores it was filed under.
#[derive(Clone, Copy, Debug, PartialEq, Eq, Structural)]
pub struct SearchNode {
    pub vertex: Point,
    pub g_score: i32,
    pub f_score: i32,
}

/// The fixed data of one search run.
pub struct SearchCtx {
    pub variant: SearchVariant,
    pub board: Seq<Seq<Point>>,
    pub graph: Map<Point, Set<Point>>,
    pub start: Point,
    pub goal: Point,
    pub heuristic: Heuristic,
}

/// The vertex universe of a run: the board's vertices plus start and goal.
pub open spec fn universe(ctx: SearchCtx) -> Set<Point> {
    board_vert_set(ctx.board).insert(ctx.start).insert(ctx.goal)
}

/// Whether the graph records `v` as visible from `u`.
pub open spec fn graph_edge(g: Map<Point, Set<Point>>, u: Point, v: Point) -> bool {
    g.dom().contains(u) && g[u].contains(v)
}

/// Whether the segment from `u` to `v` is blocked by no polygon of the board.
pub open spec fn valid_move_spec(board: Seq<Seq<Point>>, u: Point, v: Point) -> bool {
    u != v && forall|j: int| 0 <= j < board.len() ==> !seg_blocked(#[trigger] board[j], u, v)
}

/// A legal move of the variant being run: an edge of the visibility graph,
/// or an unblocked segment for the incremental variant.
pub open spec fn move_ok(ctx: SearchCtx, u: Point, v: Point) -> bool {
    match ctx.variant {
        SearchVariant::VisibilityGraph => graph_edge(ctx.graph, u, v),
        SearchVariant::AStar => valid_move_spec(ctx.board, u, v),
    }
}

/// The conditions a run's fixed data satisfies.
pub open spec fn ctx_ok(ctx: SearchCtx) -> bool {
    &&& universe(ctx).finite()
    &&& universe(ctx).len() <= MAX_BOARD_VERTICES as int + 2
    &&& forall|p: Point| universe(ctx).contains(p) ==> in_range(p)
    &&& forall|u: Point, v: Point| #[trigger] move_ok(ctx, u, v) ==> u != v
    &&& ctx.variant == SearchVariant::VisibilityGraph ==> forall|u: Point, v: Point|
        #[trigger] graph_edge(ctx.graph, u, v) ==> universe(ctx).contains(u) && universe(
            ctx,
        ).contains(v)
}

/// The cost of a path: the sum of the truncated distances of its segments.
pub open spec fn path_cost(p: Seq<Point>) -> int
    decreases p.len(),
{
    if p.len() <= 1 {
        0
    } else {
        path_cost(p.drop_last()) + dist_spec(p[p.len() - 2], p[p.len() - 1])
    }
}

/// A valid recorded path from the start to `v`: it begins at the start, ends
/// at `v`, repeats no vertex, stays inside the universe, and each of its
/// steps is a legal move.
pub open spec fn path_ok(ctx: SearchCtx, v: Point, p: Seq<Point>) -> bool {
    &&& p.len() >= 1
    &&& p[0] == ctx.start
    &&& p.last() == v
    &&& p.no_duplicates()
    &&& forall|i: int| 0 <= i < p.len() ==> universe(ctx).contains(#[trigger] p[i])
    &&& forall|i: int| 0 <= i < p.len() - 1 ==> move_ok(ctx, #[trigger] p[i], p[i + 1])
}

/// The vertices a frontier holds.
pub open spec fn fr_vertex_set(fr: Seq<SearchNode>) -> Set<Point> {
    Set::new(|v: Point| exists|i: int| 0 <= i < fr.len() && #[trigger] fr[i].vertex == v)
}

/// Whether a frontier holds each vertex at most once.
pub open spec fn fr_unique(fr: Seq<SearchNode>) -> bool {
    forall|i: int, j: int| 0 <= i < j < fr.len() ==> fr[i].vertex != fr[j].vertex
}

/// The frontier mirrors the open set: unique vertices, each entry filed
/// under the vertex's current g-score, none of them closed.
pub open spec fn frontier_sync(ctx: SearchCtx, s: StateView, fr: Seq<SearchNode>) -> bool {
    &&& fr_unique(fr)
    &&& s.open == fr_vertex_set(fr)
    &&& forall|i: int|
        0 <= i < fr.len() ==> {
            &&& s.g_scores.dom().contains((#[trigger] fr[i]).vertex)
            &&& s.g_scores[fr[i].vertex] == fr[i].g_score
            &&& !s.closed.contains(fr[i].vertex)
            &&& fr[i].f_score == fr[i].g_score + h_spec(ctx.heuristic, fr[i].vertex, ctx.goal)
        }
}

/// The pure state part of the search invariant: open and closed partition
/// the discovered vertices, and every discovered vertex carries a valid
/// recorded path whose cost is its g-score; prefixes of recorded paths
/// dominate the current g-scores of the vertices they end at.
pub open spec fn state_core(ctx: SearchCtx, s: StateView) -> bool {
    &&& s.open.disjoint(s.closed)
    &&& s.g_scores.dom() == s.open.union(s.closed)
    &&& s.current_paths.dom() == s.g_scores.dom()
    &&& forall|p: Point| #[trigger] s.g_scores.dom().contains(p) ==> universe(ctx).contains(p)
    &&& s.g_scores.dom().contains(ctx.start)
    &&& !s.closed.contains(ctx.goal)
    &&& forall|v: Point|
        #[trigger] s.current_paths.dom().contains(v) ==> path_ok(ctx, v, s.current_paths[v])
            && path_cost(s.current_paths[v]) == s.g_scores[v] && 0 <= s.g_scores[v]
            && s.g_scores[v] <= MAX_PATH_COST
    &&& forall|v: Point, i: int|
        s.current_paths.dom().contains(v) && 0 <= i < s.current_paths[v].len() ==> {
            &&& s.g_scores.dom().contains(#[trigger] s.current_paths[v][i])
            &&& path_cost(s.current_paths[v].take(i + 1)) >= s.g_scores[s.current_paths[v][i]]
        }
    &&& forall|uv: (Point, Point)| #[trigger] s.considered_edges.contains(uv) ==> move_ok(ctx, uv.0, uv.1)
    &&& forall|v: Point| #[trigger] s.came_from.dom().contains(v) ==> move_ok(ctx, s.came_from[v], v)
}

/// The invariant tying a search state to its frontier, except for the closure
/// of the closed set under moves.
pub open spec fn state_inv_core(ctx: SearchCtx, s: StateView, fr: Seq<SearchNode>) -> bool {
    state_core(ctx, s) && frontier_sync(ctx, s, fr)
}

/// The closed set is closed under legal moves into the universe, except from
/// vertices of `x`: every neighbour of a closed vertex has been discovered.
pub open spec fn closure_except(ctx: SearchCtx, s: StateView, x: Set<Point>) -> bool {
    forall|u: Point, w: Point|
        s.closed.contains(u) && !x.contains(u) && #[trigger] move_ok(ctx, u, w) && universe(
            ctx,
        ).contains(w) ==> s.g_scores.dom().contains(w)
}

/// The full in-loop invariant of a run.
pub open spec fn state_inv(ctx: SearchCtx, s: StateView, fr: Seq<SearchNode>) -> bool {
    state_inv_core(ctx, s, fr) && closure_except(ctx, s, Set::empty())
}

/// What one relaxation can have done to the scores: nothing, a strict
/// improvement of the neighbour's g-score, or the discovery of a new vertex.
pub open spec fn relax_progress(o: StateView, s: StateView, nb: Point) -> bool {
    ||| (s.g_scores == o.g_scores && s.closed == o.closed && s.open == o.open)
    ||| (o.g_scores.dom().contains(nb) && s.g_scores[nb] < o.g_scores[nb])
    ||| !o.g_scores.dom().contains(nb)
}

/// What one relaxation of the edge from `current` to `nb` does, exactly:
/// either the recorded data is untouched (no improvement), or the neighbour's
/// g-score becomes the expanded vertex's score plus the edge distance, its
/// parent becomes the expanded vertex, its recorded path becomes the expanded
/// vertex's path extended by the neighbour, the edge is recorded as
/// considered, the neighbour joins the open set and leaves the closed set.
pub open spec fn relax_effect(o: StateView, s: StateView, current: Point, nb: Point) -> bool {
    ||| (s.g_scores == o.g_scores && s.current_paths == o.current_paths && s.came_from
        == o.came_from && s.considered_edges == o.considered_edges && s.closed == o.closed
        && s.open == o.open)
    ||| {
        &&& s.g_scores == o.g_scores.insert(nb, s.g_scores[nb])
        &&& s.g_scores[nb] as int == o.g_scores[current] as int + dist_spec(current, nb)
        &&& o.g_scores.dom().contains(nb) ==> s.g_scores[nb] < o.g_scores[nb]
        &&& s.came_from == o.came_from.insert(nb, current)
        &&& s.current_paths == o.current_paths.insert(nb, o.current_paths[current].push(nb))
        &&& s.considered_edges == o.considered_edges.insert((current, nb))
        &&& s.open == o.open.insert(nb)
        &&& s.closed == o.closed.remove(nb)
    }
}

/// Path costs are sums of distances, hence never negative.
pub proof fn lemma_path_cost_nonneg(p: Seq<Point>)
    ensures
        path_cost(p) >= 0,
    decreases p.len(),
{
    if p.len() > 1 {
        lemma_path_cost_nonneg(p.drop_last());
    }
}

/// A prefix of a path never costs more than the whole path.
pub proof fn lemma_prefix_cost_le(p: Seq<Point>, k: int)
    requires
        0 <= k <= p.len(),
    ensures
        path_cost(p.take(k)) <= path_cost(p),
    decreases p.len() - k,
{
    if k == p.len() {
        assert(p.take(k) =~= p);
    } else {
        lemma_prefix_cost_le(p, k + 1);
        let q = p.take(k + 1);
        assert(q.drop_last() =~= p.take(k));
        if k >= 1 {
            assert(path_cost(q) == path_cost(p.take(k)) + dist_spec(q[k - 1], q[k]));
        }
    }
}

/// A duplicate-free path inside the universe is no longer than the universe.
pub proof fn lemma_path_len(ctx: SearchCtx, p: Seq<Point>)
    requires
        ctx_ok(ctx),
        p.no_duplicates(),
        forall|i: int| 0 <= i < p.len() ==> universe(ctx).contains(#[trigger] p[i]),
    ensures
        p.len() <= universe(ctx).len(),
{
    p.unique_seq_to_set();
    assert forall|v: Point| p.to_set().contains(v) implies universe(ctx).contains(v) by {
        let i = choose|i: int| 0 <= i < p.len() && p[i] == v;
    }
    lemma_len_subset(p.to_set(), universe(ctx));
}

/// A path over in-range points costs at most one window diagonal per segment.
pub proof fn lemma_cost_upper(p: Seq<Point>)
    requires
        p.len() >= 1,
        forall|i: int| 0 <= i < p.len() ==> in_range(#[trigger] p[i]),
    ensures
        path_cost(p) <= (p.len() - 1) * (MAX_DIST as int),
    decreases p.len(),
{
    if p.len() == 1 {
    } else {
        assert(forall|i: int|
            0 <= i < p.drop_last().len() ==> in_range(#[trigger] p.drop_last()[i]));
        lemma_cost_upper(p.drop_last());
        crate::pathfinder::lemma_dist_range(p[p.len() - 2], p[p.len() - 1]);
    }
}

/// The cost of any valid recorded path fits under [`MAX_PATH_COST`].
pub proof fn lemma_path_cost_bound(ctx: SearchCtx, v: Point, p: Seq<Point>)
    requires
        ctx_ok(ctx),
        path_ok(ctx, v, p),
    ensures
        0 <= path_cost(p) <= MAX_PATH_COST,
{
    lemma_path_cost_nonneg(p);
    lemma_path_len(ctx, p);
    assert(forall|i: int| 0 <= i < p.len() ==> in_range(#[trigger] p[i]));
    lemma_cost_upper(p);
    assert((p.len() - 1) * (MAX_DIST as int) <= 1001 * (MAX_DIST as int)) by (nonlinear_arith)
        requires p.len() - 1 <= 1001;
}

} // verus!

verus! {

/// Removes and returns a frontier entry with the least f-score.
///
/// Which entry leaves among equal f-scores is unspecified; callers must not
/// depend on the tie-break.
pub(crate) fn pop_min(frontier: &mut Vec<SearchNode>) -> (node: SearchNode)
    requires
        old(frontier)@.len() > 0,
        fr_unique(old(frontier)@),
    ensures
        old(frontier)@.to_set().contains(node),
        fr_unique(final(frontier)@),
        final(frontier)@.to_set() == old(frontier)@.to_set().remove(node),
        fr_vertex_set(final(frontier)@) == fr_vertex_set(old(frontier)@).remove(node.vertex),
        forall|i: int|
            0 <= i < final(frontier)@.len() ==> old(frontier)@.to_set().contains(
                #[trigger] final(frontier)@[i],
            ),
        forall|i: int|
            0 <= i < old(frontier)@.len() ==> node.f_score <= (#[trigger] old(
                frontier,
            )@[i]).f_score,
{
    let n = frontier.len();
    let mut best: usize = 0;
    let mut i: usize = 1;
    while i < n
        invariant
            frontier == old(frontier),
            n == frontier@.len(),
            0 < n,
            best < i,
            i <= n,
            forall|j: int| 0 <= j < i ==> frontier@[best as int].f_score <= (#[trigger] frontier@[j]).f_score,
        decreases n - i,
    {
        if frontier[i].f_score < frontier[best].f_score {
            best = i;
        }
        i = i + 1;
    }
    let node = frontier[best];
    let ghost pre = frontier@;
    proof {
        assert forall|a: int, b: int| 0 <= a < b < pre.len() implies pre[a] != pre[b] by {
            assert(pre[a].vertex != pre[b].vertex);
        }
    }
    frontier.swap_remove(best);
    proof {
        crate::mapset::lemma_swap_remove_to_set(pre, best as int);
        let post = frontier@;
        assert forall|a: int, b: int| 0 <= a < b < post.len() implies post[a].vertex
            != post[b].vertex by {
            assert(post.no_duplicates());
            assert(pre.to_set().contains(post[a]) && pre.to_set().contains(post[b]));
            let ja = choose|j: int| 0 <= j < pre.len() && pre[j] == post[a];
            let jb = choose|j: int| 0 <= j < pre.len() && pre[j] == post[b];
            if post[a].vertex == post[b].vertex {
                assert(ja == jb);
            }
        }
        assert forall|v: Point| fr_vertex_set(post).contains(v) implies fr_vertex_set(pre).remove(
            node.vertex,
        ).contains(v) by {
            let j = choose|j: int| 0 <= j < post.len() && #[trigger] post[j].vertex == v;
            let jp = choose|j: int| 0 <= j < pre.len() && pre[j] == post[j as int];
            assert(pre.to_set().contains(post[j]));
            let jq = choose|k: int| 0 <= k < pre.len() && pre[k] == post[j];
            assert(pre[jq].vertex == v);
            if v == node.vertex {
                assert(pre[best as int].vertex == v && pre[jq] == post[j]);
                assert(post.to_set().contains(post[j]));
                assert(pre.to_set().remove(node).contains(post[j]));
                assert(post[j] != node);
                assert(jq != best as int);
                assert(false);
            }
        }
        assert forall|v: Point| fr_vertex_set(pre).remove(node.vertex).contains(v) implies
            fr_vertex_set(post).contains(v) by {
            let j = choose|j: int| 0 <= j < pre.len() && #[trigger] pre[j].vertex == v;
            assert(pre[j] != node);
            assert(pre.to_set().remove(node).contains(pre[j]));
            assert(post.to_set().contains(pre[j]));
            let k = choose|k: int| 0 <= k < post.len() && post[k] == pre[j];
            assert(post[k].vertex == v);
        }
        assert(fr_vertex_set(post) =~= fr_vertex_set(pre).remove(node.vertex));
        assert forall|i2: int| 0 <= i2 < post.len() implies pre.to_set().contains(
            #[trigger] post[i2],
        ) by {
            assert(post.to_set().contains(post[i2]));
        }
    }
    node
}

/// Replaces the scores of the frontier entry for `v`.
pub(crate) fn update_frontier_entry(frontier: &mut Vec<SearchNode>, v: Point, g: i32, f: i32)
    requires
        fr_unique(old(frontier)@),
        fr_vertex_set(old(frontier)@).contains(v),
    ensures
        fr_unique(final(frontier)@),
        final(frontier)@.len() == old(frontier)@.len(),
        fr_vertex_set(final(frontier)@) == fr_vertex_set(old(frontier)@),
        forall|i: int|
            0 <= i < final(frontier)@.len() ==> (#[trigger] final(frontier)@[i]).vertex == old(
                frontier,
            )@[i].vertex,
        forall|i: int|
            0 <= i < final(frontier)@.len() ==> if old(frontier)@[i].vertex == v {
                final(frontier)@[i] == (SearchNode { vertex: v, g_score: g, f_score: f })
            } else {
                final(frontier)@[i] == old(frontier)@[i]
            },
{
    let n = frontier.len();
    let mut i: usize = 0;
    while i < n
        invariant
            frontier == old(frontier),
            fr_unique(frontier@),
            n == frontier@.len(),
            i <= n,
            forall|j: int| 0 <= j < i ==> (#[trigger] frontier@[j]).vertex != v,
        decreases n - i,
    {
        if frontier[i].vertex == v {
            frontier.set(i, SearchNode { vertex: v, g_score: g, f_score: f });
            proof {
                let post = frontier@;
                let pre = old(frontier)@;
                assert forall|w: Point| fr_vertex_set(post).contains(w) implies fr_vertex_set(
                    pre,
                ).contains(w) by {
                    let j = choose|j: int| 0 <= j < post.len() && #[trigger] post[j].vertex == w;
                    assert(pre[j].vertex == w);
                }
                assert forall|w: Point| fr_vertex_set(pre).contains(w) implies fr_vertex_set(
                    post,
                ).contains(w) by {
                    let j = choose|j: int| 0 <= j < pre.len() && #[trigger] pre[j].vertex == w;
                    assert(post[j].vertex == w);
                }
                assert(fr_vertex_set(post) =~= fr_vertex_set(pre));
            }
            return ;
        }
        i = i + 1;
    }
    proof {
        let j = choose|j: int|
            0 <= j < old(frontier)@.len() && #[trigger] old(frontier)@[j].vertex == v;
        assert(false);
    }
}

} // verus!

verus! {

/// Relaxes the edge from the just-expanded vertex `current` to its neighbour
/// `nb`: if the path through `current` improves on what is recorded for `nb`
/// (or `nb` is new), the scores, parent, partial path and frontier are
/// updated and the edge is recorded as considered; otherwise nothing changes.
///
/// With `reopen` set, a closed neighbour that is strictly improved moves back
/// from the closed set to the frontier; without it the caller promises the
/// neighbour is not closed, so a closed vertex is never reopened.
#[verifier::rlimit(60)]
pub(crate) fn relax(
    Ghost(ctx): Ghost<SearchCtx>,
    Ghost(reopen): Ghost<bool>,
    state: &mut SearchState,
    frontier: &mut Vec<SearchNode>,
    current: Point,
    nb: Point,
    goal: Point,
    heuristic: Heuristic,
)
    requires
        ctx_ok(ctx),
        state_inv_core(ctx, old(state)@, old(frontier)@),
        goal == ctx.goal,
        heuristic == ctx.heuristic,
        move_ok(ctx, current, nb),
        old(state)@.closed.contains(current),
        universe(ctx).contains(nb),
        !reopen ==> !old(state)@.closed.contains(nb),
    ensures
        state_inv_core(ctx, final(state)@, final(frontier)@),
        final(state)@.g_scores.dom() == old(state)@.g_scores.dom().insert(nb),
        final(state)@.best_path == old(state)@.best_path,
        final(state)@.next_vertex == old(state)@.next_vertex,
        final(state)@.closed == old(state)@.closed || final(state)@.closed == old(state)@.closed.remove(nb),
        !reopen ==> final(state)@.closed == old(state)@.closed,
        forall|v: Point|
            #[trigger] old(state)@.g_scores.dom().contains(v) && v != nb
                ==> final(state)@.g_scores[v] == old(state)@.g_scores[v],
        final(state)@.g_scores[nb] <= MAX_PATH_COST,
        relax_progress(old(state)@, final(state)@, nb),
        relax_effect(old(state)@, final(state)@, current, nb),
{
    proof {
        assert(old(state)@.g_scores.dom().contains(current));
        assert(universe(ctx).contains(current));
        assert(old(state)@.current_paths.dom().contains(current));
        lemma_path_cost_bound(ctx, current, old(state)@.current_paths[current]);
        crate::pathfinder::lemma_dist_positive(current, nb);
    }
    let cg = match state.g_scores.get(current) {
        Some(g) => *g,
        None => vstd::pervasive::unreached(),
    };
    let d = distance(&current, &nb);
    let tentative = cg + d;
    let mut has_prior = false;
    let mut prior_g: i32 = 0;
    match state.g_scores.get(nb) {
        Some(g) => {
            has_prior = true;
            prior_g = *g;
        },
        None => {},
    }
    if has_prior && tentative >= prior_g {
        proof {
            assert(old(state)@.current_paths.dom().contains(nb));
            lemma_path_cost_bound(ctx, nb, old(state)@.current_paths[nb]);
            assert(state@.g_scores.dom() =~= old(state)@.g_scores.dom().insert(nb));
        }
        return ;
    }
    let ghost o = old(state)@;
    proof {
        lemma_new_path(ctx, o, current, nb, tentative as int);
    }
    let base = match state.current_paths.get(current) {
        Some(p) => copy_points(p),
        None => vstd::pervasive::unreached(),
    };
    let mut new_path = base;
    new_path.push(nb);
    let ghost np = new_path@;
    proof {
        assert(np == o.current_paths[current].push(nb));
    }
    let h = heuristic.distance(&nb, &goal);
    let f = tentative + h;
    state.came_from.insert(nb, current);
    state.g_scores.insert(nb, tentative);
    state.current_paths.insert(nb, new_path);
    state.considered_edges.insert(current, nb);
    let was_closed = state.closed.contains(nb);
    if has_prior {
        if was_closed {
            state.closed.remove(nb);
            state.open.insert(nb);
            proof {
                assert(!fr_vertex_set(frontier@).contains(nb));
            }
            frontier.push(SearchNode { vertex: nb, g_score: tentative, f_score: f });
            proof {
                lemma_fr_push(
                    old(frontier)@,
                    SearchNode { vertex: nb, g_score: tentative, f_score: f },
                );
            }
        } else {
            proof {
                assert(o.open.contains(nb));
                assert(state@.closed =~= o.closed.remove(nb));
                assert(state@.open =~= o.open.insert(nb));
            }
            update_frontier_entry(frontier, nb, tentative, f);
        }
    } else {
        proof {
            assert(!o.open.contains(nb) && !o.closed.contains(nb));
            assert(!fr_vertex_set(frontier@).contains(nb));
            assert(state@.closed =~= o.closed.remove(nb));
        }
        state.open.insert(nb);
        frontier.push(SearchNode { vertex: nb, g_score: tentative, f_score: f });
        proof {
            lemma_fr_push(
                old(frontier)@,
                SearchNode { vertex: nb, g_score: tentative, f_score: f },
            );
        }
    }
    proof {
        let s = state@;
        let fr = frontier@;
        assert(s.closed =~= o.closed.remove(nb));
        assert(s.open =~= o.open.insert(nb));
        lemma_relax_state(ctx, o, s, current, nb, np, tentative);
        // frontier entries agree with the new scores and avoid the closed set
        assert forall|i: int| 0 <= i < fr.len() implies {
            &&& s.g_scores.dom().contains((#[trigger] fr[i]).vertex)
            &&& s.g_scores[fr[i].vertex] == fr[i].g_score
            &&& !s.closed.contains(fr[i].vertex)
        } by {
            if fr[i].vertex != nb {
                if i < old(frontier)@.len() && fr[i] == old(frontier)@[i] {
                } else {
                    assert(i < old(frontier)@.len() && old(frontier)@[i].vertex == fr[i].vertex);
                }
            }
        }
        assert(s.open =~= fr_vertex_set(fr));
        assert(relax_effect(o, s, current, nb));
    }
}

/// Extending the expanded vertex's recorded path by one legal move gives a
/// valid path for the neighbour, costed by the tentative score; the neighbour
/// cannot already lie on that path, because every prefix of it costs at least
/// the neighbour's current g-score, which the tentative score undercuts.
#[verifier::rlimit(60)]
proof fn lemma_new_path(ctx: SearchCtx, o: StateView, current: Point, nb: Point, tentative: int)
    requires
        ctx_ok(ctx),
        state_core(ctx, o),
        o.closed.contains(current),
        move_ok(ctx, current, nb),
        universe(ctx).contains(nb),
        tentative == o.g_scores[current] + dist_spec(current, nb),
        o.g_scores.dom().contains(nb) ==> tentative < o.g_scores[nb],
    ensures
        path_ok(ctx, nb, o.current_paths[current].push(nb)),
        path_cost(o.current_paths[current].push(nb)) == tentative,
        0 <= tentative <= MAX_PATH_COST,
{
    assert(o.g_scores.dom().contains(current));
    assert(o.current_paths.dom().contains(current));
    let base0 = o.current_paths[current];
    let np = base0.push(nb);
    crate::pathfinder::lemma_dist_positive(current, nb);
    assert forall|i: int| 0 <= i < base0.len() implies base0[i] != nb by {
        if base0[i] == nb {
            assert(o.g_scores.dom().contains(base0[i]));
            assert(path_cost(base0.take(i + 1)) >= o.g_scores[nb]);
            lemma_prefix_cost_le(base0, i + 1);
            assert(path_cost(base0) == o.g_scores[current]);
            assert(tentative >= o.g_scores[nb] + 1);
        }
    }
    assert(np.drop_last() =~= base0);
    assert(np.last() == nb);
    assert(np[np.len() - 2] == base0.last() && base0.last() == current);
    assert(path_ok(ctx, nb, np)) by {
        assert(np[0] == base0[0]);
        assert forall|a: int, b: int| 0 <= a < b < np.len() implies np[a] != np[b] by {
            if b < np.len() - 1 {
                assert(np[a] == base0[a] && np[b] == base0[b]);
            } else {
                if a < np.len() - 1 {
                    assert(np[a] == base0[a] && np[b] == nb);
                }
            }
        }
        assert forall|i: int| 0 <= i < np.len() implies universe(ctx).contains(
            #[trigger] np[i],
        ) by {
            if i < np.len() - 1 {
                assert(np[i] == base0[i]);
            }
        }
        assert forall|i: int| 0 <= i < np.len() - 1 implies move_ok(
            ctx,
            #[trigger] np[i],
            np[i + 1],
        ) by {
            if i < np.len() - 2 {
                assert(np[i] == base0[i] && np[i + 1] == base0[i + 1]);
            } else {
                assert(np[i] == current && np[i + 1] == nb);
            }
        }
    }
    assert(path_cost(np) == path_cost(base0) + dist_spec(current, nb));
    lemma_path_cost_bound(ctx, nb, np);
}

/// After an improving relaxation the pure state invariant holds again:
/// the new path for `nb` is valid and costed by the new g-score, and every
/// prefix-dominance claim survives because the one g-score that moved went
/// down.
#[verifier::rlimit(60)]
proof fn lemma_relax_state(
    ctx: SearchCtx,
    o: StateView,
    s: StateView,
    current: Point,
    nb: Point,
    np: Seq<Point>,
    tentative: i32,
)
    requires
        ctx_ok(ctx),
        state_core(ctx, o),
        o.closed.contains(current),
        move_ok(ctx, current, nb),
        universe(ctx).contains(nb),
        np == o.current_paths[current].push(nb),
        path_ok(ctx, nb, np),
        path_cost(np) == tentative,
        o.g_scores.dom().contains(nb) ==> tentative < o.g_scores[nb],
        s.g_scores == o.g_scores.insert(nb, tentative),
        s.current_paths == o.current_paths.insert(nb, np),
        s.came_from == o.came_from.insert(nb, current),
        s.considered_edges == o.considered_edges.insert((current, nb)),
        s.open == o.open.insert(nb),
        s.closed == o.closed.remove(nb),
    ensures
        state_core(ctx, s),
        s.g_scores.dom() == o.g_scores.dom().insert(nb),
{
    assert(o.g_scores.dom().contains(current));
    assert(o.current_paths.dom().contains(current));
    let base0 = o.current_paths[current];
    assert(np.drop_last() =~= base0);
    assert(s.g_scores.dom() =~= o.g_scores.dom().insert(nb));
    assert(s.current_paths.dom() =~= s.g_scores.dom());
    assert(s.open.disjoint(s.closed));
    assert(s.g_scores.dom() =~= s.open.union(s.closed));
    lemma_path_cost_nonneg(np);
    lemma_path_cost_bound(ctx, nb, np);
    // every recorded path is valid and costed by its g-score
    assert forall|v: Point| #[trigger] s.current_paths.dom().contains(v) implies path_ok(
        ctx,
        v,
        s.current_paths[v],
    ) && path_cost(s.current_paths[v]) == s.g_scores[v] && 0 <= s.g_scores[v] && s.g_scores[v]
        <= MAX_PATH_COST by {
        if v != nb {
            assert(s.current_paths[v] == o.current_paths[v]);
        }
    }
    // prefix dominance survives
    assert forall|v: Point, i: int|
        s.current_paths.dom().contains(v) && 0 <= i < s.current_paths[v].len() implies {
            &&& s.g_scores.dom().contains(#[trigger] s.current_paths[v][i])
            &&& path_cost(s.current_paths[v].take(i + 1)) >= s.g_scores[s.current_paths[v][i]]
        } by {
        lemma_relax_dominance(ctx, o, s, current, nb, np, tentative, v, i);
    }
    // considered edges and parents stay legal moves
    assert forall|uv: (Point, Point)| #[trigger] s.considered_edges.contains(uv) implies move_ok(
        ctx,
        uv.0,
        uv.1,
    ) by {
        if uv != (current, nb) {
            assert(o.considered_edges.contains(uv));
        }
    }
    assert forall|v: Point| #[trigger] s.came_from.dom().contains(v) implies move_ok(
        ctx,
        s.came_from[v],
        v,
    ) by {
        if v != nb {
            assert(o.came_from.dom().contains(v) && s.came_from[v] == o.came_from[v]);
        }
    }
}

/// One prefix-dominance claim after an improving relaxation.
#[verifier::rlimit(60)]
proof fn lemma_relax_dominance(
    ctx: SearchCtx,
    o: StateView,
    s: StateView,
    current: Point,
    nb: Point,
    np: Seq<Point>,
    tentative: i32,
    v: Point,
    i: int,
)
    requires
        ctx_ok(ctx),
        state_core(ctx, o),
        o.closed.contains(current),
        np == o.current_paths[current].push(nb),
        path_ok(ctx, nb, np),
        path_cost(np) == tentative,
        o.g_scores.dom().contains(nb) ==> tentative < o.g_scores[nb],
        s.g_scores == o.g_scores.insert(nb, tentative),
        s.current_paths == o.current_paths.insert(nb, np),
        s.current_paths.dom().contains(v),
        0 <= i < s.current_paths[v].len(),
    ensures
        s.g_scores.dom().contains(s.current_paths[v][i]),
        path_cost(s.current_paths[v].take(i + 1)) >= s.g_scores[s.current_paths[v][i]],
{
    let p = s.current_paths[v];
    let w = p[i];
    assert(o.g_scores.dom().contains(current));
    assert(o.current_paths.dom().contains(current));
    let base0 = o.current_paths[current];
    if v == nb {
        assert(p == np);
        if i < p.len() - 1 {
            assert(w == base0[i]);
            assert(p.take(i + 1) =~= base0.take(i + 1));
            assert(path_cost(base0.take(i + 1)) >= o.g_scores[base0[i]]);
            assert(w != nb) by {
                assert(np[i] == w && np[np.len() - 1] == nb);
            }
            assert(s.g_scores[w] == o.g_scores[w]);
        } else {
            assert(w == nb);
            assert(p.take(i + 1) =~= p);
            assert(path_cost(p) == tentative);
        }
    } else {
        assert(p == o.current_paths[v]);
        assert(o.g_scores.dom().contains(w));
        assert(path_cost(p.take(i + 1)) >= o.g_scores[w]);
        if w == nb {
            assert(s.g_scores[nb] == tentative);
        } else {
            assert(s.g_scores[w] == o.g_scores[w]);
        }
    }
}

/// Pushing a node extends the frontier's vertex set by its vertex, and keeps
/// the entries unique when the vertex was not there.
proof fn lemma_fr_push(fr: Seq<SearchNode>, node: SearchNode)
    requires
        fr_unique(fr),
        !fr_vertex_set(fr).contains(node.vertex),
    ensures
        fr_unique(fr.push(node)),
        fr_vertex_set(fr.push(node)) == fr_vertex_set(fr).insert(node.vertex),
{
    let post = fr.push(node);
    assert forall|a: int, b: int| 0 <= a < b < post.len() implies post[a].vertex
        != post[b].vertex by {
        if b == post.len() - 1 {
            assert(post[a] == fr[a]);
            if fr[a].vertex == node.vertex {
                assert(fr_vertex_set(fr).contains(node.vertex));
            }
        } else {
            assert(post[a] == fr[a] && post[b] == fr[b]);
        }
    }
    assert forall|v: Point| fr_vertex_set(post).contains(v) implies fr_vertex_set(fr).insert(
        node.vertex,
    ).contains(v) by {
        let i = choose|i: int| 0 <= i < post.len() && #[trigger] post[i].vertex == v;
        if i < fr.len() {
            assert(fr[i].vertex == v);
        }
    }
    assert forall|v: Point| fr_vertex_set(fr).insert(node.vertex).contains(v) implies
        fr_vertex_set(post).contains(v) by {
        if v == node.vertex {
            assert(post[post.len() - 1].vertex == v);
        } else {
            let i = choose|i: int| 0 <= i < fr.len() && #[trigger] fr[i].vertex == v;
            assert(post[i].vertex == v);
        }
    }
    assert(fr_vertex_set(post) =~= fr_vertex_set(fr).insert(node.vertex));
}

} // verus!

verus! {

/// The termination weight of one vertex: its g-score once discovered, and
/// one more than any possible score before that.
pub open spec fn weight(g: Map<Point, i32>, v: Point) -> int {
    if g.dom().contains(v) {
        g[v] as int
    } else {
        MAX_PATH_COST + 1
    }
}

/// The sum of the termination weights over a list of vertices.
pub open spec fn wsum(s: Seq<Point>, g: Map<Point, i32>) -> int
    decreases s.len(),
{
    if s.len() == 0 {
        0
    } else {
        wsum(s.drop_last(), g) + weight(g, s.last())
    }
}

/// A sum of non-negative weights is non-negative.
pub proof fn lemma_wsum_nonneg(s: Seq<Point>, g: Map<Point, i32>)
    requires
        forall|v: Point| #[trigger] g.dom().contains(v) ==> g[v] >= 0,
    ensures
        wsum(s, g) >= 0,
    decreases s.len(),
{
    if s.len() > 0 {
        lemma_wsum_nonneg(s.drop_last(), g);
    }
}

/// Weights that never grow keep the sum from growing.
pub proof fn lemma_wsum_le(s: Seq<Point>, g1: Map<Point, i32>, g2: Map<Point, i32>)
    requires
        forall|v: Point| weight(g2, v) <= weight(g1, v),
    ensures
        wsum(s, g2) <= wsum(s, g1),
    decreases s.len(),
{
    if s.len() > 0 {
        lemma_wsum_le(s.drop_last(), g1, g2);
        assert(weight(g2, s.last()) <= weight(g1, s.last()));
    }
}

/// Weights that never grow and strictly drop at a listed vertex strictly
/// shrink the sum.
pub proof fn lemma_wsum_lt(s: Seq<Point>, g1: Map<Point, i32>, g2: Map<Point, i32>, x: Point)
    requires
        forall|v: Point| weight(g2, v) <= weight(g1, v),
        s.contains(x),
        weight(g2, x) < weight(g1, x),
    ensures
        wsum(s, g2) < wsum(s, g1),
    decreases s.len(),
{
    if s.last() == x {
        lemma_wsum_le(s.drop_last(), g1, g2);
    } else {
        let i = choose|i: int| 0 <= i < s.len() && s[i] == x;
        assert(s.drop_last()[i] == x);
        lemma_wsum_lt(s.drop_last(), g1, g2, x);
        assert(weight(g2, s.last()) <= weight(g1, s.last()));
    }
}

} // verus!

verus! {

/// The ghost image of a whole pathfinder: its inputs, the graph it searched
/// over (empty for the incremental variant), the snapshot history, the replay
/// cursor, and the outcome.
pub struct PfView {
    pub board: Seq<Seq<Point>>,
    pub start: Point,
    pub goal: Point,
    pub heuristic: Heuristic,
    pub graph: Map<Point, Set<Point>>,
    pub state: StateView,
    pub history: Seq<StateView>,
    pub current_step: int,
    pub optimal_path: Option<(Seq<Point>, int)>,
}

/// The run context a pathfinder view stands for.
pub open spec fn pf_ctx(v: PfView, variant: SearchVariant) -> SearchCtx {
    SearchCtx {
        variant,
        board: v.board,
        graph: v.graph,
        start: v.start,
        goal: v.goal,
        heuristic: v.heuristic,
    }
}

/// A pathfinder's replay well-formedness: the cursor is inside the history
/// and the exposed state is the snapshot under the cursor.
pub open spec fn pf_wf(v: PfView) -> bool {
    &&& v.history.len() >= 1
    &&& 0 <= v.current_step < v.history.len()
    &&& v.state == v.history[v.current_step]
}

/// A chain of legal moves through the universe from `a` to `b`.
pub open spec fn is_link(ctx: SearchCtx, a: Point, b: Point, p: Seq<Point>) -> bool {
    &&& p.len() >= 1
    &&& p[0] == a
    &&& p.last() == b
    &&& forall|i: int| 0 <= i < p.len() ==> universe(ctx).contains(#[trigger] p[i])
    &&& forall|i: int| 0 <= i < p.len() - 1 ==> move_ok(ctx, #[trigger] p[i], p[i + 1])
}

/// Whether `b` can be reached from `a` by legal moves through the universe.
pub open spec fn spec_reachable(ctx: SearchCtx, a: Point, b: Point) -> bool {
    exists|p: Seq<Point>| is_link(ctx, a, b, p)
}

/// Whether a snapshot shows a heuristic-respecting expansion about to
/// happen: its next vertex is an open vertex whose g-score plus heuristic
/// estimate is minimal over the whole open set (ties broken arbitrarily).
pub open spec fn expands_minimal(ctx: SearchCtx, s: StateView) -> bool {
    match s.next_vertex {
        Some(v) => {
            &&& s.open.contains(v)
            &&& !s.closed.contains(v)
            &&& forall|w: Point|
                #[trigger] s.open.contains(w) ==> s.g_scores[v] + h_spec(
                    ctx.heuristic,
                    v,
                    ctx.goal,
                ) <= s.g_scores[w] + h_spec(ctx.heuristic, w, ctx.goal)
        },
        None => false,
    }
}

/// Whether the vertex a snapshot was about to expand is closed in a later
/// snapshot.
pub open spec fn next_closed_in(s: StateView, t: StateView) -> bool {
    match s.next_vertex {
        Some(v) => t.closed.contains(v),
        None => false,
    }
}

/// Whether every vertex discovered in `a` is still discovered in `b` with a
/// g-score no larger: recorded g-scores only ever decrease as a run goes on.
pub open spec fn scores_descend(a: StateView, b: StateView) -> bool {
    forall|v: Point|
        #[trigger] a.g_scores.dom().contains(v) ==> b.g_scores.dom().contains(v) && b.g_scores[v]
            <= a.g_scores[v]
}

/// Between one recorded snapshot and the next, the expanded vertex moves
/// from open to closed, so adjacent snapshots always differ in their closed
/// sets (and hence as states).
pub proof fn lemma_adjacent_snapshots_differ(ctx: SearchCtx, hist: Seq<StateView>, i: int)
    requires
        forall|k: int| 0 <= k < hist.len() ==> state_core(ctx, #[trigger] hist[k]),
        forall|k: int| 0 <= k < hist.len() - 1 ==> expands_minimal(ctx, #[trigger] hist[k]),
        forall|k: int| 0 <= k < hist.len() - 1 ==> next_closed_in(#[trigger] hist[k], hist[k + 1]),
        0 <= i < hist.len() - 1,
    ensures
        hist[i].closed != hist[i + 1].closed,
{
    let v = choose|v: Point| hist[i].next_vertex == Some(v);
    assert(hist[i].open.contains(v));
    assert(!hist[i].closed.contains(v));
    assert(hist[i + 1].closed.contains(v));
}

/// Descending scores compose.
pub proof fn lemma_scores_descend_trans(a: StateView, b: StateView, c: StateView)
    requires
        scores_descend(a, b),
        scores_descend(b, c),
    ensures
        scores_descend(a, c),
{
}

/// What a finished run guarantees: every snapshot is a valid state showing a
/// heuristic-minimal expansion, recorded g-scores only ever descend, closed
/// sets grow monotonically in the visibility variant, and the outcome is a
/// valid, exactly costed path to the goal recorded in the last snapshot, or a
/// proof that no path exists.
///
/// Deliberately not claimed: that the returned cost is minimal over all
/// valid paths. Costs are truncated per segment, and in that truncated
/// metric the straight-line estimate can overestimate the cost of a
/// multi-segment route (and the Manhattan estimate always can), so neither
/// heuristic is admissible and the textbook optimality argument does not
/// apply; a run returns the first goal path its frontier discipline pops.
pub open spec fn run_ok(
    ctx: SearchCtx,
    hist: Seq<StateView>,
    opt: Option<(Seq<Point>, int)>,
) -> bool {
    &&& hist.len() >= 1
    &&& ctx.variant == SearchVariant::VisibilityGraph ==> forall|i: int, j: int|
        0 <= i <= j < hist.len() ==> (#[trigger] hist[i]).closed.subset_of(
            (#[trigger] hist[j]).closed,
        )
    &&& forall|i: int| 0 <= i < hist.len() ==> state_core(ctx, #[trigger] hist[i])
    &&& forall|i: int| 0 <= i < hist.len() - 1 ==> expands_minimal(ctx, #[trigger] hist[i])
    &&& forall|i: int| 0 <= i < hist.len() - 1 ==> next_closed_in(#[trigger] hist[i], hist[i + 1])
    &&& forall|i: int| 0 <= i < hist.len() - 1 ==> (#[trigger] hist[i]).best_path is None
    &&& hist.last().next_vertex is None
    &&& forall|i: int, j: int|
        0 <= i <= j < hist.len() ==> scores_descend(#[trigger] hist[i], #[trigger] hist[j])
    &&& match opt {
        Some(pc) => {
            &&& path_ok(ctx, ctx.goal, pc.0)
            &&& pc.1 == path_cost(pc.0)
            &&& hist.last().best_path == Some(pc.0)
            &&& hist.last().open.contains(ctx.goal)
        },
        None => {
            &&& hist.last().best_path is None
            &&& !spec_reachable(ctx, ctx.start, ctx.goal)
        },
    }
}

/// Every vertex of a link out of a closed-under-moves closed set stays
/// closed.
proof fn lemma_link_stays_closed(ctx: SearchCtx, s: StateView, p: Seq<Point>, k: int)
    requires
        state_core(ctx, s),
        closure_except(ctx, s, Set::empty()),
        s.open.is_empty(),
        is_link(ctx, ctx.start, ctx.goal, p),
        0 <= k < p.len(),
    ensures
        s.closed.contains(p[k]),
    decreases k,
{
    assert(s.g_scores.dom() =~= s.closed) by {
        assert forall|w: Point| s.g_scores.dom().contains(w) implies s.closed.contains(w) by {
            assert(s.open.union(s.closed).contains(w));
            assert(!s.open.contains(w));
        }
    }
    if k == 0 {
        assert(s.g_scores.dom().contains(ctx.start));
    } else {
        lemma_link_stays_closed(ctx, s, p, k - 1);
        assert(move_ok(ctx, p[k - 1], p[k]));
        assert(universe(ctx).contains(p[k]));
        assert(s.g_scores.dom().contains(p[k]));
    }
}

/// When the frontier runs dry without the goal being closed, no chain of
/// legal moves joins the start to the goal.
pub proof fn lemma_exhausted_unreachable(ctx: SearchCtx, s: StateView)
    requires
        state_core(ctx, s),
        closure_except(ctx, s, Set::empty()),
        s.open.is_empty(),
        !s.closed.contains(ctx.goal),
    ensures
        !spec_reachable(ctx, ctx.start, ctx.goal),
{
    if spec_reachable(ctx, ctx.start, ctx.goal) {
        let p = choose|p: Seq<Point>| is_link(ctx, ctx.start, ctx.goal, p);
        lemma_link_stays_closed(ctx, s, p, p.len() - 1);
    }
}

} // verus!

verus! {

/// Two equal search states up to the displayed best path and next vertex
/// satisfy the same pure state invariant.
pub proof fn lemma_state_core_same_fields(ctx: SearchCtx, a: StateView, b: StateView)
    requires
        state_core(ctx, a),
        b.open == a.open,
        b.closed == a.closed,
        b.current_paths == a.current_paths,
        b.g_scores == a.g_scores,
        b.considered_edges == a.considered_edges,
        b.came_from == a.came_from,
    ensures
        state_core(ctx, b),
{
}

/// A state whose scores, paths, edges and parents are unchanged and whose
/// open and closed sets still partition the discovered vertices satisfies the
/// pure state invariant again.
pub proof fn lemma_state_core_repartition(ctx: SearchCtx, a: StateView, b: StateView)
    requires
        state_core(ctx, a),
        b.current_paths == a.current_paths,
        b.g_scores == a.g_scores,
        b.considered_edges == a.considered_edges,
        b.came_from == a.came_from,
        b.open.disjoint(b.closed),
        b.g_scores.dom() == b.open.union(b.closed),
        !b.closed.contains(ctx.goal),
    ensures
        state_core(ctx, b),
{
    assert forall|v: Point| #[trigger] b.current_paths.dom().contains(v) implies path_ok(
        ctx,
        v,
        b.current_paths[v],
    ) && path_cost(b.current_paths[v]) == b.g_scores[v] && 0 <= b.g_scores[v] && b.g_scores[v]
        <= MAX_PATH_COST by {
        assert(a.current_paths.dom().contains(v));
    }
    assert forall|v: Point, i: int|
        b.current_paths.dom().contains(v) && 0 <= i < b.current_paths[v].len() implies {
            &&& b.g_scores.dom().contains(#[trigger] b.current_paths[v][i])
            &&& path_cost(b.current_paths[v].take(i + 1)) >= b.g_scores[b.current_paths[v][i]]
        } by {
        assert(a.current_paths.dom().contains(v) && a.current_paths[v] == b.current_paths[v]);
        assert(a.g_scores.dom().contains(a.current_paths[v][i]) && path_cost(
            a.current_paths[v].take(i + 1),
        ) >= a.g_scores[a.current_paths[v][i]]);
    }
}

/// Whether no polygon of the board blocks a move from `from` to `to`.
pub fn is_valid_move(board: &Board, from: &Point, to: &Point) -> (r: bool)
    ensures
        r == valid_move_spec(board@, *from, *to),
{
    if from.x == to.x && from.y == to.y {
        return false;
    }
    let polys = board.polygons();
    let n = polys.len();
    let mut i: usize = 0;
    while i < n
        invariant
            n == polys@.len(),
            n == board@.len(),
            forall|k: int| 0 <= k < n ==> #[trigger] polys@[k]@ == board@[k],
            i <= n,
            forall|j: int| 0 <= j < i ==> !crate::polygon::seg_blocked(#[trigger] board@[j], *from, *to),
        decreases n - i,
    {
        if polys[i].intersects_segment(from, to) {
            return false;
        }
        i = i + 1;
    }
    true
}

/// The successors the incremental variant generates on demand from a vertex:
/// every polygon vertex, plus the goal, that an unblocked segment reaches.
pub(crate) fn get_successors(board: &Board, current: Point, goal: Point) -> (succs: Vec<Point>)
    ensures
        forall|l: int|
            0 <= l < succs@.len() ==> valid_move_spec(board@, current, #[trigger] succs@[l]) && (
            board_vert_set(board@).contains(succs@[l]) || succs@[l] == goal),
        forall|w: Point|
            (board_vert_set(board@).contains(w) || w == goal) && #[trigger] valid_move_spec(
                board@,
                current,
                w,
            ) ==> succs@.contains(w),
{
    let mut succs: Vec<Point> = Vec::new();
    let vset = board.vertices();
    let verts = vset.as_vec();
    let n = verts.len();
    let mut i: usize = 0;
    while i < n
        invariant
            n == verts@.len(),
            verts@.to_set() == board_vert_set(board@),
            i <= n,
            forall|l: int|
                0 <= l < succs@.len() ==> valid_move_spec(board@, current, #[trigger] succs@[l])
                    && board_vert_set(board@).contains(succs@[l]),
            forall|j: int|
                0 <= j < i && valid_move_spec(board@, current, #[trigger] verts@[j])
                    ==> succs@.contains(verts@[j]),
        decreases n - i,
    {
        let v = verts[i];
        let ghost pre = succs@;
        if is_valid_move(board, &current, &v) {
            succs.push(v);
            proof {
                assert forall|j: int|
                    0 <= j < i + 1 && valid_move_spec(board@, current, #[trigger] verts@[j])
                        implies succs@.contains(verts@[j]) by {
                    if j < i {
                        let l = choose|l: int| 0 <= l < pre.len() && pre[l] == verts@[j];
                        assert(succs@[l] == verts@[j]);
                    } else {
                        assert(succs@[succs@.len() - 1] == v);
                    }
                }
            }
        } else {
            proof {
                assert forall|j: int|
                    0 <= j < i + 1 && valid_move_spec(board@, current, #[trigger] verts@[j])
                        implies succs@.contains(verts@[j]) by {
                    if j < i {
                    }
                }
            }
        }
        i = i + 1;
    }
    let ghost pre = succs@;
    if is_valid_move(board, &current, &goal) {
        succs.push(goal);
    }
    proof {
        assert forall|w: Point|
            (board_vert_set(board@).contains(w) || w == goal) && #[trigger] valid_move_spec(
                board@,
                current,
                w,
            ) implies succs@.contains(w) by {
            if board_vert_set(board@).contains(w) {
                assert(verts@.to_set().contains(w));
                let j = choose|j: int| 0 <= j < verts@.len() && verts@[j] == w;
                assert(pre.contains(w));
                let l = choose|l: int| 0 <= l < pre.len() && pre[l] == w;
                assert(succs@[l] == w);
            } else {
                assert(w == goal);
                assert(succs@[succs@.len() - 1] == goal);
            }
        }
    }
    succs
}

} // verus!

verus! {

/// Finishes a run on the goal pop: records the found path as the best path
/// in a final snapshot and returns it with its cost.
fn finish_goal(
    Ghost(ctx): Ghost<SearchCtx>,
    state: &mut SearchState,
    history: &mut Vec<SearchState>,
    current: Point,
) -> (r: (Vec<Point>, i32))
    requires
        ctx_ok(ctx),
        state_core(ctx, old(state)@),
        old(state)@.g_scores.dom().contains(current),
        old(state)@.open.contains(current),
        current == ctx.goal,
    ensures
        final(history)@.len() == old(history)@.len() + 1,
        forall|k: int| 0 <= k < old(history)@.len() ==> final(history)@[k] == old(history)@[k],
        final(history)@.last()@ == final(state)@,
        state_core(ctx, final(state)@),
        final(state)@.closed == old(state)@.closed,
        final(state)@.open == old(state)@.open,
        final(state)@.g_scores == old(state)@.g_scores,
        final(state)@.next_vertex is None,
        path_ok(ctx, ctx.goal, r.0@),
        r.1 as int == path_cost(r.0@),
        final(state)@.best_path == Some(r.0@),
{
    let ghost o = old(state)@;
    let path = match state.current_paths.get(current) {
        Some(p) => copy_points(p),
        None => vstd::pervasive::unreached(),
    };
    let cost = match state.g_scores.get(current) {
        Some(g) => *g,
        None => vstd::pervasive::unreached(),
    };
    let shown = copy_points(&path);
    state.best_path = Some(shown);
    state.next_vertex = None;
    history.push(state.clone());
    proof {
        lemma_state_core_same_fields(ctx, o, state@);
        assert(final(history)@.last()@ == state@);
    }
    (path, cost)
}

/// Moves the popped vertex from the open set to the closed set, after
/// appending the snapshot that shows it about to close.
fn close_vertex(
    Ghost(ctx): Ghost<SearchCtx>,
    Ghost(fr0): Ghost<Seq<SearchNode>>,
    state: &mut SearchState,
    history: &mut Vec<SearchState>,
    Ghost(fr1): Ghost<Seq<SearchNode>>,
    current: Point,
)
    requires
        ctx_ok(ctx),
        state_inv(ctx, old(state)@, fr0),
        old(state)@.best_path is None,
        fr_vertex_set(fr1) == fr_vertex_set(fr0).remove(current),
        fr_unique(fr1),
        forall|i: int|
            0 <= i < fr1.len() ==> {
                &&& old(state)@.g_scores.dom().contains((#[trigger] fr1[i]).vertex)
                &&& old(state)@.g_scores[fr1[i].vertex] == fr1[i].g_score
                &&& !old(state)@.closed.contains(fr1[i].vertex)
                &&& fr1[i].f_score == fr1[i].g_score + h_spec(
                    ctx.heuristic,
                    fr1[i].vertex,
                    ctx.goal,
                )
            },
        old(state)@.open.contains(current),
        current != ctx.goal,
        forall|w: Point|
            #[trigger] old(state)@.open.contains(w) ==> old(state)@.g_scores[current] + h_spec(
                ctx.heuristic,
                current,
                ctx.goal,
            ) <= old(state)@.g_scores[w] + h_spec(ctx.heuristic, w, ctx.goal),
    ensures
        final(history)@.len() == old(history)@.len() + 1,
        forall|k: int| 0 <= k < old(history)@.len() ==> final(history)@[k] == old(history)@[k],
        state_core(ctx, final(history)@.last()@),
        final(history)@.last()@.closed == old(state)@.closed,
        final(history)@.last()@.best_path is None,
        final(history)@.last()@.next_vertex == Some(current),
        final(history)@.last()@.g_scores == old(state)@.g_scores,
        expands_minimal(ctx, final(history)@.last()@),
        state_inv_core(ctx, final(state)@, fr1),
        closure_except(ctx, final(state)@, Set::empty().insert(current)),
        final(state)@.best_path is None,
        final(state)@.closed == old(state)@.closed.insert(current),
        final(state)@.closed.finite(),
        final(state)@.closed.contains(current),
        final(state)@.g_scores == old(state)@.g_scores,
        final(state)@.open == old(state)@.open.remove(current),
        !old(state)@.closed.contains(current),
{
    let ghost o = old(state)@;
    state.next_vertex = Some(current);
    let snap = state.clone();
    proof {
        lemma_state_core_same_fields(ctx, o, snap@);
        assert(expands_minimal(ctx, snap@));
    }
    history.push(snap);
    state.open.remove(current);
    state.closed.insert(current);
    proof {
        assert(state@.open =~= fr_vertex_set(fr1));
        assert(state@.g_scores.dom() =~= state@.open.union(state@.closed));
        assert forall|i: int| 0 <= i < fr1.len() implies !state@.closed.contains(
            (#[trigger] fr1[i]).vertex,
        ) by {
            assert(fr_vertex_set(fr1).contains(fr1[i].vertex));
            assert(fr1[i].vertex != current);
            assert(!o.closed.contains(fr1[i].vertex));
        }
        assert forall|u: Point, w: Point|
            state@.closed.contains(u) && !Set::<Point>::empty().insert(current).contains(u)
                && #[trigger] move_ok(ctx, u, w) && universe(ctx).contains(w) implies state@
            .g_scores.dom().contains(w) by {
            assert(o.closed.contains(u));
        }
        assert(state@.open.disjoint(state@.closed)) by {
            assert forall|w: Point| state@.open.contains(w) implies !state@.closed.contains(
                w,
            ) by {
                assert(o.open.contains(w) && w != current);
                assert(!o.closed.contains(w));
            }
        }
        lemma_state_core_repartition(ctx, o, state@);
        assert(frontier_sync(ctx, state@, fr1));
    }
}

/// One expansion: pops the best frontier vertex; on the goal it records the
/// found path in a final snapshot and reports the outcome, otherwise it
/// appends a snapshot showing the vertex about to close, closes it, and
/// relaxes every legal move out of it (generated from the visibility graph
/// or on demand, by variant).
#[verifier::rlimit(100)]
#[verifier::spinoff_prover]
pub(crate) fn expand_step(
    Ghost(ctx): Ghost<SearchCtx>,
    board: &Board,
    graph: &PointMap<PointSet>,
    variant: SearchVariant,
    state: &mut SearchState,
    frontier: &mut Vec<SearchNode>,
    history: &mut Vec<SearchState>,
    goal: Point,
    heuristic: Heuristic,
) -> (res: Option<Option<(Vec<Point>, i32)>>)
    requires
        ctx_ok(ctx),
        goal == ctx.goal,
        heuristic == ctx.heuristic,
        variant == ctx.variant,
        board@ == ctx.board,
        graph@ == ctx.graph,
        old(frontier)@.len() > 0,
        state_inv(ctx, old(state)@, old(frontier)@),
        old(state)@.best_path is None,
        old(state)@.closed.finite(),
    ensures
        final(history)@.len() == old(history)@.len() + 1,
        forall|k: int| 0 <= k < old(history)@.len() ==> final(history)@[k] == old(history)@[k],
        state_core(ctx, final(history)@.last()@),
        final(history)@.last()@.closed == old(state)@.closed,
        match res {
            None => {
                &&& state_inv(ctx, final(state)@, final(frontier)@)
                &&& final(state)@.best_path is None
                &&& final(state)@.closed.finite()
                &&& expands_minimal(ctx, final(history)@.last()@)
                &&& final(history)@.last()@.best_path is None
                &&& final(history)@.last()@.g_scores == old(state)@.g_scores
                &&& next_closed_in(final(history)@.last()@, final(state)@)
                &&& scores_descend(old(state)@, final(state)@)
                &&& (ctx.variant == SearchVariant::VisibilityGraph ==> old(
                    state,
                )@.closed.subset_of(final(state)@.closed))
                &&& ((forall|v: Point| weight(final(state)@.g_scores, v) <= weight(
                    old(state)@.g_scores,
                    v,
                )) && (exists|x: Point|
                    universe(ctx).contains(x) && weight(final(state)@.g_scores, x) < weight(
                        old(state)@.g_scores,
                        x,
                    )) || (final(state)@.g_scores == old(state)@.g_scores && old(
                    state,
                )@.closed.subset_of(final(state)@.closed) && final(state)@.closed.len() > old(
                    state,
                )@.closed.len()))
            },
            Some(opt) => {
                &&& final(state)@.closed == old(state)@.closed
                &&& final(history)@.last()@.next_vertex is None
                &&& final(history)@.last()@.open.contains(ctx.goal)
                &&& final(history)@.last()@.g_scores == old(state)@.g_scores
                &&& match opt {
                    Some(pc) => {
                        &&& path_ok(ctx, ctx.goal, pc.0@)
                        &&& pc.1 as int == path_cost(pc.0@)
                        &&& final(history)@.last()@.best_path == Some(pc.0@)
                    },
                    None => false,
                }
            },
        },
{
    let ghost o = old(state)@;
    let ghost fr0 = frontier@;
    let node = pop_min(frontier);
    let current = node.vertex;
    proof {
        let i = choose|i: int| 0 <= i < fr0.len() && fr0[i] == node;
        assert(fr0[i].vertex == current);
        assert(fr_vertex_set(fr0).contains(current));
        assert(o.open.contains(current));
        assert(o.g_scores.dom().contains(current));
        assert(universe(ctx).contains(current));
        assert(node.f_score == node.g_score + h_spec(ctx.heuristic, current, ctx.goal));
        assert(o.g_scores[current] == node.g_score);
        assert forall|w: Point| #[trigger] o.open.contains(w) implies o.g_scores[current] + h_spec(
            ctx.heuristic,
            current,
            ctx.goal,
        ) <= o.g_scores[w] + h_spec(ctx.heuristic, w, ctx.goal) by {
            let j = choose|j: int| 0 <= j < fr0.len() && #[trigger] fr0[j].vertex == w;
            assert(node.f_score <= fr0[j].f_score);
            assert(fr0[j].f_score == fr0[j].g_score + h_spec(ctx.heuristic, w, ctx.goal));
            assert(o.g_scores[w] == fr0[j].g_score);
        }
    }
    if current == goal {
        let found = finish_goal(Ghost(ctx), state, history, current);
        return Some(Some(found));
    }
    close_vertex(Ghost(ctx), Ghost(fr0), state, history, Ghost(frontier@), current);
    let ghost bvs = board_vert_set(ctx.board);
    let neighbors: Vec<Point> = match variant {
        SearchVariant::VisibilityGraph => match graph.get(current) {
            Some(s) => copy_points(s.as_vec()),
            None => Vec::new(),
        },
        SearchVariant::AStar => get_successors(board, current, goal),
    };
    proof {
        assert(state@.open =~= fr_vertex_set(frontier@));
        assert(state@.g_scores.dom() =~= state@.open.union(state@.closed));
        assert(state_inv_core(ctx, state@, frontier@));
        assert(closure_except(ctx, state@, Set::empty().insert(current)));
        assert forall|l: int| 0 <= l < neighbors@.len() implies move_ok(
            ctx,
            current,
            #[trigger] neighbors@[l],
        ) && universe(ctx).contains(neighbors@[l]) by {
            match ctx.variant {
                SearchVariant::VisibilityGraph => {
                    assert(graph_edge(ctx.graph, current, neighbors@[l]));
                },
                SearchVariant::AStar => {
                    assert(valid_move_spec(ctx.board, current, neighbors@[l]));
                    assert(bvs.contains(neighbors@[l]) || neighbors@[l] == goal);
                },
            }
        }
        assert forall|w: Point|
            #[trigger] move_ok(ctx, current, w) && universe(ctx).contains(w) && w != ctx.start
                implies neighbors@.contains(w) by {
            match ctx.variant {
                SearchVariant::VisibilityGraph => {
                    assert(graph_edge(ctx.graph, current, w));
                    assert(ctx.graph.dom().contains(current));
                    assert(ctx.graph[current].contains(w));
                },
                SearchVariant::AStar => {
                    assert(valid_move_spec(ctx.board, current, w));
                    assert(bvs.contains(w) || w == ctx.goal);
                },
            }
        }
    }
    let ghost cl1 = state@.closed;
    let ghost hist1 = history@;
    let ghost g1 = state@.g_scores;
    let ghost open1 = state@.open;
    let m = neighbors.len();
    let mut k: usize = 0;
    while k < m
        invariant
            ctx_ok(ctx),
            goal == ctx.goal,
            heuristic == ctx.heuristic,
            variant == ctx.variant,
            state_inv_core(ctx, state@, frontier@),
            closure_except(ctx, state@, Set::empty().insert(current)),
            state@.best_path is None,
            state@.closed == cl1 || ctx.variant == SearchVariant::AStar,
            ctx.variant == SearchVariant::VisibilityGraph ==> state@.closed == cl1,
            state@.closed.finite(),
            state@.closed.contains(current),
            history@ == hist1,
            m == neighbors@.len(),
            k <= m,
            forall|l: int|
                0 <= l < m ==> move_ok(ctx, current, #[trigger] neighbors@[l]) && universe(
                    ctx,
                ).contains(neighbors@[l]),
            forall|l: int|
                0 <= l < k ==> state@.g_scores.dom().contains(#[trigger] neighbors@[l]),
            forall|v: Point| weight(state@.g_scores, v) <= weight(g1, v),
            (exists|x: Point|
                universe(ctx).contains(x) && weight(state@.g_scores, x) < weight(g1, x)) || (state@
                .g_scores == g1 && state@.closed == cl1 && state@.open == open1),
        decreases m - k,
    {
        let nb = neighbors[k];
        let ghost before = state@;
        let nb_closed = state.closed.contains(nb);
        let is_vis = match variant {
            SearchVariant::VisibilityGraph => true,
            SearchVariant::AStar => false,
        };
        let skip = is_vis && nb_closed;
        if !skip {
            proof {
                assert(move_ok(ctx, current, nb));
                assert(universe(ctx).contains(nb));
            }
            relax(
                Ghost(ctx),
                Ghost(ctx.variant == SearchVariant::AStar),
                state,
                frontier,
                current,
                nb,
                goal,
                heuristic,
            );
            proof {
                assert(state@.g_scores.dom() == before.g_scores.dom().insert(nb));
                assert forall|l: int|
                    0 <= l < k + 1 implies state@.g_scores.dom().contains(
                    #[trigger] neighbors@[l],
                ) by {}
                assert(closure_except(ctx, state@, Set::empty().insert(current)));
                assert forall|v: Point| weight(state@.g_scores, v) <= weight(g1, v) by {
                    if v == nb {
                        if before.g_scores.dom().contains(nb) {
                            assert(state@.g_scores[nb] <= before.g_scores[nb]);
                        }
                    } else {
                        if before.g_scores.dom().contains(v) {
                            assert(state@.g_scores[v] == before.g_scores[v]);
                        } else {
                            assert(!state@.g_scores.dom().contains(v));
                        }
                    }
                }
                if !(state@.g_scores == before.g_scores && state@.closed == before.closed
                    && state@.open == before.open) {
                    assert(weight(state@.g_scores, nb) < weight(before.g_scores, nb)) by {
                        if before.g_scores.dom().contains(nb) {
                            assert(state@.g_scores[nb] < before.g_scores[nb]);
                        } else {
                            assert(state@.g_scores[nb] <= MAX_PATH_COST);
                        }
                    }
                    assert(weight(before.g_scores, nb) <= weight(g1, nb));
                    assert(universe(ctx).contains(nb) && weight(state@.g_scores, nb) < weight(
                        g1,
                        nb,
                    ));
                }
            }
        } else {
            proof {
                assert(state@.g_scores.dom().contains(nb));
            }
        }
        k = k + 1;
    }
    proof {
        lemma_expand_final(ctx, o, state@, current, neighbors@, cl1, g1, open1);
        assert forall|v: Point| #[trigger] o.g_scores.dom().contains(v) implies state@
            .g_scores.dom().contains(v) && state@.g_scores[v] <= o.g_scores[v] by {
            assert(o.current_paths.dom().contains(v));
            assert(o.g_scores[v] <= MAX_PATH_COST);
            assert(weight(state@.g_scores, v) <= weight(o.g_scores, v));
        }
    }
    None
}

/// After every legal move out of the just-closed vertex has been relaxed,
/// the closed set is again closed under moves, and the expansion made
/// progress: either some g-score strictly dropped, or nothing moved and one
/// more vertex is closed.
#[verifier::rlimit(30)]
proof fn lemma_expand_final(
    ctx: SearchCtx,
    o: StateView,
    s: StateView,
    current: Point,
    neighbors: Seq<Point>,
    cl1: Set<Point>,
    g1: Map<Point, i32>,
    open1: Set<Point>,
)
    requires
        ctx_ok(ctx),
        closure_except(ctx, s, Set::empty().insert(current)),
        s.closed.contains(current),
        s.g_scores.dom().contains(ctx.start),
        forall|w: Point|
            #[trigger] move_ok(ctx, current, w) && universe(ctx).contains(w) && w != ctx.start
                ==> neighbors.contains(w),
        forall|l: int| 0 <= l < neighbors.len() ==> s.g_scores.dom().contains(#[trigger] neighbors[l]),
        cl1 == o.closed.insert(current),
        !o.closed.contains(current),
        o.closed.finite(),
        g1 == o.g_scores,
        forall|v: Point| weight(s.g_scores, v) <= weight(g1, v),
        (exists|x: Point|
            universe(ctx).contains(x) && weight(s.g_scores, x) < weight(g1, x)) || (s.g_scores
            == g1 && s.closed == cl1 && s.open == open1),
        ctx.variant == SearchVariant::VisibilityGraph ==> s.closed == cl1,
    ensures
        closure_except(ctx, s, Set::empty()),
        forall|v: Point| weight(s.g_scores, v) <= weight(o.g_scores, v),
        (exists|x: Point|
            universe(ctx).contains(x) && weight(s.g_scores, x) < weight(o.g_scores, x)) || (
        s.g_scores == o.g_scores && o.closed.subset_of(s.closed) && s.closed.len()
            > o.closed.len()),
        ctx.variant == SearchVariant::VisibilityGraph ==> o.closed.subset_of(s.closed),
{
    assert forall|u: Point, w: Point|
        s.closed.contains(u) && #[trigger] move_ok(ctx, u, w) && universe(ctx).contains(w)
            implies s.g_scores.dom().contains(w) by {
        if u == current {
            if w == ctx.start {
            } else {
                assert(neighbors.contains(w));
                let l = choose|l: int| 0 <= l < neighbors.len() && neighbors[l] == w;
            }
        } else {
            assert(!Set::<Point>::empty().insert(current).contains(u));
        }
    }
    if s.g_scores == g1 && s.closed == cl1 && s.open == open1 {
        assert(o.closed.subset_of(s.closed));
        assert(s.closed.len() == o.closed.len() + 1);
    }
}

} // verus!

verus! {

/// The ghost image of a returned outcome.
pub open spec fn opt_view(o: Option<(Vec<Point>, i32)>) -> Option<(Seq<Point>, int)> {
    match o {
        Some(pc) => Some((pc.0@, pc.1 as int)),
        None => None,
    }
}

/// The invariants a recorded history keeps relative to the live state `s`:
/// every snapshot is a valid state showing a heuristic-minimal expansion of a
/// still-displayed best-path-free search, the vertex each snapshot expands is
/// closed in the following snapshot (and in `s` for the newest one), g-scores
/// only ever descend along the history and into `s`, and for the
/// visibility-graph variant closed sets grow monotonically.
pub open spec fn hist_ok(ctx: SearchCtx, hist: Seq<StateView>, s: StateView) -> bool {
    &&& forall|k: int| 0 <= k < hist.len() ==> state_core(ctx, #[trigger] hist[k])
    &&& forall|k: int| 0 <= k < hist.len() ==> expands_minimal(ctx, #[trigger] hist[k])
    &&& forall|k: int| 0 <= k < hist.len() ==> (#[trigger] hist[k]).best_path is None
    &&& forall|k: int| 0 <= k < hist.len() - 1 ==> next_closed_in(#[trigger] hist[k], hist[k + 1])
    &&& hist.len() > 0 ==> next_closed_in(hist[hist.len() - 1], s)
    &&& forall|k: int| 0 <= k < hist.len() ==> scores_descend(#[trigger] hist[k], s)
    &&& forall|k: int, l: int|
        0 <= k <= l < hist.len() ==> scores_descend(#[trigger] hist[k], #[trigger] hist[l])
    &&& ctx.variant == SearchVariant::VisibilityGraph ==> forall|k: int, l: int|
        0 <= k <= l < hist.len() ==> (#[trigger] hist[k]).closed.subset_of(
            (#[trigger] hist[l]).closed,
        )
    &&& ctx.variant == SearchVariant::VisibilityGraph ==> forall|k: int|
        0 <= k < hist.len() ==> (#[trigger] hist[k]).closed.subset_of(s.closed)
}

/// Appending the snapshot of one more expansion keeps the history invariants.
proof fn lemma_hist_step(
    ctx: SearchCtx,
    h0: Seq<StateView>,
    h1: Seq<StateView>,
    pre: StateView,
    now: StateView,
)
    requires
        hist_ok(ctx, h0, pre),
        h1 == h0.push(h1.last()),
        h1.len() == h0.len() + 1,
        state_core(ctx, h1.last()),
        expands_minimal(ctx, h1.last()),
        h1.last().best_path is None,
        h1.last().g_scores == pre.g_scores,
        h1.last().closed == pre.closed,
        next_closed_in(h1.last(), now),
        scores_descend(pre, now),
        ctx.variant == SearchVariant::VisibilityGraph ==> pre.closed.subset_of(now.closed),
    ensures
        hist_ok(ctx, h1, now),
{
    let snap = h1.last();
    assert(forall|k: int| 0 <= k < h0.len() ==> h1[k] == h0[k]);
    assert forall|k: int| 0 <= k < h1.len() - 1 implies next_closed_in(
        #[trigger] h1[k],
        h1[k + 1],
    ) by {
        if k + 1 == h1.len() - 1 {
            assert(next_closed_in(h0[h0.len() - 1], pre));
            assert(h1[k + 1].closed == pre.closed);
        }
    }
    assert forall|k: int| 0 <= k < h1.len() implies scores_descend(#[trigger] h1[k], now) by {
        if k < h0.len() {
            lemma_scores_descend_trans(h0[k], pre, now);
        } else {
            assert(h1[k].g_scores == pre.g_scores);
        }
    }
    assert forall|k: int, l: int| 0 <= k <= l < h1.len() implies scores_descend(
        #[trigger] h1[k],
        #[trigger] h1[l],
    ) by {
        if l == h1.len() - 1 {
            assert(h1[l].g_scores == pre.g_scores);
            if k < h0.len() {
                assert(scores_descend(h0[k], pre));
            }
        }
    }
    if ctx.variant == SearchVariant::VisibilityGraph {
        assert forall|k: int, l: int| 0 <= k <= l < h1.len() implies (
        #[trigger] h1[k]).closed.subset_of((#[trigger] h1[l]).closed) by {
            if l == h1.len() - 1 && k < l {
                assert(h0[k].closed.subset_of(pre.closed));
            }
        }
        assert forall|k: int| 0 <= k < h1.len() implies (#[trigger] h1[k]).closed.subset_of(
            now.closed,
        ) by {
            if k < h0.len() {
                assert(h0[k].closed.subset_of(pre.closed));
            }
        }
    }
}

/// Appending the terminal snapshot yields the history part of [`run_ok`].
proof fn lemma_hist_final(ctx: SearchCtx, h0: Seq<StateView>, h1: Seq<StateView>, pre: StateView)
    requires
        hist_ok(ctx, h0, pre),
        h1 == h0.push(h1.last()),
        h1.len() == h0.len() + 1,
        state_core(ctx, h1.last()),
        h1.last().g_scores == pre.g_scores,
        h1.last().closed == pre.closed,
    ensures
        forall|i: int| 0 <= i < h1.len() ==> state_core(ctx, #[trigger] h1[i]),
        forall|i: int| 0 <= i < h1.len() - 1 ==> expands_minimal(ctx, #[trigger] h1[i]),
        forall|i: int| 0 <= i < h1.len() - 1 ==> (#[trigger] h1[i]).best_path is None,
        forall|i: int| 0 <= i < h1.len() - 1 ==> next_closed_in(#[trigger] h1[i], h1[i + 1]),
        forall|k: int, l: int|
            0 <= k <= l < h1.len() ==> scores_descend(#[trigger] h1[k], #[trigger] h1[l]),
        ctx.variant == SearchVariant::VisibilityGraph ==> forall|k: int, l: int|
            0 <= k <= l < h1.len() ==> (#[trigger] h1[k]).closed.subset_of(
                (#[trigger] h1[l]).closed,
            ),
{
    assert(forall|k: int| 0 <= k < h0.len() ==> h1[k] == h0[k]);
    assert forall|i: int| 0 <= i < h1.len() - 1 implies next_closed_in(
        #[trigger] h1[i],
        h1[i + 1],
    ) by {
        if i + 1 == h1.len() - 1 {
            assert(next_closed_in(h0[h0.len() - 1], pre));
            assert(h1[i + 1].closed == pre.closed);
        }
    }
    assert forall|k: int, l: int| 0 <= k <= l < h1.len() implies scores_descend(
        #[trigger] h1[k],
        #[trigger] h1[l],
    ) by {
        if l == h1.len() - 1 {
            assert(h1[l].g_scores == pre.g_scores);
            if k < h0.len() {
                assert(scores_descend(h0[k], pre));
            }
        }
    }
    if ctx.variant == SearchVariant::VisibilityGraph {
        assert forall|k: int, l: int| 0 <= k <= l < h1.len() implies (
        #[trigger] h1[k]).closed.subset_of((#[trigger] h1[l]).closed) by {
            if l == h1.len() - 1 && k < l {
                assert(h0[k].closed.subset_of(pre.closed));
            }
        }
    }
}

/// Runs a search to completion: pops and expands frontier vertices until the
/// goal is popped or the frontier runs dry, recording one snapshot before
/// each expansion and a final snapshot carrying the outcome.
///
/// The outcome is a valid path with its exact cost, or a proof of
/// unreachability; no minimality among all valid paths is claimed (see
/// [`run_ok`]).
#[verifier::rlimit(100)]
#[verifier::spinoff_prover]
pub(crate) fn run_search(
    Ghost(ctx): Ghost<SearchCtx>,
    Ghost(us): Ghost<Seq<Point>>,
    board: &Board,
    graph: &PointMap<PointSet>,
    variant: SearchVariant,
    start: Point,
    goal: Point,
    heuristic: Heuristic,
) -> (r: (Vec<SearchState>, Option<(Vec<Point>, i32)>))
    requires
        ctx_ok(ctx),
        ctx.start == start,
        ctx.goal == goal,
        ctx.heuristic == heuristic,
        ctx.variant == variant,
        board@ == ctx.board,
        graph@ == ctx.graph,
        us.to_set() == universe(ctx),
        us.no_duplicates(),
        in_range(start),
        in_range(goal),
    ensures
        run_ok(ctx, r.0@.map_values(|st: SearchState| st@), opt_view(r.1)),
{
    let mut state = SearchState::initial(start);
    let mut frontier: Vec<SearchNode> = Vec::new();
    let h0 = heuristic.distance(&start, &goal);
    frontier.push(SearchNode { vertex: start, g_score: 0, f_score: h0 });
    let mut history: Vec<SearchState> = Vec::new();
    proof {
        assert(seq![start].drop_last() =~= Seq::<Point>::empty());
        assert(path_cost(seq![start]) == 0);
        assert(path_ok(ctx, start, seq![start]));
        assert(state@.open =~= fr_vertex_set(frontier@)) by {
            assert(frontier@[0].vertex == start);
            assert(fr_vertex_set(frontier@).contains(start));
            assert forall|v: Point| fr_vertex_set(frontier@).contains(v) implies state@.open
                .contains(v) by {
                let i = choose|i: int|
                    0 <= i < frontier@.len() && #[trigger] frontier@[i].vertex == v;
            }
        }
        assert(state@.g_scores.dom() =~= state@.open.union(state@.closed));
        assert(state@.current_paths.dom() =~= state@.g_scores.dom());
        assert forall|v: Point, i: int|
            state@.current_paths.dom().contains(v) && 0 <= i < state@.current_paths[v].len()
                implies {
                &&& state@.g_scores.dom().contains(#[trigger] state@.current_paths[v][i])
                &&& path_cost(state@.current_paths[v].take(i + 1)) >= state@.g_scores[state@
                    .current_paths[v][i]]
            } by {
            assert(v == start && i == 0);
            assert(state@.current_paths[v] == seq![start]);
            assert(seq![start].take(1) =~= seq![start]);
        }
        assert(state_inv(ctx, state@, frontier@));
    }
    while frontier.len() > 0
        invariant
            ctx_ok(ctx),
            ctx.start == start,
            ctx.goal == goal,
            ctx.heuristic == heuristic,
            ctx.variant == variant,
            board@ == ctx.board,
            graph@ == ctx.graph,
            us.to_set() == universe(ctx),
            us.no_duplicates(),
            in_range(start),
            in_range(goal),
            state_inv(ctx, state@, frontier@),
            state@.best_path is None,
            state@.closed.finite(),
            hist_ok(ctx, history@.map_values(|st: SearchState| st@), state@),
        decreases wsum(us, state@.g_scores), universe(ctx).len() - state@.closed.len(),
    {
        let ghost pre = state@;
        let ghost hv0 = history@.map_values(|st: SearchState| st@);
        let res = expand_step(
            Ghost(ctx),
            board,
            graph,
            variant,
            &mut state,
            &mut frontier,
            &mut history,
            goal,
            heuristic,
        );
        let ghost hv1 = history@.map_values(|st: SearchState| st@);
        proof {
            assert(hv1 =~= hv0.push(history@[history@.len() - 1]@));
            assert(hv1.last() == history@[history@.len() - 1]@);
        }
        match res {
            Some(opt) => {
                proof {
                    lemma_hist_final(ctx, hv0, hv1, pre);
                    match &opt {
                        Some(pc) => {
                            assert(hv1.last().best_path == Some(pc.0@));
                            assert(hv1.last().open.contains(ctx.goal));
                            assert(hv1.last().next_vertex is None);
                        },
                        None => {
                            assert(false);
                        },
                    }
                    assert(run_ok(ctx, hv1, opt_view(opt)));
                }
                return (history, opt);
            },
            None => {
                proof {
                    // the lexicographic measure shrinks
                    assert forall|v: Point| state@.g_scores.dom().contains(v) implies state@
                        .g_scores[v] >= 0 by {
                        assert(state@.current_paths.dom().contains(v));
                    }
                    lemma_wsum_nonneg(us, state@.g_scores);
                    assert(state@.closed.subset_of(universe(ctx))) by {
                        assert forall|w: Point| state@.closed.contains(w) implies universe(
                            ctx,
                        ).contains(w) by {
                            assert(state@.g_scores.dom().contains(w));
                        }
                    }
                    lemma_len_subset(state@.closed, universe(ctx));
                    if state@.g_scores == pre.g_scores {
                        lemma_wsum_congruent(us, pre.g_scores, state@.g_scores);
                    } else {
                        let x = choose|x: Point|
                            universe(ctx).contains(x) && weight(state@.g_scores, x) < weight(
                                pre.g_scores,
                                x,
                            );
                        assert(us.to_set().contains(x));
                        lemma_wsum_lt(us, pre.g_scores, state@.g_scores, x);
                    }
                    // history bookkeeping
                    lemma_hist_step(ctx, hv0, hv1, pre, state@);
                }
            },
        }
    }
    let ghost pre = state@;
    state.next_vertex = None;
    proof {
        lemma_state_core_same_fields(ctx, pre, state@);
    }
    let ghost hv0 = history@.map_values(|st: SearchState| st@);
    history.push(state.clone());
    let ghost hv1 = history@.map_values(|st: SearchState| st@);
    proof {
        assert(hv1 =~= hv0.push(history@[history@.len() - 1]@));
        assert(hv1.last() == history@[history@.len() - 1]@);
        assert(hv1.last() == state@);
        assert(state@.open =~= Set::<Point>::empty()) by {
            assert forall|v: Point| !state@.open.contains(v) by {
                if fr_vertex_set(frontier@).contains(v) {
                    let i = choose|i: int|
                        0 <= i < frontier@.len() && #[trigger] frontier@[i].vertex == v;
                }
            }
        }
        lemma_exhausted_unreachable(ctx, state@);
        lemma_hist_final(ctx, hv0, hv1, pre);
        assert(run_ok(ctx, hv1, opt_view(None)));
    }
    (history, None)
}

proof fn lemma_wsum_congruent(s: Seq<Point>, g1: Map<Point, i32>, g2: Map<Point, i32>)
    requires
        g1 == g2,
    ensures
        wsum(s, g1) == wsum(s, g2),
{
}

} // verus!

verus! {

/// Everything of a pathfinder but the replay cursor and the displayed state:
/// the inputs, the graph, the history and the outcome.
pub open spec fn same_run(a: PfView, b: PfView) -> bool {
    &&& b.board == a.board
    &&& b.start == a.start
    &&& b.goal == a.goal
    &&& b.heuristic == a.heuristic
    &&& b.graph == a.graph
    &&& b.history == a.history
    &&& b.optimal_path == a.optimal_path
}

/// Where one forward step moves the replay cursor.
pub open spec fn nav_forward(len: int, cur: int) -> int {
    if cur < len - 1 {
        cur + 1
    } else {
        cur
    }
}

/// Where one backward step moves the replay cursor.
pub open spec fn nav_back(cur: int) -> int {
    if cur > 0 {
        cur - 1
    } else {
        cur
    }
}

/// Where a jump moves the replay cursor.
pub open spec fn nav_jump(len: int, cur: int, n: int) -> int {
    if n <= len - 1 {
        n
    } else {
        cur
    }
}

/// Jumping to the current step leaves the cursor exactly where it was.
pub proof fn lemma_jump_to_current_is_noop(len: int, cur: int)
    requires
        0 <= cur < len,
    ensures
        nav_jump(len, cur, cur) == cur,
{
}

/// A forward step followed by a backward step restores the prior cursor
/// exactly; since the displayed state is always the snapshot under the
/// cursor and nothing else of a pathfinder changes during navigation, the
/// prior state is restored exactly as well.
pub proof fn lemma_forward_then_back_restores(len: int, cur: int)
    requires
        0 <= cur < len,
        cur < len - 1,
    ensures
        nav_back(nav_forward(len, cur)) == cur,
{
}

/// Resetting is the same cursor move as jumping to step zero.
pub proof fn lemma_reset_is_jump_to_zero(len: int, cur: int)
    requires
        0 <= cur < len,
    ensures
        nav_jump(len, cur, 0) == 0,
{
}

} // verus!

verus! {

/// Sums the truncated segment distances of a recorded path: the one shared
/// distance function applied to each consecutive pair.
pub(crate) fn path_score(Ghost(ctx): Ghost<SearchCtx>, path: &Vec<Point>) -> (c: i32)
    requires
        ctx_ok(ctx),
        path_ok(ctx, path@.last(), path@),
    ensures
        c as int == path_cost(path@),
{
    proof {
        lemma_path_cost_bound(ctx, path@.last(), path@);
        assert(path@.take(1).len() == 1);
        assert(path_cost(path@.take(1)) == 0);
    }
    let mut c: i32 = 0;
    let n = path.len();
    let mut i: usize = 1;
    while i < n
        invariant
            ctx_ok(ctx),
            path_ok(ctx, path@.last(), path@),
            n == path@.len(),
            1 <= i <= n,
            c as int == path_cost(path@.take(i as int)),
            0 <= path_cost(path@) <= MAX_PATH_COST,
        decreases n - i,
    {
        proof {
            assert(universe(ctx).contains(path@[i - 1]) && universe(ctx).contains(path@[i as int]));
        }
        let d = distance(&path[i - 1], &path[i]);
        proof {
            let q = path@.take(i as int + 1);
            assert(q.drop_last() =~= path@.take(i as int));
            assert(q[i - 1] == path@[i - 1] && q[i as int] == path@[i as int]);
            assert(path_cost(q) == path_cost(path@.take(i as int)) + dist_spec(
                path@[i - 1],
                path@[i as int],
            ));
            lemma_prefix_cost_le(path@, i as int + 1);
            lemma_path_cost_nonneg(path@.take(i as int + 1));
            lemma_path_cost_nonneg(path@.take(i as int));
        }
        c = c + d;
        i = i + 1;
    }
    proof {
        assert(path@.take(n as int) =~= path@);
    }
    c
}

} // verus!
