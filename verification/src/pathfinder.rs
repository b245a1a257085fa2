//! The distance metric shared by every search component, and the heuristic
//! estimators a caller can choose between.
//!
//! All geometry in this crate is exact integer arithmetic; the only rounding
//! anywhere is the single truncation in [`distance`], and every component
//! (edge costs, heuristics, path scores) goes through that one function, so no
//! two parts of a search can ever disagree about the length of a segment.

use vstd::prelude::*;

use crate::point::{in_range, Point, COORD_LIMIT};

verus! {

/// Largest value [`distance`] can return for two in-range points:
/// the truncated diagonal of the coordinate window.
pub const MAX_DIST: i32 = 28_284;

/// Largest value a heuristic estimate can take for two in-range points
/// (the Manhattan estimate of the window diagonal).
pub const MAX_HEURISTIC: i32 = 40_000;

/// The integer square root: the largest `r` with `r * r <= n`.
pub open spec fn isqrt_spec(n: nat) -> nat
    decreases n,
{
    if n == 0 {
        0
    } else {
        let r = isqrt_spec((n - 1) as nat);
        if (r + 1) * (r + 1) <= n {
            r + 1
        } else {
            r
        }
    }
}

/// `isqrt_spec(n)` really is the integer square root of `n`.
pub proof fn lemma_isqrt_bounds(n: nat)
    ensures
        isqrt_spec(n) * isqrt_spec(n) <= n,
        n < (isqrt_spec(n) + 1) * (isqrt_spec(n) + 1),
    decreases n,
{
    if n == 0 {
        assert(isqrt_spec(0) == 0);
        assert((isqrt_spec(n) + 1) * (isqrt_spec(n) + 1) == 1) by (nonlinear_arith)
            requires isqrt_spec(n) == 0;
    } else {
        lemma_isqrt_bounds((n - 1) as nat);
        let r = isqrt_spec((n - 1) as nat);
        if (r + 1) * (r + 1) <= n {
            assert(isqrt_spec(n) == r + 1);
            assert((r + 1) * (r + 1) < (r + 2) * (r + 2)) by (nonlinear_arith);
            assert(n - 1 < (r + 1) * (r + 1));
            assert(n < (r + 2) * (r + 2));
        } else {
            assert(isqrt_spec(n) == r);
            assert(r * r <= n - 1 <= n);
        }
    }
}

/// Any `r` bracketing `n` between consecutive squares is the integer square root.
pub proof fn lemma_isqrt_unique(n: nat, r: nat)
    requires
        r * r <= n,
        n < (r + 1) * (r + 1),
    ensures
        r == isqrt_spec(n),
{
    let s = isqrt_spec(n);
    lemma_isqrt_bounds(n);
    if r < s {
        assert((r + 1) * (r + 1) <= s * s) by (nonlinear_arith)
            requires r + 1 <= s;
    }
    if s < r {
        assert((s + 1) * (s + 1) <= r * r) by (nonlinear_arith)
            requires s + 1 <= r;
    }
}

/// The integer square root does not decrease when its argument grows.
pub proof fn lemma_isqrt_monotone(m: nat, n: nat)
    requires
        m <= n,
    ensures
        isqrt_spec(m) <= isqrt_spec(n),
{
    let a = isqrt_spec(m);
    let b = isqrt_spec(n);
    lemma_isqrt_bounds(m);
    lemma_isqrt_bounds(n);
    if b < a {
        assert((b + 1) * (b + 1) <= a * a) by (nonlinear_arith)
            requires b + 1 <= a;
    }
}

/// Computes the integer square root of a `u64` by binary search.
pub fn isqrt(n: u64) -> (r: u64)
    ensures
        r == isqrt_spec(n as nat),
{
    let mut lo: u64 = 0;
    let mut hi: u64 = 4_294_967_296;
    proof {
        assert((4_294_967_296u64 as nat) * (4_294_967_296u64 as nat) > n as nat) by (nonlinear_arith);
    }
    while hi - lo > 1
        invariant
            lo < hi,
            hi <= 4_294_967_296,
            (lo as nat) * (lo as nat) <= n as nat,
            (n as nat) < (hi as nat) * (hi as nat),
        decreases hi - lo,
    {
        let mid = lo + (hi - lo) / 2;
        proof {
            assert((mid as nat) * (mid as nat) <= 0x1_0000_0000_0000_0000) by (nonlinear_arith)
                requires mid <= 0x1_0000_0000u64;
        }
        if (mid as u128) * (mid as u128) <= n as u128 {
            lo = mid;
        } else {
            hi = mid;
        }
    }
    proof {
        lemma_isqrt_unique(n as nat, lo as nat);
    }
    lo
}

/// The one distance measure of the whole crate: the Euclidean distance
/// between two points, truncated to an integer.
pub open spec fn dist_spec(p: Point, q: Point) -> int {
    isqrt_spec(((q.x - p.x) * (q.x - p.x) + (q.y - p.y) * (q.y - p.y)) as nat) as int
}

/// The distance between in-range points fits the documented bound.
pub proof fn lemma_dist_range(p: Point, q: Point)
    requires
        in_range(p),
        in_range(q),
    ensures
        0 <= dist_spec(p, q) <= MAX_DIST,
{
    let dx = q.x - p.x;
    let dy = q.y - p.y;
    assert(dx * dx + dy * dy <= 800_000_000) by (nonlinear_arith)
        requires -20_000 <= dx <= 20_000 && -20_000 <= dy <= 20_000;
    assert(dx * dx + dy * dy >= 0) by (nonlinear_arith);
    lemma_isqrt_monotone((dx * dx + dy * dy) as nat, 800_000_000);
    assert(28_284 * 28_284 <= 800_000_000 < 28_285 * 28_285) by (nonlinear_arith);
    lemma_isqrt_unique(800_000_000, 28_284);
}

/// Distinct points are at positive distance.
pub proof fn lemma_dist_positive(p: Point, q: Point)
    requires
        p != q,
    ensures
        dist_spec(p, q) >= 1,
{
    let dx = q.x - p.x;
    let dy = q.y - p.y;
    assert(dx * dx + dy * dy >= 1) by (nonlinear_arith)
        requires dx != 0 || dy != 0;
    lemma_isqrt_monotone(1, (dx * dx + dy * dy) as nat);
    assert(1 * 1 <= 1 < 2 * 2) by (nonlinear_arith);
    lemma_isqrt_unique(1, 1);
}

/// Euclidean distance between two points, truncated to an integer.
///
/// Every edge cost, path score and Euclidean heuristic estimate in the crate
/// is computed by this function.
pub fn distance(p1: &Point, p2: &Point) -> (d: i32)
    requires
        in_range(*p1),
        in_range(*p2),
    ensures
        d == dist_spec(*p1, *p2),
        0 <= d <= MAX_DIST,
{
    let dx = (p2.x as i64) - (p1.x as i64);
    let dy = (p2.y as i64) - (p1.y as i64);
    proof {
        assert(0 <= dx * dx <= 400_000_000) by (nonlinear_arith)
            requires -20_000 <= dx <= 20_000;
        assert(0 <= dy * dy <= 400_000_000) by (nonlinear_arith)
            requires -20_000 <= dy <= 20_000;
        lemma_dist_range(*p1, *p2);
    }
    let sq = (dx * dx + dy * dy) as u64;
    let r = isqrt(sq);
    r as i32
}

/// The absolute value of an integer.
pub open spec fn abs_int(a: int) -> int {
    if a < 0 {
        -a
    } else {
        a
    }
}

/// The Manhattan estimate: `|dx| + |dy|`.
pub open spec fn manhattan_spec(p: Point, q: Point) -> int {
    abs_int(q.x - p.x) + abs_int(q.y - p.y)
}

/// Available heuristic estimators for the A* searches.
#[derive(Clone, Copy, Debug, PartialEq, Eq, Structural)]
pub enum Heuristic {
    Euclidean,
    Manhattan,
}

impl Default for Heuristic {
    /// The default estimator is the Euclidean one.
    fn default() -> (h: Self)
        ensures
            h == Heuristic::Euclidean,
    {
        Heuristic::Euclidean
    }
}

/// What a heuristic estimates for a pair of points.
pub open spec fn h_spec(h: Heuristic, p: Point, q: Point) -> int {
    match h {
        Heuristic::Euclidean => dist_spec(p, q),
        Heuristic::Manhattan => manhattan_spec(p, q),
    }
}

/// A heuristic estimate for in-range points fits the documented bound.
pub proof fn lemma_h_range(h: Heuristic, p: Point, q: Point)
    requires
        in_range(p),
        in_range(q),
    ensures
        0 <= h_spec(h, p, q) <= MAX_HEURISTIC,
{
    lemma_dist_range(p, q);
}

impl Heuristic {
    /// The estimate this heuristic gives for the remaining cost from `p1` to `p2`.
    pub fn distance(&self, p1: &Point, p2: &Point) -> (d: i32)
        requires
            in_range(*p1),
            in_range(*p2),
        ensures
            d == h_spec(*self, *p1, *p2),
            0 <= d <= MAX_HEURISTIC,
    {
        match self {
            Heuristic::Euclidean => distance(p1, p2),
            Heuristic::Manhattan => {
                let dx = if p2.x >= p1.x {
                    p2.x - p1.x
                } else {
                    p1.x - p2.x
                };
                let dy = if p2.y >= p1.y {
                    p2.y - p1.y
                } else {
                    p1.y - p2.y
                };
                dx + dy
            },
        }
    }
}

} // verus!

use crate::mapset::{copy_points, EdgeSet, PointMap, PointSet};

verus! {

/// The ghost image of a [`SearchState`]: sets and maps over plain points.
pub struct StateView {
    pub open: Set<Point>,
    pub closed: Set<Point>,
    pub current_paths: Map<Point, Seq<Point>>,
    pub best_path: Option<Seq<Point>>,
    pub considered_edges: Set<(Point, Point)>,
    pub next_vertex: Option<Point>,
    pub g_scores: Map<Point, i32>,
    pub came_from: Map<Point, Point>,
}

/// One snapshot of a running search, for visualization and replay.
///
/// Snapshots are plain values: cloning one provably preserves every field.
#[derive(Debug, PartialEq, Eq)]
pub struct SearchState {
    /// The vertices currently on the frontier.
    pub open: PointSet,
    /// The vertices that have been expanded.
    pub closed: PointSet,
    /// The best known partial path to each discovered vertex.
    pub current_paths: PointMap<Vec<Point>>,
    /// The best known path to the goal, once one is found.
    pub best_path: Option<Vec<Point>>,
    /// Every edge the search has considered so far.
    pub considered_edges: EdgeSet,
    /// The vertex about to be expanded, if any.
    pub next_vertex: Option<Point>,
    /// The best known cost from the start to each discovered vertex.
    pub g_scores: PointMap<i32>,
    /// The predecessor each discovered vertex was reached from.
    pub came_from: PointMap<Point>,
}

impl View for SearchState {
    type V = StateView;

    open spec fn view(&self) -> StateView {
        StateView {
            open: self.open@,
            closed: self.closed@,
            current_paths: self.current_paths@,
            best_path: match self.best_path {
                Some(p) => Some(p@),
                None => None,
            },
            considered_edges: self.considered_edges@,
            next_vertex: self.next_vertex,
            g_scores: self.g_scores@,
            came_from: self.came_from@,
        }
    }
}

impl SearchState {
    /// The initial snapshot: only the start vertex is known, at cost zero.
    pub fn initial(start: Point) -> (s: SearchState)
        ensures
            s@.open == Set::<Point>::empty().insert(start),
            s@.closed == Set::<Point>::empty(),
            s@.current_paths == Map::<Point, Seq<Point>>::empty().insert(start, seq![start]),
            s@.best_path is None,
            s@.considered_edges == Set::<(Point, Point)>::empty(),
            s@.next_vertex == Some(start),
            s@.g_scores == Map::<Point, i32>::empty().insert(start, 0i32),
            s@.came_from == Map::<Point, Point>::empty(),
    {
        let mut open = PointSet::new();
        open.insert(start);
        let mut current_paths: PointMap<Vec<Point>> = PointMap::new();
        let mut first: Vec<Point> = Vec::new();
        first.push(start);
        proof {
            assert(first@ =~= seq![start]);
        }
        current_paths.insert(start, first);
        let mut g_scores: PointMap<i32> = PointMap::new();
        g_scores.insert(start, 0);
        SearchState {
            open,
            closed: PointSet::new(),
            current_paths,
            best_path: None,
            considered_edges: EdgeSet::new(),
            next_vertex: Some(start),
            g_scores,
            came_from: PointMap::new(),
        }
    }
}

impl Clone for SearchState {
    /// Cloning preserves the whole snapshot exactly.
    fn clone(&self) -> (res: Self)
        ensures
            res@ == self@,
    {
        SearchState {
            open: self.open.clone(),
            closed: self.closed.clone(),
            current_paths: self.current_paths.clone(),
            best_path: match &self.best_path {
                Some(p) => Some(copy_points(p)),
                None => None,
            },
            considered_edges: self.considered_edges.clone(),
            next_vertex: self.next_vertex,
            g_scores: self.g_scores.clone(),
            came_from: self.came_from.clone(),
        }
    }
}

} // verus!
