//! The obstacle set: an ordered, immutable list of polygons.

use vstd::prelude::*;

use crate::mapset::PointSet;
use crate::pathfinder::abs_int;
use crate::point::{in_range, Point};
use crate::polygon::{
    div_trunc, div_trunc_i128, edge_at, lemma_div_trunc_abs, max_int, min_int, poly_wf, Edge,
    Polygon,
};

verus! {

/// The largest number of vertices a board may hold over all its polygons.
///
/// Together with the coordinate window this keeps every score a search can
/// compute inside `i32`.
pub const MAX_BOARD_VERTICES: usize = 1_000;

/// How many vertices the first `k` polygons hold together.
pub open spec fn total_of_prefix(b: Seq<Seq<Point>>, k: int) -> int
    decreases k,
{
    if k <= 0 {
        0
    } else {
        total_of_prefix(b, k - 1) + b[k - 1].len()
    }
}

/// How many vertices a board holds over all its polygons.
pub open spec fn total_vertices(b: Seq<Seq<Point>>) -> int {
    total_of_prefix(b, b.len() as int)
}

/// The vertices of the first `k` polygons, as a set.
pub open spec fn verts_of_prefix(b: Seq<Seq<Point>>, k: int) -> Set<Point> {
    Set::new(|p: Point| exists|i: int| 0 <= i < k && #[trigger] b[i].contains(p))
}

/// The deduplicated set of all vertices of a board.
pub open spec fn board_vert_set(b: Seq<Seq<Point>>) -> Set<Point> {
    verts_of_prefix(b, b.len() as int)
}

/// Whether `e` is a boundary edge of one of the board's polygons.
pub open spec fn is_board_edge(b: Seq<Seq<Point>>, e: Edge) -> bool {
    exists|i: int, j: int| 0 <= i < b.len() && 0 <= j < b[i].len() && e == #[trigger] edge_at(b[i], j)
}

/// The game board: a collection of polygonal obstacles, immutable once
/// constructed; the polygon order is stable for the lifetime of a value.
#[derive(Debug)]
pub struct Board {
    polygons: Vec<Polygon>,
}

impl View for Board {
    type V = Seq<Seq<Point>>;

    closed spec fn view(&self) -> Seq<Seq<Point>> {
        self.polygons@.map_values(|p: Polygon| p@)
    }
}

impl Board {
    #[verifier::type_invariant]
    spec fn type_inv(self) -> bool {
        total_vertices(self.view()) <= MAX_BOARD_VERTICES as int
    }

    /// Creates a new board with the given obstacle polygons.
    pub fn new(polygons: Vec<Polygon>) -> (b: Board)
        requires
            total_vertices(polygons@.map_values(|p: Polygon| p@)) <= MAX_BOARD_VERTICES as int,
        ensures
            b@ == polygons@.map_values(|p: Polygon| p@),
    {
        Board { polygons }
    }

    /// The obstacle polygons, in their stable order.
    ///
    /// Also reports the board's construction invariant: the total vertex
    /// count is within the board budget.
    pub fn polygons(&self) -> (ps: &Vec<Polygon>)
        ensures
            ps@.len() == self@.len(),
            forall|i: int| 0 <= i < ps@.len() ==> #[trigger] ps@[i]@ == self@[i],
            total_vertices(self@) <= MAX_BOARD_VERTICES as int,
    {
        proof {
            use_type_invariant(&*self);
        }
        &self.polygons
    }

    /// How many polygons the board holds.
    pub fn polygon_count(&self) -> (n: usize)
        ensures
            n == self@.len(),
    {
        self.polygons.len()
    }

    /// The deduplicated set of all vertices across all polygons.
    ///
    /// Every vertex is in the coordinate window, and there are at most as
    /// many distinct vertices as the board's vertex budget.
    pub fn vertices(&self) -> (vs: PointSet)
        ensures
            vs@ == board_vert_set(self@),
            vs@.finite(),
            forall|p: Point| vs@.contains(p) ==> in_range(p),
            vs@.len() <= total_vertices(self@),
            total_vertices(self@) <= MAX_BOARD_VERTICES as int,
    {
        proof {
            use_type_invariant(&*self);
        }
        let n = self.polygons.len();
        let mut vs = PointSet::new();
        let mut i: usize = 0;
        proof {
            assert(vs@ =~= verts_of_prefix(self@, 0));
        }
        while i < n
            invariant
                n == self.polygons@.len(),
                n == self@.len(),
                self@ == self.polygons@.map_values(|p: Polygon| p@),
                i <= n,
                vs@ == verts_of_prefix(self@, i as int),
                vs@.finite(),
                vs@.len() <= total_of_prefix(self@, i as int),
                forall|p: Point| vs@.contains(p) ==> in_range(p),
            decreases n - i,
        {
            let pv = self.polygons[i].vertices();
            let m = pv.len();
            let mut j: usize = 0;
            while j < m
                invariant
                    n == self.polygons@.len(),
                    n == self@.len(),
                    self@ == self.polygons@.map_values(|p: Polygon| p@),
                    i < n,
                    m == pv@.len(),
                    pv@ == self@[i as int],
                    poly_wf(pv@),
                    j <= m,
                    vs@ =~= verts_of_prefix(self@, i as int).union(pv@.take(j as int).to_set()),
                    vs@.finite(),
                    vs@.len() <= total_of_prefix(self@, i as int) + j,
                    forall|p: Point| vs@.contains(p) ==> in_range(p),
                decreases m - j,
            {
                let v = pv[j];
                vs.insert(v);
                proof {
                    assert(pv@.take(j as int + 1) =~= pv@.take(j as int).push(v));
                    pv@.take(j as int).lemma_push_to_set_commute(v);
                    assert(vs@ =~= verts_of_prefix(self@, i as int).union(
                        pv@.take(j as int + 1).to_set(),
                    ));
                }
                j = j + 1;
            }
            proof {
                assert(pv@.take(m as int) == pv@);
                assert forall|p: Point| vs@.contains(p) implies verts_of_prefix(
                    self@,
                    i as int + 1,
                ).contains(p) by {
                    if pv@.to_set().contains(p) {
                        assert(self@[i as int].contains(p));
                    }
                }
                assert forall|p: Point| verts_of_prefix(self@, i as int + 1).contains(p) implies vs@
                    .contains(p) by {
                    let ii = choose|ii: int| 0 <= ii < i + 1 && #[trigger] self@[ii].contains(p);
                    if ii == i {
                        assert(pv@.to_set().contains(p));
                    }
                }
                assert(vs@ =~= verts_of_prefix(self@, i as int + 1));
            }
            i = i + 1;
        }
        vs
    }

    /// All boundary edges of all polygons: the concatenation, in board
    /// order, of each polygon's boundary edges in their own order.
    pub fn outer_edges(&self) -> (es: Vec<Edge>)
        ensures
            es@.len() == total_vertices(self@),
            forall|i: int, j: int|
                0 <= i < self@.len() && 0 <= j < self@[i].len() ==> #[trigger] es@[total_of_prefix(
                    self@,
                    i,
                ) + j] == edge_at(self@[i], j),
            forall|k: int| 0 <= k < es@.len() ==> is_board_edge(self@, #[trigger] es@[k]),
    {
        let n = self.polygons.len();
        let mut es: Vec<Edge> = Vec::new();
        let mut i: usize = 0;
        while i < n
            invariant
                n == self.polygons@.len(),
                n == self@.len(),
                self@ == self.polygons@.map_values(|p: Polygon| p@),
                i <= n,
                es@.len() == total_of_prefix(self@, i as int),
                forall|p: int, l: int|
                    0 <= p < i && 0 <= l < self@[p].len() ==> #[trigger] es@[total_of_prefix(
                        self@,
                        p,
                    ) + l] == edge_at(self@[p], l),
                forall|k: int| 0 <= k < es@.len() ==> is_board_edge(self@, #[trigger] es@[k]),
            decreases n - i,
        {
            let poly_edges = self.polygons[i].outer_edges();
            let m = poly_edges.len();
            let mut j: usize = 0;
            while j < m
                invariant
                    n == self@.len(),
                    self@ == self.polygons@.map_values(|p: Polygon| p@),
                    i < n,
                    n == self.polygons@.len(),
                    m == poly_edges@.len(),
                    m == self@[i as int].len(),
                    forall|l: int|
                        0 <= l < m ==> #[trigger] poly_edges@[l] == edge_at(self@[i as int], l),
                    j <= m,
                    es@.len() == total_of_prefix(self@, i as int) + j,
                    forall|p: int, l: int|
                        0 <= p < i && 0 <= l < self@[p].len() ==> #[trigger] es@[total_of_prefix(
                            self@,
                            p,
                        ) + l] == edge_at(self@[p], l),
                    forall|l: int|
                        0 <= l < j ==> #[trigger] es@[total_of_prefix(self@, i as int) + l]
                            == edge_at(self@[i as int], l),
                    forall|k: int| 0 <= k < es@.len() ==> is_board_edge(self@, #[trigger] es@[k]),
                decreases m - j,
            {
                let ghost pre = es@;
                let e = poly_edges[j];
                es.push(e);
                proof {
                    assert(is_board_edge(self@, e)) by {
                        assert(0 <= (i as int) && (i as int) < self@.len() && 0 <= (j as int) && (
                        j as int) < self@[i as int].len() && e == edge_at(self@[i as int], j as int));
                    }
                    assert forall|k: int| 0 <= k < es@.len() implies is_board_edge(
                        self@,
                        #[trigger] es@[k],
                    ) by {
                        if k < pre.len() {
                            assert(es@[k] == pre[k]);
                        } else {
                            assert(es@[k] == e);
                        }
                    }
                    assert forall|p: int, l: int|
                        0 <= p < i && 0 <= l < self@[p].len() implies #[trigger] es@[total_of_prefix(
                        self@,
                        p,
                    ) + l] == edge_at(self@[p], l) by {
                        lemma_prefix_nonneg(self@, p);
                        lemma_prefix_step_le(self@, p, i as int);
                        assert(total_of_prefix(self@, p) + l < pre.len());
                        assert(es@[total_of_prefix(self@, p) + l] == pre[total_of_prefix(self@, p)
                            + l]);
                    }
                    assert forall|l: int|
                        0 <= l < j + 1 implies #[trigger] es@[total_of_prefix(self@, i as int) + l]
                        == edge_at(self@[i as int], l) by {
                        lemma_prefix_nonneg(self@, i as int);
                        if l < j {
                            assert(es@[total_of_prefix(self@, i as int) + l] == pre[total_of_prefix(
                                self@,
                                i as int,
                            ) + l]);
                        } else {
                            assert(es@[es@.len() - 1] == e);
                        }
                    }
                }
                j = j + 1;
            }
            i = i + 1;
        }
        es
    }

    /// The total number of vertices across all polygons.
    pub fn vertex_count(&self) -> (n: usize)
        ensures
            n == total_vertices(self@),
    {
        proof {
            use_type_invariant(&*self);
        }
        let count = self.polygons.len();
        let mut n: usize = 0;
        let mut i: usize = 0;
        while i < count
            invariant
                count == self.polygons@.len(),
                count == self@.len(),
                self@ == self.polygons@.map_values(|p: Polygon| p@),
                total_vertices(self@) <= MAX_BOARD_VERTICES as int,
                i <= count,
                n == total_of_prefix(self@, i as int),
                n <= MAX_BOARD_VERTICES,
            decreases count - i,
        {
            proof {
                lemma_prefix_le_total(self@, i as int + 1);
            }
            let pv = self.polygons[i].vertices();
            n = n + pv.len();
            i = i + 1;
        }
        n
    }

    /// The number of vertices of each polygon, in board order.
    pub fn vertices_per_polygon(&self) -> (counts: Vec<usize>)
        ensures
            counts@.len() == self@.len(),
            forall|i: int| 0 <= i < counts@.len() ==> counts@[i] == self@[i].len(),
    {
        let n = self.polygons.len();
        let mut counts: Vec<usize> = Vec::new();
        let mut i: usize = 0;
        while i < n
            invariant
                n == self.polygons@.len(),
                n == self@.len(),
                self@ == self.polygons@.map_values(|p: Polygon| p@),
                i <= n,
                counts@.len() == i,
                forall|j: int| 0 <= j < i ==> counts@[j] == self@[j].len(),
            decreases n - i,
        {
            let pv = self.polygons[i].vertices();
            counts.push(pv.len());
            i = i + 1;
        }
        counts
    }
}

/// Prefix vertex counts never exceed the total.
proof fn lemma_prefix_le_total(b: Seq<Seq<Point>>, k: int)
    requires
        0 <= k <= b.len(),
    ensures
        total_of_prefix(b, k) <= total_vertices(b),
        0 <= total_of_prefix(b, k),
    decreases b.len() - k,
{
    lemma_prefix_nonneg(b, k);
    if k < b.len() {
        lemma_prefix_le_total(b, k + 1);
    }
}

/// A polygon's slots end before any later prefix: counting through polygon
/// `p` stays at or below the prefix total at any later index.
proof fn lemma_prefix_step_le(b: Seq<Seq<Point>>, p: int, i: int)
    requires
        0 <= p < i <= b.len(),
    ensures
        total_of_prefix(b, p) + b[p].len() <= total_of_prefix(b, i),
    decreases i - p,
{
    if p + 1 == i {
    } else {
        lemma_prefix_step_le(b, p, i - 1);
        lemma_prefix_nonneg(b, i - 1);
    }
}

/// Prefix vertex counts are never negative.
proof fn lemma_prefix_nonneg(b: Seq<Seq<Point>>, k: int)
    ensures
        0 <= total_of_prefix(b, k),
    decreases k,
{
    if k > 0 {
        lemma_prefix_nonneg(b, k - 1);
    }
}

impl Clone for Board {
    /// Cloning preserves the polygons exactly, in order.
    fn clone(&self) -> (res: Self)
        ensures
            res@ == self@,
    {
        proof {
            use_type_invariant(&*self);
        }
        let n = self.polygons.len();
        let mut polygons: Vec<Polygon> = Vec::new();
        let mut i: usize = 0;
        while i < n
            invariant
                n == self.polygons@.len(),
                i <= n,
                polygons@.len() == i,
                forall|j: int| 0 <= j < i ==> #[trigger] polygons@[j]@ == self.polygons@[j]@,
            decreases n - i,
        {
            polygons.push(self.polygons[i].clone());
            i = i + 1;
        }
        proof {
            assert(polygons@.map_values(|p: Polygon| p@) =~= self@);
        }
        Board { polygons }
    }
}

} // verus!

verus! {

/// The smallest X coordinate among the first `k` vertices of `vs`, folded
/// onto `acc`.
pub open spec fn fold_min_x(vs: Seq<Point>, k: int, acc: int) -> int
    decreases k,
{
    if k <= 0 {
        acc
    } else {
        min_int(fold_min_x(vs, k - 1, acc), vs[k - 1].x as int)
    }
}

/// The largest X coordinate among the first `k` vertices, folded onto `acc`.
pub open spec fn fold_max_x(vs: Seq<Point>, k: int, acc: int) -> int
    decreases k,
{
    if k <= 0 {
        acc
    } else {
        max_int(fold_max_x(vs, k - 1, acc), vs[k - 1].x as int)
    }
}

/// The smallest Y coordinate among the first `k` vertices, folded onto `acc`.
pub open spec fn fold_min_y(vs: Seq<Point>, k: int, acc: int) -> int
    decreases k,
{
    if k <= 0 {
        acc
    } else {
        min_int(fold_min_y(vs, k - 1, acc), vs[k - 1].y as int)
    }
}

/// The largest Y coordinate among the first `k` vertices, folded onto `acc`.
pub open spec fn fold_max_y(vs: Seq<Point>, k: int, acc: int) -> int
    decreases k,
{
    if k <= 0 {
        acc
    } else {
        max_int(fold_max_y(vs, k - 1, acc), vs[k - 1].y as int)
    }
}

/// The four coordinate extremes over the first `k` polygons of a board,
/// folded onto `(min_x, min_y, max_x, max_y)`.
pub open spec fn board_extremes(b: Seq<Seq<Point>>, k: int, acc: (int, int, int, int)) -> (
    int,
    int,
    int,
    int,
)
    decreases k,
{
    if k <= 0 {
        acc
    } else {
        let prev = board_extremes(b, k - 1, acc);
        let vs = b[k - 1];
        (
            fold_min_x(vs, vs.len() as int, prev.0),
            fold_min_y(vs, vs.len() as int, prev.1),
            fold_max_x(vs, vs.len() as int, prev.2),
            fold_max_y(vs, vs.len() as int, prev.3),
        )
    }
}

/// Rounding a coordinate extreme down to the nearest hundred, as the
/// executable arithmetic does.
pub open spec fn round_down_100(a: int) -> int {
    div_trunc(a, 100) * 100
}

/// Rounding a coordinate extreme up to the nearest hundred, as the
/// executable arithmetic does.
pub open spec fn round_up_100(a: int) -> int {
    div_trunc(a + 99, 100) * 100
}

/// The bounding box the board is drawn in: the coordinate extremes over all
/// vertices, widened to whole hundreds.
pub open spec fn board_bounds(b: Seq<Seq<Point>>) -> (int, int, int, int) {
    let e = board_extremes(
        b,
        b.len() as int,
        (i32::MAX as int, i32::MAX as int, i32::MIN as int, i32::MIN as int),
    );
    (round_down_100(e.0), round_down_100(e.1), round_up_100(e.2), round_up_100(e.3))
}

/// A fold of coordinate extremes stays between the coordinate window and its
/// starting accumulator.
proof fn lemma_fold_bounds(vs: Seq<Point>, k: int, acc: int)
    requires
        0 <= k <= vs.len(),
        forall|i: int| 0 <= i < vs.len() ==> in_range(#[trigger] vs[i]),
    ensures
        min_int(acc, -10_000) <= fold_min_x(vs, k, acc) <= acc,
        min_int(acc, -10_000) <= fold_min_y(vs, k, acc) <= acc,
        acc <= fold_max_x(vs, k, acc) <= max_int(acc, 10_000),
        acc <= fold_max_y(vs, k, acc) <= max_int(acc, 10_000),
    decreases k,
{
    if k > 0 {
        lemma_fold_bounds(vs, k - 1, acc);
    }
}

impl Board {
    /// The board's bounding box as `(min_x, min_y, max_x, max_y)`, rounded
    /// outward to whole hundreds.
    pub fn bounds(&self) -> (r: (i32, i32, i32, i32))
        ensures
            (r.0 as int, r.1 as int, r.2 as int, r.3 as int) == board_bounds(self@),
    {
        let n = self.polygons.len();
        let mut min_x: i32 = i32::MAX;
        let mut min_y: i32 = i32::MAX;
        let mut max_x: i32 = i32::MIN;
        let mut max_y: i32 = i32::MIN;
        let ghost acc0 = (i32::MAX as int, i32::MAX as int, i32::MIN as int, i32::MIN as int);
        let mut i: usize = 0;
        while i < n
            invariant
                n == self.polygons@.len(),
                n == self@.len(),
                self@ == self.polygons@.map_values(|p: Polygon| p@),
                i <= n,
                (min_x as int, min_y as int, max_x as int, max_y as int) == board_extremes(
                    self@,
                    i as int,
                    acc0,
                ),
                acc0 == (i32::MAX as int, i32::MAX as int, i32::MIN as int, i32::MIN as int),
                max_x <= 10_000,
                max_y <= 10_000,
            decreases n - i,
        {
            let pv = self.polygons[i].vertices();
            let m = pv.len();
            let ghost entry = (min_x as int, min_y as int, max_x as int, max_y as int);
            let mut j: usize = 0;
            while j < m
                invariant
                    m == pv@.len(),
                    j <= m,
                    poly_wf(pv@),
                    min_x as int == fold_min_x(pv@, j as int, entry.0),
                    min_y as int == fold_min_y(pv@, j as int, entry.1),
                    max_x as int == fold_max_x(pv@, j as int, entry.2),
                    max_y as int == fold_max_y(pv@, j as int, entry.3),
                    max_x <= 10_000,
                    max_y <= 10_000,
                decreases m - j,
            {
                let v = pv[j];
                if v.x < min_x {
                    min_x = v.x;
                }
                if v.x > max_x {
                    max_x = v.x;
                }
                if v.y < min_y {
                    min_y = v.y;
                }
                if v.y > max_y {
                    max_y = v.y;
                }
                j = j + 1;
            }
            proof {
                assert(pv@ == self@[i as int]);
            }
            i = i + 1;
        }
        let rmin_x = round_down(min_x);
        let rmin_y = round_down(min_y);
        let rmax_x = round_up(max_x);
        let rmax_y = round_up(max_y);
        (rmin_x, rmin_y, rmax_x, rmax_y)
    }
}

/// Rounds toward zero to the nearest hundred below.
fn round_down(a: i32) -> (r: i32)
    ensures
        r as int == round_down_100(a as int),
{
    proof {
        lemma_round_bound(a as int);
    }
    let q = div_trunc_i128(a as i128, 100);
    proof {
        lemma_div_trunc_abs(a as int, 100);
    }
    ((q * 100) as i32)
}

/// Rounds up to the nearest hundred, by truncating `a + 99` down.
fn round_up(a: i32) -> (r: i32)
    requires
        a <= 0x7FFF_FF00,
    ensures
        r as int == round_up_100(a as int),
{
    proof {
        lemma_round_bound((a as int) + 99);
    }
    let q = div_trunc_i128((a as i128) + 99, 100);
    proof {
        lemma_div_trunc_abs((a as int) + 99, 100);
    }
    ((q * 100) as i32)
}

/// Truncating to a multiple of one hundred never grows the magnitude.
proof fn lemma_round_bound(a: int)
    requires
        -0x8000_0000 <= a < 0x8000_0000,
    ensures
        -abs_int(a) <= div_trunc(a, 100) * 100 <= abs_int(a),
{
    let q = div_trunc(a, 100);
    if a >= 0 {
        assert(q == a / 100);
        assert(0 <= (a / 100) * 100 <= a) by (nonlinear_arith)
            requires a >= 0;
    } else {
        let ua = -a;
        assert(q == -(ua / 100));
        assert(0 <= (ua / 100) * 100 <= ua) by (nonlinear_arith)
            requires ua >= 0;
        assert(q * 100 == -((ua / 100) * 100)) by (nonlinear_arith)
            requires q == -(ua / 100);
    }
}

} // verus!

verus! {

/// A vertex list of three points.
fn tri(a: Point, b: Point, c: Point) -> (v: Vec<Point>)
    ensures
        v@ =~= seq![a, b, c],
{
    let mut v: Vec<Point> = Vec::new();
    v.push(a);
    v.push(b);
    v.push(c);
    v
}

/// A vertex list of four points.
fn quad(a: Point, b: Point, c: Point, d: Point) -> (v: Vec<Point>)
    ensures
        v@ =~= seq![a, b, c, d],
{
    let mut v = tri(a, b, c);
    v.push(d);
    v
}

/// A vertex list of five points.
fn penta(a: Point, b: Point, c: Point, d: Point, e: Point) -> (v: Vec<Point>)
    ensures
        v@ =~= seq![a, b, c, d, e],
{
    let mut v = quad(a, b, c, d);
    v.push(e);
    v
}

/// A vertex list of six points.
fn hexa(a: Point, b: Point, c: Point, d: Point, e: Point, f: Point) -> (v: Vec<Point>)
    ensures
        v@ =~= seq![a, b, c, d, e, f],
{
    let mut v = penta(a, b, c, d, e);
    v.push(f);
    v
}

/// The sample board of the reference deployment: a fixed layout of eight
/// polygonal obstacles, treated as an opaque input value.
pub fn sample_board() -> (b: Board)
    ensures
        b@.len() == 8,
        total_vertices(b@) == 33,
        b@[0].len() == 4,
        b@[1].len() == 4,
        b@[2].len() == 6,
        b@[3].len() == 5,
        b@[4].len() == 4,
        b@[5].len() == 4,
        b@[6].len() == 3,
        b@[7].len() == 3,
{
    let mut polygons: Vec<Polygon> = Vec::new();
    polygons.push(Polygon::new(quad(
        Point::new(220, 616),
        Point::new(220, 666),
        Point::new(251, 670),
        Point::new(272, 647),
    )));
    polygons.push(Polygon::new(quad(
        Point::new(341, 655),
        Point::new(359, 667),
        Point::new(374, 651),
        Point::new(366, 577),
    )));
    polygons.push(Polygon::new(hexa(
        Point::new(311, 530),
        Point::new(311, 559),
        Point::new(339, 578),
        Point::new(361, 560),
        Point::new(361, 528),
        Point::new(336, 516),
    )));
    polygons.push(Polygon::new(penta(
        Point::new(105, 628),
        Point::new(151, 670),
        Point::new(180, 629),
        Point::new(156, 577),
        Point::new(113, 587),
    )));
    polygons.push(Polygon::new(quad(
        Point::new(118, 517),
        Point::new(245, 517),
        Point::new(245, 577),
        Point::new(118, 557),
    )));
    polygons.push(Polygon::new(quad(
        Point::new(280, 583),
        Point::new(333, 583),
        Point::new(333, 665),
        Point::new(280, 665),
    )));
    polygons.push(Polygon::new(tri(
        Point::new(252, 594),
        Point::new(290, 562),
        Point::new(264, 538),
    )));
    polygons.push(Polygon::new(tri(
        Point::new(198, 635),
        Point::new(217, 574),
        Point::new(182, 574),
    )));
    proof {
        let bv = polygons@.map_values(|p: Polygon| p@);
        reveal_with_fuel(total_of_prefix, 10);
        assert(total_vertices(bv) == 33);
    }
    Board::new(polygons)
}

impl Default for Board {
    /// The default board is the sample layout.
    fn default() -> (b: Board)
        ensures
            b@.len() == 8,
            total_vertices(b@) == 33,
    {
        sample_board()
    }
}

} // verus!
