//! Polygonal obstacles and the exact geometric predicates on them.
//!
//! Every predicate is decided with exact integer arithmetic: orientation and
//! containment come down to signs of cross products, and the proper-crossing
//! test compares the intersection parameters of the two segments as integer
//! fractions instead of dividing them out.

use vstd::prelude::*;

use crate::pathfinder::abs_int;
use crate::point::{in_range, Point, COORD_LIMIT};

verus! {

/// The smaller of two integers.
pub open spec fn min_int(a: int, b: int) -> int {
    if a <= b {
        a
    } else {
        b
    }
}

/// The larger of two integers.
pub open spec fn max_int(a: int, b: int) -> int {
    if a >= b {
        a
    } else {
        b
    }
}

/// Integer division truncating toward zero, as the executable `/` does.
pub open spec fn div_trunc(a: int, b: int) -> int {
    if (a >= 0) == (b >= 0) {
        abs_int(a) / abs_int(b)
    } else {
        -(abs_int(a) / abs_int(b))
    }
}

/// Integer division of `a` by `b`, truncating toward zero.
///
/// The executable mirror of [`div_trunc`].
pub(crate) fn div_trunc_i128(a: i128, b: i128) -> (q: i128)
    requires
        b != 0,
        -0x1000_0000_0000_0000_0000_0000_0000_0000 < a,
        -0x1000_0000_0000_0000_0000_0000_0000_0000 < b,
    ensures
        q == div_trunc(a as int, b as int),
{
    let ua: u128 = if a < 0 {
        (-a) as u128
    } else {
        a as u128
    };
    let ub: u128 = if b < 0 {
        (-b) as u128
    } else {
        b as u128
    };
    let q0 = ua / ub;
    proof {
        assert(q0 <= ua);
    }
    if (a < 0) != (b < 0) {
        -(q0 as i128)
    } else {
        q0 as i128
    }
}

/// A directed edge between two points.
#[derive(Clone, Copy, Debug, PartialEq, Eq, Structural)]
pub struct Edge {
    pub start: Point,
    pub end: Point,
}

/// The cross product deciding whether `p` is collinear with edge `e`.
pub open spec fn edge_cross(e: Edge, p: Point) -> int {
    (p.y - e.start.y) * (e.end.x - e.start.x) - (p.x - e.start.x) * (e.end.y - e.start.y)
}

/// Whether `p` lies on edge `e`: collinear with it and inside its
/// axis-aligned bounding box.
pub open spec fn edge_contains_spec(e: Edge, p: Point) -> bool {
    &&& edge_cross(e, p) == 0
    &&& min_int(e.start.x as int, e.end.x as int) <= p.x <= max_int(e.start.x as int, e.end.x as int)
    &&& min_int(e.start.y as int, e.end.y as int) <= p.y <= max_int(e.start.y as int, e.end.y as int)
}

/// Whether two edges share an endpoint; such edges never count as crossing.
pub open spec fn edges_share_endpoint(a: Edge, b: Edge) -> bool {
    ||| a.start == b.start
    ||| a.start == b.end
    ||| a.end == b.start
    ||| a.end == b.end
}

/// Whether the fraction `n / d` (with `d != 0`) lies in the closed unit
/// interval.
pub open spec fn in_unit(n: int, d: int) -> bool {
    if d > 0 {
        0 <= n <= d
    } else {
        d <= n <= 0
    }
}

/// Whether two edges intersect, endpoints excluded.
///
/// Writing each segment parametrically, the segments cross when both
/// intersection parameters lie in the unit interval; the parameters are
/// compared as exact integer fractions. Parallel edges (a zero determinant)
/// intersect exactly when they are collinear and overlap.
pub open spec fn edges_intersect_spec(a: Edge, b: Edge) -> bool {
    if edges_share_endpoint(a, b) {
        false
    } else {
        let k1 = a.start.x - a.end.x;
        let k2 = b.end.y - b.start.y;
        let k3 = a.start.y - a.end.y;
        let k4 = b.end.x - b.start.x;
        let k5 = a.start.x - b.start.x;
        let k6 = a.start.y - b.start.y;
        let d = k1 * k2 - k3 * k4;
        if d == 0 {
            ||| edge_contains_spec(a, b.start)
            ||| edge_contains_spec(a, b.end)
            ||| edge_contains_spec(b, a.start)
            ||| edge_contains_spec(b, a.end)
        } else {
            in_unit(k2 * k5 - k4 * k6, d) && in_unit(k1 * k6 - k3 * k5, d)
        }
    }
}

/// A product of two differences of `i32` values stays far inside `i128`.
proof fn lemma_diff_product_bound(a: int, b: int)
    requires
        -0x1_0000_0000 <= a <= 0x1_0000_0000,
        -0x1_0000_0000 <= b <= 0x1_0000_0000,
    ensures
        -0x1_0000_0000_0000_0000 <= a * b <= 0x1_0000_0000_0000_0000,
{
    assert(-0x1_0000_0000_0000_0000 <= a * b <= 0x1_0000_0000_0000_0000) by (nonlinear_arith)
        requires
            -0x1_0000_0000 <= a <= 0x1_0000_0000,
            -0x1_0000_0000 <= b <= 0x1_0000_0000,
    ;
}

impl Edge {
    /// Creates an edge from `start` to `end`.
    pub fn new(start: Point, end: Point) -> (e: Edge)
        ensures
            e.start == start,
            e.end == end,
    {
        Edge { start, end }
    }

    /// Whether `point` lies on this edge.
    pub fn contains_point(&self, point: &Point) -> (r: bool)
        ensures
            r == edge_contains_spec(*self, *point),
    {
        let sx = self.start.x as i128;
        let sy = self.start.y as i128;
        let ex = self.end.x as i128;
        let ey = self.end.y as i128;
        let px = point.x as i128;
        let py = point.y as i128;
        proof {
            lemma_diff_product_bound(py - sy, ex - sx);
            lemma_diff_product_bound(px - sx, ey - sy);
        }
        let cross = (py - sy) * (ex - sx) - (px - sx) * (ey - sy);
        if cross != 0 {
            return false;
        }
        let minx = if sx <= ex { sx } else { ex };
        let maxx = if sx >= ex { sx } else { ex };
        let miny = if sy <= ey { sy } else { ey };
        let maxy = if sy >= ey { sy } else { ey };
        minx <= px && px <= maxx && miny <= py && py <= maxy
    }

    /// Whether this edge intersects `other`, shared endpoints excluded.
    pub fn intersects(&self, other: &Edge) -> (r: bool)
        ensures
            r == edges_intersect_spec(*self, *other),
    {
        if self.start == other.start || self.start == other.end || self.end == other.start
            || self.end == other.end {
            return false;
        }
        let k1 = (self.start.x as i128) - (self.end.x as i128);
        let k2 = (other.end.y as i128) - (other.start.y as i128);
        let k3 = (self.start.y as i128) - (self.end.y as i128);
        let k4 = (other.end.x as i128) - (other.start.x as i128);
        let k5 = (self.start.x as i128) - (other.start.x as i128);
        let k6 = (self.start.y as i128) - (other.start.y as i128);
        proof {
            lemma_diff_product_bound(k1 as int, k2 as int);
            lemma_diff_product_bound(k3 as int, k4 as int);
            lemma_diff_product_bound(k2 as int, k5 as int);
            lemma_diff_product_bound(k4 as int, k6 as int);
            lemma_diff_product_bound(k1 as int, k6 as int);
            lemma_diff_product_bound(k3 as int, k5 as int);
        }
        let d = k1 * k2 - k3 * k4;
        if d == 0 {
            return self.contains_point(&other.start) || self.contains_point(&other.end)
                || other.contains_point(&self.start) || other.contains_point(&self.end);
        }
        let na = k2 * k5 - k4 * k6;
        let nb = k1 * k6 - k3 * k5;
        let a_ok = if d > 0 {
            0 <= na && na <= d
        } else {
            d <= na && na <= 0
        };
        let b_ok = if d > 0 {
            0 <= nb && nb <= d
        } else {
            d <= nb && nb <= 0
        };
        a_ok && b_ok
    }
}

} // verus!

verus! {

/// Whether every vertex of a polygon boundary is in range and the boundary
/// has enough vertices to enclose anything, but not more than the library's
/// vertex budget.
pub open spec fn poly_wf(vs: Seq<Point>) -> bool {
    &&& 3 <= vs.len() <= 1000
    &&& forall|i: int| 0 <= i < vs.len() ==> in_range(#[trigger] vs[i])
}

/// The boundary edge leaving vertex `i` (wrapping at the end).
pub open spec fn edge_at(vs: Seq<Point>, i: int) -> Edge {
    Edge { start: vs[i], end: vs[if i + 1 == vs.len() { 0 } else { i + 1 }] }
}

/// Whether `u` and `v` are neighbouring vertices on the boundary.
pub open spec fn adjacent_in(vs: Seq<Point>, u: Point, v: Point) -> bool {
    exists|i: int|
        0 <= i < vs.len() && ((edge_at(vs, i).start == u && edge_at(vs, i).end == v) || (edge_at(
            vs,
            i,
        ).start == v && edge_at(vs, i).end == u))
}

/// The index of the vertex before `i` on the boundary (wrapping at zero).
pub open spec fn prev_idx(vs: Seq<Point>, i: int) -> int {
    if i == 0 {
        vs.len() - 1
    } else {
        i - 1
    }
}

/// Whether the horizontal ray from `p` crosses the boundary edge between
/// `vi` and `vj`, exactly as the executable ray-casting step decides it
/// (with the same truncating integer division).
pub open spec fn ray_crosses(vi: Point, vj: Point, p: Point) -> bool {
    &&& (vi.y > p.y) != (vj.y > p.y)
    &&& p.x < div_trunc((vj.x - vi.x) * (p.y - vi.y), vj.y - vi.y) + vi.x
}

/// How many of the first `k` boundary edges the ray from `p` crosses.
pub open spec fn cross_count(vs: Seq<Point>, p: Point, k: int) -> int
    decreases k,
{
    if k <= 0 {
        0
    } else {
        cross_count(vs, p, k - 1) + if ray_crosses(vs[k - 1], vs[prev_idx(vs, k - 1)], p) {
            1int
        } else {
            0int
        }
    }
}

/// Whether `p` lies strictly inside the polygon with boundary `vs`, by the
/// parity of ray crossings; a point coincident with any vertex counts as
/// outside.
pub open spec fn polygon_contains_spec(vs: Seq<Point>, p: Point) -> bool {
    &&& !vs.contains(p)
    &&& cross_count(vs, p, vs.len() as int) % 2 == 1
}

/// Whether the segment from `a` to `b` runs along one boundary edge.
pub open spec fn runs_along_edge(vs: Seq<Point>, a: Point, b: Point) -> bool {
    exists|i: int|
        0 <= i < vs.len() && edge_contains_spec(#[trigger] edge_at(vs, i), a)
            && edge_contains_spec(edge_at(vs, i), b)
}

/// Whether the segment from `a` to `b` properly crosses some boundary edge.
pub open spec fn crosses_some_edge(vs: Seq<Point>, a: Point, b: Point) -> bool {
    exists|i: int|
        0 <= i < vs.len() && edges_intersect_spec(
            Edge { start: a, end: b },
            #[trigger] edge_at(vs, i),
        )
}

/// The midpoint of the segment from `a` to `b`, with coordinates truncated
/// toward zero.
pub open spec fn seg_midpoint(a: Point, b: Point) -> Point {
    Point { x: div_trunc(a.x + b.x, 2) as i32, y: div_trunc(a.y + b.y, 2) as i32 }
}

/// Whether the polygon with boundary `vs` blocks the segment from `a` to `b`.
///
/// A segment running along a boundary edge is never blocked; a segment
/// properly crossing an edge always is; otherwise an endpoint that is not
/// itself a vertex but lies strictly inside blocks it, and finally a midpoint
/// strictly inside catches segments through the interior between two
/// non-adjacent vertices.
pub open spec fn seg_blocked(vs: Seq<Point>, a: Point, b: Point) -> bool {
    if runs_along_edge(vs, a, b) {
        false
    } else if crosses_some_edge(vs, a, b) {
        true
    } else if !vs.contains(a) && polygon_contains_spec(vs, a) {
        true
    } else if !vs.contains(b) && polygon_contains_spec(vs, b) {
        true
    } else {
        let mid = seg_midpoint(a, b);
        !edge_contains_spec(Edge { start: a, end: b }, mid) && polygon_contains_spec(vs, mid)
    }
}

/// A convex polygonal obstacle.
///
/// Vertices are stored in boundary order (clockwise or counter-clockwise);
/// vertex `i` is adjacent to its neighbours at `i - 1` and `i + 1`, wrapping
/// around the ends.
#[derive(Debug, PartialEq, Eq)]
pub struct Polygon {
    vertices: Vec<Point>,
}

impl View for Polygon {
    type V = Seq<Point>;

    closed spec fn view(&self) -> Seq<Point> {
        self.vertices@
    }
}

impl Polygon {
    #[verifier::type_invariant]
    spec fn type_inv(self) -> bool {
        poly_wf(self.vertices@)
    }

    /// Creates a new polygon from a boundary vertex list.
    pub fn new(vertices: Vec<Point>) -> (p: Polygon)
        requires
            poly_wf(vertices@),
        ensures
            p@ == vertices@,
    {
        Polygon { vertices }
    }

    /// The boundary vertices, in order.
    ///
    /// Also reports that the polygon is well formed: every polygon value is,
    /// by construction.
    pub fn vertices(&self) -> (v: &Vec<Point>)
        ensures
            v@ == self@,
            poly_wf(self@),
    {
        proof {
            use_type_invariant(&*self);
        }
        &self.vertices
    }

    /// A copy of the boundary vertices, in order.
    pub fn vertices_vec(&self) -> (v: Vec<Point>)
        ensures
            v@ == self@,
            poly_wf(self@),
    {
        proof {
            use_type_invariant(&*self);
        }
        crate::mapset::copy_points(&self.vertices)
    }

    /// Whether `p` coincides with a boundary vertex.
    pub fn has_vertex(&self, p: &Point) -> (r: bool)
        ensures
            r == self@.contains(*p),
    {
        let n = self.vertices.len();
        let mut i: usize = 0;
        while i < n
            invariant
                n == self.vertices@.len(),
                i <= n,
                forall|j: int| 0 <= j < i ==> self.vertices@[j] != *p,
            decreases n - i,
        {
            if self.vertices[i] == *p {
                return true;
            }
            i = i + 1;
        }
        false
    }
}

} // verus!

verus! {

/// The sum of the X coordinates of a vertex list.
pub open spec fn sum_x(vs: Seq<Point>) -> int
    decreases vs.len(),
{
    if vs.len() == 0 {
        0
    } else {
        sum_x(vs.drop_last()) + vs.last().x
    }
}

/// The sum of the Y coordinates of a vertex list.
pub open spec fn sum_y(vs: Seq<Point>) -> int
    decreases vs.len(),
{
    if vs.len() == 0 {
        0
    } else {
        sum_y(vs.drop_last()) + vs.last().y
    }
}

/// The centroid of a vertex list: the coordinate averages, truncated toward
/// zero as the executable division truncates.
pub open spec fn poly_center(vs: Seq<Point>) -> Point {
    Point {
        x: div_trunc(sum_x(vs), vs.len() as int) as i32,
        y: div_trunc(sum_y(vs), vs.len() as int) as i32,
    }
}

/// Coordinate sums of in-range vertex lists stay small.
proof fn lemma_sum_bounds(vs: Seq<Point>)
    requires
        forall|i: int| 0 <= i < vs.len() ==> in_range(#[trigger] vs[i]),
    ensures
        -(vs.len() as int) * (COORD_LIMIT as int) <= sum_x(vs) <= (vs.len() as int) * (
        COORD_LIMIT as int),
        -(vs.len() as int) * (COORD_LIMIT as int) <= sum_y(vs) <= (vs.len() as int) * (
        COORD_LIMIT as int),
    decreases vs.len(),
{
    if vs.len() > 0 {
        assert(forall|i: int|
            0 <= i < vs.drop_last().len() ==> #[trigger] vs.drop_last()[i] == vs[i]);
        lemma_sum_bounds(vs.drop_last());
        assert(in_range(vs.last()));
        assert((vs.len() as int) * (COORD_LIMIT as int) == (vs.len() as int - 1) * (
        COORD_LIMIT as int) + COORD_LIMIT) by (nonlinear_arith);
    }
}

impl Polygon {
    /// The centroid of the polygon, as the truncated average of its vertices.
    pub fn center(&self) -> (c: Point)
        ensures
            c == poly_center(self@),
    {
        proof {
            use_type_invariant(&*self);
        }
        let n = self.vertices.len();
        let mut sx: i64 = 0;
        let mut sy: i64 = 0;
        let mut i: usize = 0;
        while i < n
            invariant
                n == self.vertices@.len(),
                poly_wf(self.vertices@),
                i <= n,
                sx == sum_x(self.vertices@.take(i as int)),
                sy == sum_y(self.vertices@.take(i as int)),
                -(i as int) * (COORD_LIMIT as int) <= sx <= (i as int) * (COORD_LIMIT as int),
                -(i as int) * (COORD_LIMIT as int) <= sy <= (i as int) * (COORD_LIMIT as int),
            decreases n - i,
        {
            let v = self.vertices[i];
            proof {
                assert(self.vertices@.take(i as int + 1).drop_last() == self.vertices@.take(
                    i as int,
                ));
                assert((i as int + 1) * (COORD_LIMIT as int) == (i as int) * (COORD_LIMIT as int)
                    + COORD_LIMIT) by (nonlinear_arith);
            }
            sx = sx + (v.x as i64);
            sy = sy + (v.y as i64);
            i = i + 1;
        }
        proof {
            assert(self.vertices@.take(n as int) == self.vertices@);
            assert((n as int) * (COORD_LIMIT as int) <= 1000 * (COORD_LIMIT as int))
                by (nonlinear_arith)
                requires n <= 1000;
        }
        let cx = div_trunc_i128(sx as i128, n as i128);
        let cy = div_trunc_i128(sy as i128, n as i128);
        proof {
            assert(abs_int(div_trunc(sx as int, n as int)) <= abs_int(sx as int) && abs_int(
                div_trunc(sy as int, n as int),
            ) <= abs_int(sy as int)) by {
                lemma_div_trunc_abs(sx as int, n as int);
                lemma_div_trunc_abs(sy as int, n as int);
            }
        }
        Point::new(cx as i32, cy as i32)
    }
}

/// Truncating division never grows the magnitude of its argument.
pub(crate) proof fn lemma_div_trunc_abs(a: int, b: int)
    requires
        b != 0,
    ensures
        abs_int(div_trunc(a, b)) <= abs_int(a),
{
    let ua = abs_int(a);
    let ub = abs_int(b);
    assert(ua / ub <= ua) by (nonlinear_arith)
        requires ua >= 0 && ub >= 1;
}

} // verus!

verus! {

impl Polygon {
    /// The boundary edges, as directed edges from each vertex to the next.
    pub fn outer_edges(&self) -> (es: Vec<Edge>)
        ensures
            es@.len() == self@.len(),
            forall|i: int| 0 <= i < es@.len() ==> es@[i] == edge_at(self@, i),
    {
        proof {
            use_type_invariant(&*self);
        }
        let n = self.vertices.len();
        let mut es: Vec<Edge> = Vec::new();
        let mut i: usize = 0;
        while i < n
            invariant
                n == self.vertices@.len(),
                3 <= n,
                i <= n,
                es@.len() == i,
                forall|j: int| 0 <= j < i ==> es@[j] == edge_at(self.vertices@, j),
            decreases n - i,
        {
            let next = if i + 1 == n {
                0
            } else {
                i + 1
            };
            es.push(Edge::new(self.vertices[i], self.vertices[next]));
            i = i + 1;
        }
        es
    }

    /// Whether `point` lies strictly inside the polygon, by ray casting;
    /// a point on a vertex counts as outside.
    pub fn contains_point(&self, point: &Point) -> (r: bool)
        ensures
            r == polygon_contains_spec(self@, *point),
    {
        proof {
            use_type_invariant(&*self);
        }
        let n = self.vertices.len();
        let mut inside = false;
        let mut j = n - 1;
        let mut i: usize = 0;
        while i < n
            invariant
                n == self.vertices@.len(),
                poly_wf(self.vertices@),
                i <= n,
                j == (if i == 0 { n - 1 } else { i - 1 }),
                forall|l: int| 0 <= l < i ==> self.vertices@[l] != *point,
                inside == (cross_count(self.vertices@, *point, i as int) % 2 == 1),
            decreases n - i,
        {
            let vi = self.vertices[i];
            let vj = self.vertices[j];
            if vi == *point || vj == *point {
                return false;
            }
            let crossing: bool;
            if (vi.y > point.y) != (vj.y > point.y) {
                proof {
                    lemma_diff_product_bound((vj.x - vi.x) as int, (point.y - vi.y) as int);
                }
                let num = ((vj.x as i128) - (vi.x as i128)) * ((point.y as i128) - (vi.y as i128));
                let den = (vj.y as i128) - (vi.y as i128);
                proof {
                    lemma_div_trunc_abs(num as int, den as int);
                }
                let q = div_trunc_i128(num, den);
                crossing = (point.x as i128) < q + (vi.x as i128);
            } else {
                crossing = false;
            }
            proof {
                assert(crossing == ray_crosses(
                    self.vertices@[i as int],
                    self.vertices@[prev_idx(self.vertices@, i as int)],
                    *point,
                ));
            }
            if crossing {
                inside = !inside;
            }
            j = i;
            i = i + 1;
        }
        proof {
            assert(!self.vertices@.contains(*point));
        }
        inside
    }

    /// Whether the segment from `start` to `end` is blocked by this polygon.
    pub fn intersects_segment(&self, start: &Point, end: &Point) -> (r: bool)
        ensures
            r == seg_blocked(self@, *start, *end),
    {
        proof {
            use_type_invariant(&*self);
        }
        let n = self.vertices.len();
        let test_edge = Edge::new(*start, *end);

        // A segment running along one of the boundary edges is never blocked.
        let mut i: usize = 0;
        while i < n
            invariant
                n == self.vertices@.len(),
                3 <= n,
                i <= n,
                forall|j: int|
                    0 <= j < i ==> !(edge_contains_spec(#[trigger] edge_at(self.vertices@, j), *start)
                        && edge_contains_spec(edge_at(self.vertices@, j), *end)),
            decreases n - i,
        {
            let next = if i + 1 == n {
                0
            } else {
                i + 1
            };
            let polygon_edge = Edge::new(self.vertices[i], self.vertices[next]);
            if polygon_edge.contains_point(start) && polygon_edge.contains_point(end) {
                proof {
                    assert(edge_at(self.vertices@, i as int) == polygon_edge);
                }
                return false;
            }
            i = i + 1;
        }
        proof {
            assert(!runs_along_edge(self.vertices@, *start, *end));
        }

        // A segment properly crossing a boundary edge is always blocked.
        let mut i: usize = 0;
        while i < n
            invariant
                n == self.vertices@.len(),
                3 <= n,
                i <= n,
                test_edge.start == *start && test_edge.end == *end,
                !runs_along_edge(self.vertices@, *start, *end),
                forall|j: int|
                    0 <= j < i ==> !edges_intersect_spec(
                        Edge { start: *start, end: *end },
                        #[trigger] edge_at(self.vertices@, j),
                    ),
            decreases n - i,
        {
            let next = if i + 1 == n {
                0
            } else {
                i + 1
            };
            let polygon_edge = Edge::new(self.vertices[i], self.vertices[next]);
            if test_edge.intersects(&polygon_edge) {
                proof {
                    assert(edge_at(self.vertices@, i as int) == polygon_edge);
                }
                return true;
            }
            i = i + 1;
        }
        proof {
            assert(!crosses_some_edge(self.vertices@, *start, *end));
        }

        // An endpoint that is not a vertex but lies inside blocks the segment.
        if !self.has_vertex(start) && self.contains_point(start) {
            return true;
        }
        if !self.has_vertex(end) && self.contains_point(end) {
            return true;
        }

        // A midpoint strictly inside catches a segment through the interior.
        let mx = div_trunc_i128((start.x as i128) + (end.x as i128), 2);
        let my = div_trunc_i128((start.y as i128) + (end.y as i128), 2);
        proof {
            lemma_div_trunc_abs((start.x + end.x) as int, 2);
            lemma_div_trunc_abs((start.y + end.y) as int, 2);
            lemma_midpoint_fits(start.x as int, end.x as int);
            lemma_midpoint_fits(start.y as int, end.y as int);
        }
        let mid = Point::new(mx as i32, my as i32);
        proof {
            assert(mid == seg_midpoint(*start, *end));
        }
        !test_edge.contains_point(&mid) && self.contains_point(&mid)
    }
}

/// The truncated average of two `i32` values fits in `i32`.
proof fn lemma_midpoint_fits(a: int, b: int)
    requires
        -0x8000_0000 <= a < 0x8000_0000,
        -0x8000_0000 <= b < 0x8000_0000,
    ensures
        -0x8000_0000 <= div_trunc(a + b, 2) < 0x8000_0000,
{
    assert(abs_int(a + b) / 2 <= 0x8000_0000) by (nonlinear_arith)
        requires -0x1_0000_0000 <= a + b <= 0x1_0000_0000;
    if div_trunc(a + b, 2) == 0x8000_0000 {
        assert(a + b >= 0 && abs_int(a + b) / 2 == 0x8000_0000);
        assert(a + b >= 2 * 0x8000_0000) by (nonlinear_arith)
            requires a + b >= 0 && (a + b) / 2 >= 0x8000_0000;
    }
}

impl Clone for Polygon {
    /// Cloning preserves the boundary exactly.
    fn clone(&self) -> (res: Self)
        ensures
            res@ == self@,
    {
        proof {
            use_type_invariant(&*self);
        }
        Polygon { vertices: crate::mapset::copy_points(&self.vertices) }
    }
}

/// Neighbouring vertices of a polygon are joined by a boundary edge, and a
/// segment along a boundary edge is never blocked by that polygon.
pub proof fn lemma_adjacent_not_blocked(vs: Seq<Point>, u: Point, v: Point)
    requires
        adjacent_in(vs, u, v),
    ensures
        !seg_blocked(vs, u, v),
{
    let i = choose|i: int|
        0 <= i < vs.len() && ((edge_at(vs, i).start == u && edge_at(vs, i).end == v) || (edge_at(
            vs,
            i,
        ).start == v && edge_at(vs, i).end == u));
    let e = edge_at(vs, i);
    lemma_edge_contains_own_endpoints(e);
    assert(edge_contains_spec(e, u) && edge_contains_spec(e, v));
    assert(runs_along_edge(vs, u, v));
}

/// An edge contains both of its own endpoints.
pub proof fn lemma_edge_contains_own_endpoints(e: Edge)
    ensures
        edge_contains_spec(e, e.start),
        edge_contains_spec(e, e.end),
{
    assert((e.start.y - e.start.y) * (e.end.x - e.start.x) == 0) by (nonlinear_arith);
    assert((e.start.x - e.start.x) * (e.end.y - e.start.y) == 0) by (nonlinear_arith);
    assert((e.end.y - e.start.y) * (e.end.x - e.start.x) == (e.end.x - e.start.x) * (e.end.y
        - e.start.y)) by (nonlinear_arith);
}

} // verus!

verus! {

/// Collinearity with an edge does not depend on the edge's direction.
pub proof fn lemma_edge_contains_reversed(e: Edge, p: Point)
    ensures
        edge_contains_spec(Edge { start: e.end, end: e.start }, p) == edge_contains_spec(e, p),
{
    let sx = e.start.x as int;
    let sy = e.start.y as int;
    let ex = e.end.x as int;
    let ey = e.end.y as int;
    let px = p.x as int;
    let py = p.y as int;
    assert((py - ey) * (sx - ex) - (px - ex) * (sy - ey) == -((py - sy) * (ex - sx) - (px - sx) * (
    ey - sy))) by (nonlinear_arith);
}

/// Whether two edges cross does not depend on the first edge's direction.
pub proof fn lemma_edges_intersect_reversed(a: Edge, b: Edge)
    ensures
        edges_intersect_spec(Edge { start: a.end, end: a.start }, b) == edges_intersect_spec(a, b),
{
    let r = Edge { start: a.end, end: a.start };
    if edges_share_endpoint(a, b) {
        assert(edges_share_endpoint(r, b));
    } else {
        assert(!edges_share_endpoint(r, b));
        let k1 = a.start.x - a.end.x;
        let k2 = b.end.y - b.start.y;
        let k3 = a.start.y - a.end.y;
        let k4 = b.end.x - b.start.x;
        let k5 = a.start.x - b.start.x;
        let k6 = a.start.y - b.start.y;
        let d = k1 * k2 - k3 * k4;
        let na = k2 * k5 - k4 * k6;
        let nb = k1 * k6 - k3 * k5;
        let j1 = r.start.x - r.end.x;
        let j3 = r.start.y - r.end.y;
        let j5 = r.start.x - b.start.x;
        let j6 = r.start.y - b.start.y;
        let rd = j1 * k2 - j3 * k4;
        let rna = k2 * j5 - k4 * j6;
        let rnb = j1 * j6 - j3 * j5;
        assert(j1 == -k1 && j3 == -k3 && j5 == k5 - k1 && j6 == k6 - k3);
        assert(rd == -d) by (nonlinear_arith)
            requires j1 == -k1 && j3 == -k3 && rd == j1 * k2 - j3 * k4 && d == k1 * k2 - k3 * k4;
        assert(rna == na - d) by (nonlinear_arith)
            requires
                j5 == k5 - k1 && j6 == k6 - k3 && rna == k2 * j5 - k4 * j6 && na == k2 * k5 - k4
                    * k6 && d == k1 * k2 - k3 * k4;
        assert(rnb == -nb) by (nonlinear_arith)
            requires
                j1 == -k1 && j3 == -k3 && j5 == k5 - k1 && j6 == k6 - k3 && rnb == j1 * j6 - j3
                    * j5 && nb == k1 * k6 - k3 * k5;
        if d == 0 {
            lemma_edge_contains_reversed(a, b.start);
            lemma_edge_contains_reversed(a, b.end);
        } else {
            assert(in_unit(rna, rd) == in_unit(na, d));
            assert(in_unit(rnb, rd) == in_unit(nb, d));
        }
    }
}

/// Whether a polygon blocks a segment does not depend on the direction the
/// segment is written in.
pub proof fn lemma_seg_blocked_symmetric(vs: Seq<Point>, a: Point, b: Point)
    ensures
        seg_blocked(vs, a, b) == seg_blocked(vs, b, a),
{
    assert forall|i: int| 0 <= i < vs.len() implies (edge_contains_spec(
        #[trigger] edge_at(vs, i),
        a,
    ) && edge_contains_spec(edge_at(vs, i), b)) == (edge_contains_spec(edge_at(vs, i), b)
        && edge_contains_spec(edge_at(vs, i), a)) by {}
    assert(runs_along_edge(vs, a, b) == runs_along_edge(vs, b, a));
    assert forall|i: int| 0 <= i < vs.len() implies edges_intersect_spec(
        Edge { start: a, end: b },
        #[trigger] edge_at(vs, i),
    ) == edges_intersect_spec(Edge { start: b, end: a }, edge_at(vs, i)) by {
        lemma_edges_intersect_reversed(Edge { start: a, end: b }, edge_at(vs, i));
    }
    assert(crosses_some_edge(vs, a, b) == crosses_some_edge(vs, b, a));
    let mab = seg_midpoint(a, b);
    let mba = seg_midpoint(b, a);
    assert(mab == mba);
    lemma_edge_contains_reversed(Edge { start: a, end: b }, mab);
    assert(edge_contains_spec(Edge { start: a, end: b }, mab) == edge_contains_spec(
        Edge { start: b, end: a },
        mba,
    ));
}

} // verus!
