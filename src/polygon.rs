//! Polygons with holes: shoelace area, a crossing-number signed distance,
//! and holes admitted by a vertex-containment test.

use crate::geometry::{
    dist2, floor_sqrt, in_coord, isqrt_small, sq, sq_norm, COORD_LIMIT,
};
use crate::sampling::uniform_point;
use crate::shapes::{max_i, min_i, Bbox, Shape, SAMPLE_ATTEMPTS};
use rand::rngs::StdRng;
use vstd::arithmetic::div_mod::{lemma_mod_add_multiples_vanish, lemma_small_mod};
use vstd::prelude::*;

verus! {

broadcast use vstd::std_specs::vec::group_vec_axioms, vstd::seq::group_seq_axioms;

/// Largest number of vertices in a polygon, its holes included.
pub const MAX_VERTICES: u64 = 0x1_0000_0000;

/// A closed polygon (the last vertex joins the first) with polygonal holes,
/// which may hold holes of their own.
#[derive(Debug)]
pub struct Polyline {
    points: Vec<(i64, i64)>,
    holes: Vec<Polyline>,
    cx: i64,
    cy: i64,
    bbox: Bbox,
    vertex_total: u64,
}

pub open spec fn pt(p: (i64, i64)) -> (int, int) {
    (p.0 as int, p.1 as int)
}

/// Twice the signed area contribution of the edge from vertex `i` to the next.
pub open spec fn cross_term(pts: Seq<(i64, i64)>, i: int) -> int {
    let a = pts[i];
    let b = pts[(i + 1) % (pts.len() as int)];
    a.0 * b.1 - b.0 * a.1
}

/// The shoelace sum over the first `k` edges.
pub open spec fn shoelace(pts: Seq<(i64, i64)>, k: int) -> int
    decreases k,
{
    if k <= 0 {
        0
    } else {
        shoelace(pts, k - 1) + cross_term(pts, k - 1)
    }
}

pub open spec fn abs_i(v: int) -> int {
    if v < 0 { -v } else { v }
}

/// Area enclosed by a ring of vertices, rounded down.
pub open spec fn ring_area(pts: Seq<(i64, i64)>) -> int {
    abs_i(shoelace(pts, pts.len() as int)) / 2
}

/// Floor of the distance from `(x, y)` to the edge that joins vertex `i` to
/// the vertex before it.
pub open spec fn edge_dist(pts: Seq<(i64, i64)>, i: int, x: int, y: int) -> int {
    let j = (i + pts.len() - 1) % (pts.len() as int);
    let (ix, iy) = pt(pts[i]);
    let (jx, jy) = pt(pts[j]);
    let (ex, ey) = (jx - ix, jy - iy);
    let (wx, wy) = (x - ix, y - iy);
    let dot = wx * ex + wy * ey;
    let e2 = ex * ex + ey * ey;
    if dot <= 0 {
        floor_sqrt(sq(wx) + sq(wy))
    } else if dot >= e2 {
        floor_sqrt(sq(wx - ex) + sq(wy - ey))
    } else {
        floor_sqrt(sq(ex * wy - ey * wx) / e2)
    }
}

/// Whether `(x, y)` lies exactly on the edge that ends at vertex `i`.
pub open spec fn edge_touch(pts: Seq<(i64, i64)>, i: int, x: int, y: int) -> bool {
    let j = (i + pts.len() - 1) % (pts.len() as int);
    let (ix, iy) = pt(pts[i]);
    let (jx, jy) = pt(pts[j]);
    let (ex, ey) = (jx - ix, jy - iy);
    let (wx, wy) = (x - ix, y - iy);
    let dot = wx * ex + wy * ey;
    let e2 = ex * ex + ey * ey;
    if dot <= 0 {
        sq(wx) + sq(wy) == 0
    } else if dot >= e2 {
        sq(wx - ex) + sq(wy - ey) == 0
    } else {
        sq(ex * wy - ey * wx) == 0
    }
}

/// Whether the edge that ends at vertex `i` flips the crossing parity of `(x, y)`.
pub open spec fn edge_flips(pts: Seq<(i64, i64)>, i: int, x: int, y: int) -> bool {
    let j = (i + pts.len() - 1) % (pts.len() as int);
    let (ix, iy) = pt(pts[i]);
    let (jx, jy) = pt(pts[j]);
    let (ex, ey) = (jx - ix, jy - iy);
    let (wx, wy) = (x - ix, y - iy);
    let a = y >= iy;
    let b = y < jy;
    let c = ex * wy > ey * wx;
    (a && b && c) || (!a && !b && !c)
}

/// Floor of the distance from `(x, y)` to the first vertex and the first `k` edges.
pub open spec fn ring_dist(pts: Seq<(i64, i64)>, k: int, x: int, y: int) -> int
    decreases k,
{
    if k <= 0 {
        floor_sqrt(dist2(x, y, pts[0].0 as int, pts[0].1 as int))
    } else {
        min_i(ring_dist(pts, k - 1, x, y), edge_dist(pts, k - 1, x, y))
    }
}

/// Whether `(x, y)` lies exactly on the first vertex or one of the first `k` edges.
pub open spec fn ring_touch(pts: Seq<(i64, i64)>, k: int, x: int, y: int) -> bool
    decreases k,
{
    if k <= 0 {
        dist2(x, y, pts[0].0 as int, pts[0].1 as int) == 0
    } else {
        ring_touch(pts, k - 1, x, y) || edge_touch(pts, k - 1, x, y)
    }
}

/// Whether an odd number of the first `k` edges flip the crossing parity.
pub open spec fn ring_odd(pts: Seq<(i64, i64)>, k: int, x: int, y: int) -> bool
    decreases k,
{
    if k <= 0 {
        false
    } else {
        ring_odd(pts, k - 1, x, y) != edge_flips(pts, k - 1, x, y)
    }
}

/// Signed distance to a ring alone: negative inside, positive outside, zero
/// only on the ring. Its magnitude is the distance rounded down, but at least
/// one off the ring, so that the sign survives the rounding; a point within
/// one unit of the ring thus reports one unit of depth it may not have.
pub open spec fn ring_sdf(pts: Seq<(i64, i64)>, x: int, y: int) -> int {
    let d = ring_dist(pts, pts.len() as int, x, y);
    let m = if ring_touch(pts, pts.len() as int, x, y) { 0 } else { max_i(d, 1) };
    if ring_odd(pts, pts.len() as int, x, y) { -m } else { m }
}

impl Polyline {
    pub closed spec fn points_spec(&self) -> Seq<(i64, i64)> {
        self.points@
    }

    pub closed spec fn holes_spec(&self) -> Seq<Polyline> {
        self.holes@
    }
}

/// Vertices of a polygon, its holes included.
pub open spec fn poly_size(p: Polyline) -> int
    decreases p,
{
    p.points_spec().len() + holes_size(p.holes_spec())
}

pub open spec fn holes_size(s: Seq<Polyline>) -> int
    decreases s,
{
    if s.len() == 0 {
        0
    } else {
        holes_size(s.drop_last()) + poly_size(s.last())
    }
}

/// Area of the outer ring less the areas of the holes.
pub open spec fn poly_area(p: Polyline) -> int
    decreases p,
{
    ring_area(p.points_spec()) - holes_area(p.holes_spec())
}

pub open spec fn holes_area(s: Seq<Polyline>) -> int
    decreases s,
{
    if s.len() == 0 {
        0
    } else {
        holes_area(s.drop_last()) + poly_area(s.last())
    }
}

/// Signed distance to the polygon with its holes taken out.
pub open spec fn poly_sdf(p: Polyline, x: int, y: int) -> int
    decreases p,
{
    carve(p.holes_spec(), ring_sdf(p.points_spec(), x, y), x, y)
}

/// `d` with each hole of `s` taken out: `max(d, -hole_sdf)` in order.
pub open spec fn carve(s: Seq<Polyline>, d: int, x: int, y: int) -> int
    decreases s,
{
    if s.len() == 0 {
        d
    } else {
        max_i(carve(s.drop_last(), d, x, y), -poly_sdf(s.last(), x, y))
    }
}

pub open spec fn ring_ok(pts: Seq<(i64, i64)>) -> bool {
    &&& 0 < pts.len() <= MAX_VERTICES
    &&& forall|i: int|
        0 <= i < pts.len() ==> in_coord(#[trigger] pts[i].0 as int) && in_coord(pts[i].1 as int)
}

/// The smallest rectangle holding the first `k` vertices (`k >= 1`).
pub open spec fn bounds(pts: Seq<(i64, i64)>, k: int) -> Bbox
    decreases k,
{
    if k <= 1 {
        Bbox { x0: pts[0].0, y0: pts[0].1, x1: pts[0].0, y1: pts[0].1 }
    } else {
        let b = bounds(pts, k - 1);
        let (x, y) = pts[k - 1];
        Bbox {
            x0: min_i(b.x0 as int, x as int) as i64,
            y0: min_i(b.y0 as int, y as int) as i64,
            x1: max_i(b.x1 as int, x as int) as i64,
            y1: max_i(b.y1 as int, y as int) as i64,
        }
    }
}

pub open spec fn sum_x(pts: Seq<(i64, i64)>, k: int) -> int
    decreases k,
{
    if k <= 0 { 0 } else { sum_x(pts, k - 1) + pts[k - 1].0 }
}

pub open spec fn sum_y(pts: Seq<(i64, i64)>, k: int) -> int
    decreases k,
{
    if k <= 0 { 0 } else { sum_y(pts, k - 1) + pts[k - 1].1 }
}

/// Well-formed: vertices in range, cached bounding box, centroid and vertex
/// count consistent, and the same of every hole.
pub open spec fn poly_inv(p: Polyline) -> bool
    decreases p,
{
    &&& ring_ok(p.points_spec())
    &&& p.bbox_cached() == bounds(p.points_spec(), p.points_spec().len() as int)
    &&& p.centroid_cached() == (
        sum_x(p.points_spec(), p.points_spec().len() as int) / (p.points_spec().len() as int),
        sum_y(p.points_spec(), p.points_spec().len() as int) / (p.points_spec().len() as int),
    )
    &&& p.total_cached() == poly_size(p)
    &&& poly_size(p) <= MAX_VERTICES
    &&& forall|i: int|
        #![trigger p.holes_spec()[i]]
        0 <= i < p.holes_spec().len() ==> poly_inv(p.holes_spec()[i])
}

impl Polyline {
    pub closed spec fn bbox_cached(&self) -> Bbox {
        self.bbox
    }

    pub closed spec fn centroid_cached(&self) -> (int, int) {
        (self.cx as int, self.cy as int)
    }

    pub closed spec fn total_cached(&self) -> int {
        self.vertex_total as int
    }
}

pub proof fn lemma_sizes_nonneg(p: Polyline)
    ensures
        poly_size(p) >= 0,
        holes_size(p.holes_spec()) >= 0,
    decreases p,
{
    lemma_holes_size_nonneg(p.holes_spec());
}

pub proof fn lemma_holes_size_nonneg(s: Seq<Polyline>)
    ensures
        holes_size(s) >= 0,
    decreases s,
{
    if s.len() > 0 {
        lemma_holes_size_nonneg(s.drop_last());
        lemma_sizes_nonneg(s.last());
    }
}

proof fn lemma_holes_size_prefix(s: Seq<Polyline>, k: int)
    requires
        0 <= k <= s.len(),
    ensures
        0 <= holes_size(s.subrange(0, k)) <= holes_size(s),
    decreases s.len() - k,
{
    lemma_holes_size_nonneg(s.subrange(0, k));
    if k < s.len() {
        lemma_holes_size_prefix(s, k + 1);
        let t = s.subrange(0, k + 1);
        assert(t.drop_last() =~= s.subrange(0, k));
        lemma_sizes_nonneg(t.last());
    } else {
        assert(s.subrange(0, k) =~= s);
    }
}

proof fn lemma_lagrange(a: int, b: int, c: int, e: int)
    ensures
        (c * b - e * a) * (c * b - e * a) + (a * c + b * e) * (a * c + b * e) == (a * a + b * b) * (
        c * c + e * e),
{
    let (u, v, p, q) = (c * b, e * a, a * c, b * e);
    assert((u - v) * (u - v) == u * u - 2 * (u * v) + v * v) by (nonlinear_arith);
    assert((p + q) * (p + q) == p * p + 2 * (p * q) + q * q) by (nonlinear_arith);
    assert(u * v == p * q) by (nonlinear_arith)
        requires u == c * b, v == e * a, p == a * c, q == b * e;
    assert(u * u == (b * b) * (c * c)) by (nonlinear_arith)
        requires u == c * b;
    assert(v * v == (a * a) * (e * e)) by (nonlinear_arith)
        requires v == e * a;
    assert(p * p == (a * a) * (c * c)) by (nonlinear_arith)
        requires p == a * c;
    assert(q * q == (b * b) * (e * e)) by (nonlinear_arith)
        requires q == b * e;
    let (aa, bb, cc, ee) = (a * a, b * b, c * c, e * e);
    assert((aa + bb) * (cc + ee) == aa * cc + aa * ee + bb * cc + bb * ee) by (nonlinear_arith);
}

/// The floor distance from `(x, y)` to the edge that ends at vertex `i`,
/// and whether that edge flips the crossing parity.
fn edge_query(pts: &Vec<(i64, i64)>, i: usize, x: i64, y: i64) -> (r: (i64, bool, bool))
    requires
        ring_ok(pts@),
        i < pts@.len(),
        in_coord(x as int),
        in_coord(y as int),
    ensures
        r.0 as int == edge_dist(pts@, i as int, x as int, y as int),
        0 <= r.0 <= 0x800_0000,
        r.1 == edge_flips(pts@, i as int, x as int, y as int),
        r.2 == edge_touch(pts@, i as int, x as int, y as int),
{
    let n = pts.len();
    let j: usize = if i == 0 { n - 1 } else { i - 1 };
    proof {
        if i == 0 {
            lemma_small_mod((n - 1) as nat, n as nat);
        } else {
            lemma_mod_add_multiples_vanish(i - 1, n as int);
            lemma_small_mod((i - 1) as nat, n as nat);
        }
    }
    assert(j as int == (i + n - 1) % (n as int));
    let (ix, iy) = pts[i];
    let (jx, jy) = pts[j];
    assert(in_coord(pts@[i as int].0 as int) && in_coord(pts@[j as int].0 as int));
    let ex: i64 = jx - ix;
    let ey: i64 = jy - iy;
    let wx: i64 = x - ix;
    let wy: i64 = y - iy;
    assert(-0x4_0000_0000_0000 <= wx * ex <= 0x4_0000_0000_0000) by (nonlinear_arith)
        requires -0x200_0000 <= wx <= 0x200_0000, -0x200_0000 <= ex <= 0x200_0000;
    assert(-0x4_0000_0000_0000 <= wy * ey <= 0x4_0000_0000_0000) by (nonlinear_arith)
        requires -0x200_0000 <= wy <= 0x200_0000, -0x200_0000 <= ey <= 0x200_0000;
    assert(-0x4_0000_0000_0000 <= ex * wy <= 0x4_0000_0000_0000) by (nonlinear_arith)
        requires -0x200_0000 <= wy <= 0x200_0000, -0x200_0000 <= ex <= 0x200_0000;
    assert(-0x4_0000_0000_0000 <= ey * wx <= 0x4_0000_0000_0000) by (nonlinear_arith)
        requires -0x200_0000 <= wx <= 0x200_0000, -0x200_0000 <= ey <= 0x200_0000;
    assert(0 <= ex * ex <= 0x4_0000_0000_0000) by (nonlinear_arith)
        requires -0x200_0000 <= ex <= 0x200_0000;
    assert(0 <= ey * ey <= 0x4_0000_0000_0000) by (nonlinear_arith)
        requires -0x200_0000 <= ey <= 0x200_0000;
    let dot: i64 = wx * ex + wy * ey;
    let e2: i64 = ex * ex + ey * ey;
    let (d, touch): (i64, bool) = if dot <= 0 {
        let n = sq_norm(wx, wy);
        (isqrt_small(n), n == 0)
    } else if dot >= e2 {
        let n = sq_norm(wx - ex, wy - ey);
        (isqrt_small(n), n == 0)
    } else {
        let cr: i128 = ex as i128 * wy as i128 - ey as i128 * wx as i128;
        proof {
            let (a, b, c, e) = (wx as int, wy as int, ex as int, ey as int);
            lemma_lagrange(a, b, c, e);
            assert(-0x8_0000_0000_0000 <= c * b - e * a <= 0x8_0000_0000_0000);
            assert(0 <= (c * b - e * a) * (c * b - e * a) <= 0x40_0000_0000_0000_0000_0000_0000) by (nonlinear_arith)
                requires -0x8_0000_0000_0000 <= c * b - e * a <= 0x8_0000_0000_0000;
            assert(0 <= a * a + b * b <= 0x8_0000_0000_0000) by (nonlinear_arith)
                requires -0x200_0000 <= a <= 0x200_0000, -0x200_0000 <= b <= 0x200_0000;
            assert(0 <= (c * b - e * a) * (c * b - e * a)) by (nonlinear_arith);
            assert(0 <= (a * c + b * e) * (a * c + b * e)) by (nonlinear_arith);
        }
        let c2: u128 = (cr * cr) as u128;
        let q: u128 = c2 / (e2 as u128);
        proof {
            let w2 = (wx * wx + wy * wy) as int;
            let e2i = e2 as int;
            assert(c2 as int <= w2 * e2i);
            assert(q as int <= w2) by (nonlinear_arith)
                requires q as int == (c2 as int) / e2i, c2 as int <= w2 * e2i, e2i > 0, c2 >= 0;
            assert(sq(ex * wy - ey * wx) == c2 as int);
        }
        (isqrt_small(q), c2 == 0)
    };
    let flip = {
        let a = y >= iy;
        let b = y < jy;
        let c = ex * wy > ey * wx;
        (a && b && c) || (!a && !b && !c)
    };
    (d, flip, touch)
}

/// Signed distance to the ring of `pts` alone.
fn ring_query(pts: &Vec<(i64, i64)>, x: i64, y: i64) -> (r: i64)
    requires
        ring_ok(pts@),
        in_coord(x as int),
        in_coord(y as int),
    ensures
        r as int == ring_sdf(pts@, x as int, y as int),
        -0x800_0000 <= r <= 0x800_0000,
{
    let (x0, y0) = pts[0];
    assert(in_coord(pts@[0].0 as int));
    let n0 = sq_norm(x - x0, y - y0);
    let mut d: i64 = isqrt_small(n0);
    let mut touch = n0 == 0;
    let mut odd = false;
    let mut i: usize = 0;
    while i < pts.len()
        invariant
            ring_ok(pts@),
            in_coord(x as int),
            in_coord(y as int),
            0 <= i <= pts@.len(),
            d as int == ring_dist(pts@, i as int, x as int, y as int),
            0 <= d <= 0x800_0000,
            odd == ring_odd(pts@, i as int, x as int, y as int),
            touch == ring_touch(pts@, i as int, x as int, y as int),
        decreases pts@.len() - i,
    {
        let (ed, flip, on_edge) = edge_query(pts, i, x, y);
        if on_edge {
            touch = true;
        }
        if ed < d {
            d = ed;
        }
        if flip {
            odd = !odd;
        }
        i = i + 1;
    }
    let m: i64 = if touch { 0 } else if d < 1 { 1 } else { d };
    if odd { -m } else { m }
}

impl Polyline {
    /// The polygon through `points`, with no holes; `None` when `points` is empty.
    pub fn new(points: Vec<(i64, i64)>) -> (r: Option<Polyline>)
        requires
            points@.len() <= MAX_VERTICES,
            forall|i: int|
                0 <= i < points@.len() ==> in_coord(#[trigger] points@[i].0 as int) && in_coord(
                    points@[i].1 as int,
                ),
        ensures
            r is None <==> points@.len() == 0,
            r matches Some(p) ==> poly_inv(p) && p.points_spec() == points@
                && p.holes_spec().len() == 0,
    {
        if points.len() == 0 {
            return None;
        }
        let n = points.len();
        let (px, py) = points[0];
        let mut bbox = Bbox::new(px, py);
        let mut sx: i128 = px as i128;
        let mut sy: i128 = py as i128;
        let mut i: usize = 1;
        assert(sum_x(points@, 0) == 0 && sum_y(points@, 0) == 0);
        assert(sum_x(points@, 1) == px && sum_y(points@, 1) == py);
        assert(in_coord(points@[0].0 as int));
        while i < n
            invariant
                n == points@.len(),
                ring_ok(points@),
                1 <= i <= n,
                bbox == bounds(points@, i as int),
                sx as int == sum_x(points@, i as int),
                sy as int == sum_y(points@, i as int),
                -(i as int) * COORD_LIMIT <= sx <= (i as int) * COORD_LIMIT,
                -(i as int) * COORD_LIMIT <= sy <= (i as int) * COORD_LIMIT,
            decreases n - i,
        {
            let (x, y) = points[i];
            assert(in_coord(points@[i as int].0 as int));
            bbox.expand(x, y);
            sx = sx + x as i128;
            sy = sy + y as i128;
            i = i + 1;
        }
        let cx = centroid_coord(sx, n);
        let cy = centroid_coord(sy, n);
        let holes: Vec<Polyline> = Vec::new();
        let p = Polyline { points, holes, cx, cy, bbox, vertex_total: n as u64 };
        proof {
            assert(holes_size(p.holes_spec()) == 0);
        }
        Some(p)
    }

    /// Adds `hole` when every one of its vertices lies strictly inside this
    /// polygon (holes already taken out) and the vertex count stays within
    /// `MAX_VERTICES`; otherwise leaves the polygon as it was.
    pub fn push_hole(&mut self, hole: Polyline) -> (accepted: bool)
        requires
            poly_inv(*old(self)),
            poly_inv(hole),
        ensures
            poly_inv(*final(self)),
            accepted == ((forall|i: int|
                0 <= i < hole.points_spec().len() ==> poly_sdf(
                    *old(self),
                    #[trigger] hole.points_spec()[i].0 as int,
                    hole.points_spec()[i].1 as int,
                ) < 0) && poly_size(*old(self)) + poly_size(hole) <= MAX_VERTICES),
            final(self).points_spec() == old(self).points_spec(),
            accepted ==> final(self).holes_spec() == old(self).holes_spec().push(hole),
            !accepted ==> *final(self) == *old(self),
            accepted ==> poly_area(*final(self)) == poly_area(*old(self)) - poly_area(hole),
    {
        let mut i: usize = 0;
        while i < hole.points.len()
            invariant
                poly_inv(*self),
                poly_inv(hole),
                0 <= i <= hole.points@.len(),
                forall|k: int|
                    0 <= k < i ==> poly_sdf(
                        *self,
                        #[trigger] hole.points@[k].0 as int,
                        hole.points@[k].1 as int,
                    ) < 0,
            decreases hole.points@.len() - i,
        {
            let (x, y) = hole.points[i];
            assert(in_coord(hole.points@[i as int].0 as int));
            if self.sdf_exec(x, y) >= 0 {
                return false;
            }
            i = i + 1;
        }
        if self.vertex_total > MAX_VERTICES - hole.vertex_total {
            return false;
        }
        let ghost before = *self;
        self.vertex_total = self.vertex_total + hole.vertex_total;
        self.holes.push(hole);
        proof {
            assert(self.holes@.drop_last() =~= before.holes@);
            assert(forall|k: int| 0 <= k < before.holes@.len() ==> self.holes@[k] == before.holes@[k]);
        }
        true
    }

    pub fn points(&self) -> (r: &[(i64, i64)])
        ensures
            r@ == self.points_spec(),
    {
        self.points.as_slice()
    }

    pub fn holes(&self) -> (r: &[Polyline])
        ensures
            r@ == self.holes_spec(),
    {
        self.holes.as_slice()
    }
}

/// `floor(s / n)` for a sum `s` of `n` coordinates.
fn centroid_coord(s: i128, n: usize) -> (r: i64)
    requires
        n >= 1,
        n <= MAX_VERTICES,
        -(n as int) * COORD_LIMIT <= s <= (n as int) * COORD_LIMIT,
    ensures
        r as int == (s as int) / (n as int),
        in_coord(r as int),
{
    let m: i128 = n as i128;
    let shifted: i128 = s + m * (COORD_LIMIT as i128);
    let q: i128 = shifted / m;
    proof {
        let (si, mi) = (s as int, m as int);
        assert((si + mi * COORD_LIMIT) / mi == si / mi + COORD_LIMIT) by {
            vstd::arithmetic::div_mod::lemma_fundamental_div_mod(si, mi);
            assert(mi * (si / mi + COORD_LIMIT) == mi * (si / mi) + mi * COORD_LIMIT)
                by (nonlinear_arith);
            vstd::arithmetic::div_mod::lemma_div_multiples_vanish_fancy(
                si / mi + COORD_LIMIT, si % mi, mi);
        }
        assert(-COORD_LIMIT <= si / mi <= COORD_LIMIT) by {
            vstd::arithmetic::div_mod::lemma_fundamental_div_mod(si, mi);
            assert(-COORD_LIMIT <= si / mi <= COORD_LIMIT) by (nonlinear_arith)
                requires
                    si == mi * (si / mi) + si % mi,
                    0 <= si % mi < mi,
                    -mi * COORD_LIMIT <= si <= mi * COORD_LIMIT,
                    mi >= 1;
        }
    }
    (q - COORD_LIMIT as i128) as i64
}

/// Per-vertex bound on twice the area: `2 * COORD_LIMIT^2`.
pub const TERM_LIMIT: i128 = 0x2_0000_0000_0000;

proof fn lemma_bounds_in_range(pts: Seq<(i64, i64)>, k: int)
    requires
        ring_ok(pts),
        1 <= k <= pts.len(),
    ensures
        bounds(pts, k).inv(),
    decreases k,
{
    assert(in_coord(pts[0].0 as int));
    if k > 1 {
        lemma_bounds_in_range(pts, k - 1);
        assert(in_coord(pts[k - 1].0 as int));
    }
}

impl Polyline {
    fn sdf_exec(&self, x: i64, y: i64) -> (r: i64)
        requires
            poly_inv(*self),
            in_coord(x as int),
            in_coord(y as int),
        ensures
            r as int == poly_sdf(*self, x as int, y as int),
            -0x800_0000 <= r <= 0x800_0000,
        decreases self,
    {
        let d0 = ring_query(&self.points, x, y);
        let mut d = d0;
        let mut k: usize = 0;
        while k < self.holes.len()
            invariant
                poly_inv(*self),
                in_coord(x as int),
                in_coord(y as int),
                0 <= k <= self.holes@.len(),
                d0 as int == ring_sdf(self.points@, x as int, y as int),
                d as int == carve(self.holes@.subrange(0, k as int), d0 as int, x as int, y as int),
                -0x800_0000 <= d <= 0x800_0000,
            decreases self.holes@.len() - k,
        {
            assert(poly_inv(self.holes_spec()[k as int]));
            let hd = self.holes[k].sdf_exec(x, y);
            if -hd > d {
                d = -hd;
            }
            proof {
                let t = self.holes@.subrange(0, k + 1);
                assert(t.drop_last() =~= self.holes@.subrange(0, k as int));
            }
            k = k + 1;
        }
        assert(self.holes@.subrange(0, k as int) =~= self.holes@);
        d
    }

    fn area_exec(&self) -> (r: i128)
        requires
            poly_inv(*self),
        ensures
            r as int == poly_area(*self),
            -poly_size(*self) * TERM_LIMIT <= r <= poly_size(*self) * TERM_LIMIT,
        decreases self,
    {
        let n = self.points.len();
        let mut acc: i128 = 0;
        let mut i: usize = 0;
        while i < n
            invariant
                poly_inv(*self),
                n == self.points@.len(),
                0 <= i <= n,
                acc as int == shoelace(self.points@, i as int),
                -(i as int) * TERM_LIMIT <= acc <= (i as int) * TERM_LIMIT,
            decreases n - i,
        {
            let j: usize = if i + 1 == n { 0 } else { i + 1 };
            proof {
                if i + 1 == n {
                    assert((i + 1) % (n as int) == 0) by {
                        vstd::arithmetic::div_mod::lemma_mod_self_0(n as int);
                    }
                } else {
                    lemma_small_mod((i + 1) as nat, n as nat);
                }
            }
            let (ax, ay) = self.points[i];
            let (bx, by) = self.points[j];
            assert(in_coord(self.points@[i as int].0 as int));
            assert(in_coord(self.points@[j as int].0 as int));
            let (ax, ay, bx, by) = (ax as i128, ay as i128, bx as i128, by as i128);
            assert(-0x1_0000_0000_0000 <= ax * by <= 0x1_0000_0000_0000) by (nonlinear_arith)
                requires -0x100_0000 <= ax <= 0x100_0000, -0x100_0000 <= by <= 0x100_0000;
            assert(-0x1_0000_0000_0000 <= bx * ay <= 0x1_0000_0000_0000) by (nonlinear_arith)
                requires -0x100_0000 <= bx <= 0x100_0000, -0x100_0000 <= ay <= 0x100_0000;
            acc = acc + (ax * by - bx * ay);
            i = i + 1;
        }
        let outer: i128 = if acc < 0 { -acc / 2 } else { acc / 2 };
        let mut total: i128 = outer;
        let mut k: usize = 0;
        proof {
            lemma_sizes_nonneg(*self);
            assert(holes_size(self.holes@.subrange(0, 0)) == 0);
            assert(holes_area(self.holes@.subrange(0, 0)) == 0);
        }
        while k < self.holes.len()
            invariant
                poly_inv(*self),
                n == self.points@.len(),
                0 <= k <= self.holes@.len(),
                -(n as int) * TERM_LIMIT <= outer <= (n as int) * TERM_LIMIT,
                outer as int == ring_area(self.points@),
                total as int == outer - holes_area(self.holes@.subrange(0, k as int)),
                -(n + holes_size(self.holes@.subrange(0, k as int))) * TERM_LIMIT <= total
                    <= (n + holes_size(self.holes@.subrange(0, k as int))) * TERM_LIMIT,
            decreases self.holes@.len() - k,
        {
            assert(poly_inv(self.holes_spec()[k as int]));
            let ha = self.holes[k].area_exec();
            proof {
                let t = self.holes@.subrange(0, k + 1);
                assert(t.drop_last() =~= self.holes@.subrange(0, k as int));
                lemma_holes_size_prefix(self.holes@, k + 1);
                assert(n + holes_size(t) <= MAX_VERTICES);
                assert((n + holes_size(t)) * TERM_LIMIT <= MAX_VERTICES * TERM_LIMIT)
                    by (nonlinear_arith)
                    requires n + holes_size(t) <= MAX_VERTICES, TERM_LIMIT > 0;
                assert((n + holes_size(t)) * TERM_LIMIT == (n + holes_size(
                    self.holes@.subrange(0, k as int),
                )) * TERM_LIMIT + poly_size(self.holes@[k as int]) * TERM_LIMIT) by (nonlinear_arith)
                    requires
                        holes_size(t) == holes_size(self.holes@.subrange(0, k as int)) + poly_size(
                            self.holes@[k as int],
                        );
            }
            total = total - ha;
            k = k + 1;
        }
        proof {
            assert(self.holes@.subrange(0, k as int) =~= self.holes@);
        }
        total
    }
}

impl Shape for Polyline {
    open spec fn inv(&self) -> bool {
        poly_inv(*self)
    }

    open spec fn sdf_spec(&self, x: int, y: int) -> int {
        poly_sdf(*self, x, y)
    }

    open spec fn area_spec(&self) -> int {
        poly_area(*self)
    }

    open spec fn center_spec(&self) -> (int, int) {
        self.centroid_cached()
    }

    open spec fn bbox_spec(&self) -> Bbox {
        self.bbox_cached()
    }

    /// Every lattice point of the bounding box lies in the polygon.
    open spec fn always_samples(&self) -> bool {
        forall|x: int, y: int|
            self.bbox_cached().x0 <= x <= self.bbox_cached().x1 && self.bbox_cached().y0 <= y
                <= self.bbox_cached().y1 ==> #[trigger] poly_sdf(*self, x, y) <= 0
    }

    fn bbox(&self) -> (r: Bbox) {
        self.bbox
    }

    fn center(&self) -> (r: (i64, i64)) {
        (self.cx, self.cy)
    }

    fn area(&self) -> (r: i128) {
        let r = self.area_exec();
        assert(poly_size(*self) * TERM_LIMIT <= MAX_VERTICES * TERM_LIMIT) by (nonlinear_arith)
            requires poly_size(*self) <= MAX_VERTICES, TERM_LIMIT > 0;
        proof {
            lemma_sizes_nonneg(*self);
        }
        r
    }

    fn sdf(&self, x: i64, y: i64) -> (r: i64) {
        self.sdf_exec(x, y)
    }

    /// Rejection sampling in the bounding box.
    fn random_point(&self, rng: &mut StdRng) -> (r: Option<(i64, i64)>) {
        let b = self.bbox;
        proof {
            lemma_bounds_in_range(self.points@, self.points@.len() as int);
        }
        let mut attempt: u32 = 0;
        while attempt < SAMPLE_ATTEMPTS
            invariant
                poly_inv(*self),
                b.inv(),
                b == self.bbox_cached(),
                self.always_samples() ==> attempt == 0,
            decreases SAMPLE_ATTEMPTS - attempt,
        {
            let p = uniform_point(rng, b.x0, b.y0, b.x1, b.y1);
            if self.sdf_exec(p.0, p.1) <= 0 {
                return Some(p);
            }
            attempt = attempt + 1;
        }
        None
    }
}

proof fn lemma_reverse_term(pts: Seq<(i64, i64)>, m: int)
    requires
        0 <= m < pts.len(),
    ensures
        m + 1 < pts.len() ==> cross_term(pts.reverse(), m) == -cross_term(
            pts,
            pts.len() - 2 - m,
        ),
        m + 1 == pts.len() ==> cross_term(pts.reverse(), m) == -cross_term(pts, pts.len() - 1),
{
    let n = pts.len() as int;
    if m + 1 < n {
        lemma_small_mod((m + 1) as nat, n as nat);
        lemma_small_mod((n - 1 - m) as nat, n as nat);
        assert((n - 2 - m + 1) % n == n - 1 - m);
    } else {
        vstd::arithmetic::div_mod::lemma_mod_self_0(n);
        lemma_small_mod(0, n as nat);
        assert((n - 1 + 1) % n == 0);
    }
}

proof fn lemma_reverse_partial(pts: Seq<(i64, i64)>, m: int)
    requires
        0 <= m < pts.len(),
    ensures
        shoelace(pts.reverse(), m) == -(shoelace(pts, pts.len() - 1) - shoelace(
            pts,
            pts.len() - 1 - m,
        )),
    decreases m,
{
    if m > 0 {
        lemma_reverse_partial(pts, m - 1);
        lemma_reverse_term(pts, m - 1);
    }
}

/// Reversing the order of a ring's vertices leaves its area unchanged: the
/// shoelace sum only changes sign.
pub proof fn lemma_ring_area_reversed(pts: Seq<(i64, i64)>)
    ensures
        shoelace(pts.reverse(), pts.len() as int) == -shoelace(pts, pts.len() as int),
        ring_area(pts.reverse()) == ring_area(pts),
{
    let n = pts.len() as int;
    if n > 0 {
        lemma_reverse_partial(pts, n - 1);
        lemma_reverse_term(pts, n - 1);
    }
}

/// Two polygons whose outer rings list the same vertices in opposite orders,
/// with the same holes, have the same area.
pub proof fn lemma_polygon_area_reversed(p: Polyline, q: Polyline)
    requires
        q.points_spec() == p.points_spec().reverse(),
        q.holes_spec() == p.holes_spec(),
    ensures
        poly_area(q) == poly_area(p),
{
    lemma_ring_area_reversed(p.points_spec());
}

} // verus!
