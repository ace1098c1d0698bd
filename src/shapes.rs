//! The shape capability and the two simple shapes: axis-aligned rectangles
//! and circles.

use crate::geometry::{
    dist2, floor_sqrt, in_coord, in_radius, isqrt_small, sq, sq_dist, sq_norm, COORD_LIMIT, RADIUS_LIMIT,
};
use crate::sampling::uniform_point;
use rand::rngs::StdRng;
use vstd::prelude::*;

verus! {

/// Number of lattice points drawn before rejection sampling gives up.
pub const SAMPLE_ATTEMPTS: u32 = 10000;

/// What the packing engine needs of a container: geometric queries whose
/// results are given by spec functions.
pub trait Shape: Sized {
    /// The shape's own well-formedness: coordinates in range, cached data consistent.
    spec fn inv(&self) -> bool;

    /// Signed distance: negative inside, positive outside, zero on the boundary.
    spec fn sdf_spec(&self, x: int, y: int) -> int;

    spec fn area_spec(&self) -> int;

    spec fn center_spec(&self) -> (int, int);

    spec fn bbox_spec(&self) -> Bbox;

    fn bbox(&self) -> (r: Bbox)
        requires
            self.inv(),
        ensures
            r == self.bbox_spec(),
    ;

    fn center(&self) -> (r: (i64, i64))
        requires
            self.inv(),
        ensures
            (r.0 as int, r.1 as int) == self.center_spec(),
    ;

    fn area(&self) -> (r: i128)
        requires
            self.inv(),
        ensures
            r as int == self.area_spec(),
            -AREA_LIMIT <= r <= AREA_LIMIT,
    ;

    fn sdf(&self, x: i64, y: i64) -> (r: i64)
        requires
            self.inv(),
            in_coord(x as int),
            in_coord(y as int),
        ensures
            r as int == self.sdf_spec(x as int, y as int),
            -RADIUS_LIMIT <= r <= 2 * RADIUS_LIMIT,
    ;

    /// Shapes for which sampling cannot give up.
    spec fn always_samples(&self) -> bool;

    /// A lattice point of the shape's interior or boundary, inside its
    /// bounding box, or `None` when sampling gave up.
    fn random_point(&self, rng: &mut StdRng) -> (r: Option<(i64, i64)>)
        requires
            self.inv(),
        ensures
            r matches Some(p) ==> in_coord(p.0 as int) && in_coord(p.1 as int)
                && self.sdf_spec(p.0 as int, p.1 as int) <= 0
                && self.bbox_spec().x0 <= p.0 <= self.bbox_spec().x1
                && self.bbox_spec().y0 <= p.1 <= self.bbox_spec().y1,
            self.always_samples() ==> r is Some,
    ;
}

/// Largest absolute value of an area.
pub const AREA_LIMIT: i128 = 0x1_0000_0000_0000_0000_0000_0000_0000;

/// An axis-aligned rectangle with corners `(x0, y0)` and `(x1, y1)`.
#[derive(Clone, Copy, Debug, PartialEq, Eq)]
pub struct Bbox {
    pub x0: i64,
    pub y0: i64,
    pub x1: i64,
    pub y1: i64,
}

pub open spec fn min_i(a: int, b: int) -> int {
    if a <= b { a } else { b }
}

pub open spec fn max_i(a: int, b: int) -> int {
    if a >= b { a } else { b }
}

impl Bbox {
    /// Corners ordered and small enough for the width and height to be computed.
    pub open spec fn ordered(&self) -> bool {
        &&& self.x0 <= self.x1
        &&& self.y0 <= self.y1
        &&& in_radius(2 * self.x0) && in_radius(2 * self.x1)
        &&& in_radius(2 * self.y0) && in_radius(2 * self.y1)
    }

    /// The degenerate rectangle holding one point.
    pub fn new(x: i64, y: i64) -> (r: Bbox)
        ensures
            r == (Bbox { x0: x, y0: y, x1: x, y1: y }),
    {
        Bbox { x0: x, y0: y, x1: x, y1: y }
    }

    /// Grows the rectangle just enough to hold `(x, y)`.
    pub fn expand(&mut self, x: i64, y: i64)
        ensures
            final(self).x0 == min_i(old(self).x0 as int, x as int),
            final(self).y0 == min_i(old(self).y0 as int, y as int),
            final(self).x1 == max_i(old(self).x1 as int, x as int),
            final(self).y1 == max_i(old(self).y1 as int, y as int),
    {
        if x < self.x0 {
            self.x0 = x;
        }
        if x > self.x1 {
            self.x1 = x;
        }
        if y < self.y0 {
            self.y0 = y;
        }
        if y > self.y1 {
            self.y1 = y;
        }
    }

    pub fn x0(&self) -> (r: i64)
        ensures
            r == self.x0,
    {
        self.x0
    }

    pub fn y0(&self) -> (r: i64)
        ensures
            r == self.y0,
    {
        self.y0
    }

    pub fn width(&self) -> (r: i64)
        requires
            self.ordered(),
        ensures
            r == self.x1 - self.x0,
    {
        self.x1 - self.x0
    }

    pub fn height(&self) -> (r: i64)
        requires
            self.ordered(),
        ensures
            r == self.y1 - self.y0,
    {
        self.y1 - self.y0
    }

    /// How far `v` lies beyond the interval `[lo, hi]`; negative inside it.
    pub open spec fn axis_excess(v: int, lo: int, hi: int) -> int {
        max_i(lo - v, v - hi)
    }

    pub open spec fn box_sdf(&self, x: int, y: int) -> int {
        let dx = Self::axis_excess(x, self.x0 as int, self.x1 as int);
        let dy = Self::axis_excess(y, self.y0 as int, self.y1 as int);
        floor_sqrt(sq(max_i(dx, 0)) + sq(max_i(dy, 0))) + min_i(max_i(dx, dy), 0)
    }
}

impl Shape for Bbox {
    open spec fn inv(&self) -> bool {
        &&& self.x0 <= self.x1
        &&& self.y0 <= self.y1
        &&& in_coord(self.x0 as int) && in_coord(self.x1 as int)
        &&& in_coord(self.y0 as int) && in_coord(self.y1 as int)
    }

    open spec fn sdf_spec(&self, x: int, y: int) -> int {
        self.box_sdf(x, y)
    }

    open spec fn area_spec(&self) -> int {
        (self.x1 - self.x0) * (self.y1 - self.y0)
    }

    open spec fn center_spec(&self) -> (int, int) {
        (self.x0 + (self.x1 - self.x0) / 2, self.y0 + (self.y1 - self.y0) / 2)
    }

    open spec fn bbox_spec(&self) -> Bbox {
        *self
    }

    open spec fn always_samples(&self) -> bool {
        true
    }

    fn bbox(&self) -> (r: Bbox) {
        *self
    }

    fn center(&self) -> (r: (i64, i64)) {
        (self.x0 + (self.x1 - self.x0) / 2, self.y0 + (self.y1 - self.y0) / 2)
    }

    fn area(&self) -> (r: i128) {
        let w = (self.x1 - self.x0) as i128;
        let h = (self.y1 - self.y0) as i128;
        assert(0 <= w * h <= 0x4_0000_0000_0000) by (nonlinear_arith)
            requires 0 <= w <= 0x200_0000, 0 <= h <= 0x200_0000;
        w * h
    }

    fn sdf(&self, x: i64, y: i64) -> (r: i64) {
        let dx: i64 = if self.x0 - x >= x - self.x1 { self.x0 - x } else { x - self.x1 };
        let dy: i64 = if self.y0 - y >= y - self.y1 { self.y0 - y } else { y - self.y1 };
        let ox: i64 = if dx > 0 { dx } else { 0 };
        let oy: i64 = if dy > 0 { dy } else { 0 };
        let outside = isqrt_small(sq_norm(ox, oy));
        let inside: i64 = if dx >= dy { dx } else { dy };
        let inside: i64 = if inside < 0 { inside } else { 0 };
        outside + inside
    }

    fn random_point(&self, rng: &mut StdRng) -> (r: Option<(i64, i64)>) {
        let p = uniform_point(rng, self.x0, self.y0, self.x1, self.y1);
        proof {
            lemma_box_inside_sdf(*self, p.0 as int, p.1 as int);
        }
        Some(p)
    }
}

/// A point of the closed rectangle has a signed distance of at most zero.
pub proof fn lemma_box_inside_sdf(b: Bbox, x: int, y: int)
    requires
        b.x0 <= x <= b.x1,
        b.y0 <= y <= b.y1,
    ensures
        b.box_sdf(x, y) <= 0,
{
    let dx = Bbox::axis_excess(x, b.x0 as int, b.x1 as int);
    let dy = Bbox::axis_excess(y, b.y0 as int, b.y1 as int);
    assert(dx <= 0 && dy <= 0);
    assert(max_i(dx, 0) == 0 && max_i(dy, 0) == 0);
    assert(sq(0) == 0);
    crate::geometry::lemma_floor_sqrt_is(0, 0);
}

/// No point lies deeper inside a rectangle than its width or its height.
pub proof fn lemma_box_depth(b: Bbox, x: int, y: int)
    requires
        b.x0 <= b.x1,
        b.y0 <= b.y1,
    ensures
        -b.box_sdf(x, y) <= b.x1 - b.x0,
        -b.box_sdf(x, y) <= b.y1 - b.y0,
{
    let dx = Bbox::axis_excess(x, b.x0 as int, b.x1 as int);
    let dy = Bbox::axis_excess(y, b.y0 as int, b.y1 as int);
    let n = sq(max_i(dx, 0)) + sq(max_i(dy, 0));
    assert(sq(max_i(dx, 0)) >= 0) by (nonlinear_arith);
    assert(sq(max_i(dy, 0)) >= 0) by (nonlinear_arith);
    crate::geometry::lemma_floor_sqrt_exists(n);
}

/// With a minimum radius above a rectangle's width, no point of the
/// rectangle leaves room for a circle: every candidate is rejected.
pub proof fn lemma_box_too_small(b: Bbox, min_radius: int, padding: int)
    requires
        b.x0 <= b.x1,
        b.y0 <= b.y1,
        padding >= 0,
        min_radius > b.x1 - b.x0,
    ensures
        forall|x: int, y: int| -b.sdf_spec(x, y) - padding < min_radius,
{
    assert forall|x: int, y: int| -b.sdf_spec(x, y) - padding < min_radius by {
        lemma_box_depth(b, x, y);
    }
}

/// A circle with centre `(x, y)`. The radius may be negative while a
/// candidate is being shrunk.
#[derive(Clone, Copy, Debug, PartialEq, Eq)]
pub struct Circle {
    pub x: i64,
    pub y: i64,
    pub radius: i64,
}

/// Circle areas use 355/113 for pi.
pub open spec fn disc_area(r: int) -> int {
    (355 * (r * r)) / 113
}

impl Circle {
    pub fn new(x: i64, y: i64, radius: i64) -> (r: Circle)
        ensures
            r == (Circle { x, y, radius }),
    {
        Circle { x, y, radius }
    }
}

impl Shape for Circle {
    open spec fn inv(&self) -> bool {
        in_coord(self.x as int) && in_coord(self.y as int) && in_radius(self.radius as int)
    }

    open spec fn sdf_spec(&self, x: int, y: int) -> int {
        floor_sqrt(dist2(self.x as int, self.y as int, x, y)) - self.radius
    }

    open spec fn area_spec(&self) -> int {
        disc_area(self.radius as int)
    }

    open spec fn center_spec(&self) -> (int, int) {
        (self.x as int, self.y as int)
    }

    open spec fn bbox_spec(&self) -> Bbox {
        Bbox {
            x0: min_i(self.x - self.radius, self.x + self.radius) as i64,
            y0: min_i(self.y - self.radius, self.y + self.radius) as i64,
            x1: max_i(self.x - self.radius, self.x + self.radius) as i64,
            y1: max_i(self.y - self.radius, self.y + self.radius) as i64,
        }
    }

    /// A circle of radius zero is its centre; larger ones are sampled by rejection.
    open spec fn always_samples(&self) -> bool {
        self.radius == 0
    }

    fn bbox(&self) -> (r: Bbox) {
        let mut b = Bbox::new(self.x - self.radius, self.y - self.radius);
        b.expand(self.x + self.radius, self.y + self.radius);
        b
    }

    fn center(&self) -> (r: (i64, i64)) {
        (self.x, self.y)
    }

    fn area(&self) -> (r: i128) {
        let r = self.radius as i128;
        assert(0 <= r * r <= 0x100_0000_0000_0000) by (nonlinear_arith)
            requires -0x1000_0000 <= r <= 0x1000_0000;
        355 * (r * r) / 113
    }

    fn sdf(&self, x: i64, y: i64) -> (r: i64) {
        isqrt_small(sq_dist(self.x, self.y, x, y)) - self.radius
    }

    /// Rejection sampling of lattice points in the circle's bounding box, so
    /// the points are spread evenly over the disc. Lattice coordinates leave no
    /// way to draw an angle, so the angle-and-distance draw of a float model,
    /// which crowds points towards the centre, is not available here. A circle
    /// of negative radius holds no point; one of radius zero gives its centre.
    fn random_point(&self, rng: &mut StdRng) -> (r: Option<(i64, i64)>)
        ensures
            self.radius < 0 ==> r is None,
            self.radius == 0 ==> r == Some((self.x, self.y)),
    {
        if self.radius < 0 {
            return None;
        }
        let x0 = if self.x - self.radius < -COORD_LIMIT { -COORD_LIMIT } else { self.x - self.radius };
        let x1 = if self.x + self.radius > COORD_LIMIT { COORD_LIMIT } else { self.x + self.radius };
        let y0 = if self.y - self.radius < -COORD_LIMIT { -COORD_LIMIT } else { self.y - self.radius };
        let y1 = if self.y + self.radius > COORD_LIMIT { COORD_LIMIT } else { self.y + self.radius };
        let mut attempt: u32 = 0;
        while attempt < SAMPLE_ATTEMPTS
            invariant
                self.inv(),
                self.radius >= 0,
                -COORD_LIMIT <= x0 <= x1 <= COORD_LIMIT,
                -COORD_LIMIT <= y0 <= y1 <= COORD_LIMIT,
                x0 == max_i(self.x - self.radius, -COORD_LIMIT as int),
                x1 == min_i(self.x + self.radius, COORD_LIMIT as int),
                y0 == max_i(self.y - self.radius, -COORD_LIMIT as int),
                y1 == min_i(self.y + self.radius, COORD_LIMIT as int),
                self.radius == 0 ==> attempt == 0,
            decreases SAMPLE_ATTEMPTS - attempt,
        {
            let p = uniform_point(rng, x0, y0, x1, y1);
            proof {
                if self.radius == 0 {
                    assert(p.0 == self.x && p.1 == self.y);
                    assert(sq(0) == 0);
                    assert(dist2(self.x as int, self.y as int, p.0 as int, p.1 as int) == 0);
                    crate::geometry::lemma_floor_sqrt_is(0, 0);
                }
            }
            if self.sdf(p.0, p.1) <= 0 {
                return Some(p);
            }
            attempt = attempt + 1;
        }
        None
    }
}

} // verus!
