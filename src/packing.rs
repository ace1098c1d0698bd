//! The packing tree and the engine that grows it: greedy placement of
//! candidate circles, optional nesting, and the stall-bounded driver round.

use crate::geometry::{
    ceil_sqrt, dist2, floor_sqrt, in_coord, isqrt_ceil_small, lemma_le_floor_sqrt_square, sq, sq_dist,
    RADIUS_LIMIT,
};
use crate::shapes::{disc_area, Bbox, Circle, Shape};
use rand::rngs::StdRng;
use vstd::prelude::*;

verus! {

broadcast use vstd::std_specs::vec::group_vec_axioms, vstd::seq::group_seq_axioms;

/// Options of a packing run.
#[derive(Clone, Copy, Debug)]
pub struct Settings {
    /// Circles with a smaller radius are rejected.
    pub min_radius: i64,
    /// Clearance kept between circles and between a circle and its container.
    pub padding: i64,
    /// Whether new circles may be nested inside existing ones.
    pub inside: bool,
    /// Number of colours that the colour tag cycles through.
    pub palette_len: usize,
    /// Coverage at which the run stops, in thousandths of the root's area.
    pub target_permille: u32,
    /// Consecutive failed placements after which the run stops.
    pub max_stall_iterations: usize,
}

impl Settings {
    pub open spec fn valid(&self) -> bool {
        &&& 0 <= self.min_radius <= crate::geometry::COORD_LIMIT
        &&& 0 <= self.padding <= crate::geometry::COORD_LIMIT
        &&& self.palette_len >= 1
        &&& 1 <= self.target_permille <= 1000
    }
}

/// A container shape with the circles packed directly inside it, each of
/// which is itself a container for deeper circles.
#[derive(Debug)]
pub struct PackShape<S> {
    container: S,
    children: Vec<PackShape<Circle>>,
    occupied_area: i128,
    pub color: usize,
}

/// The circles of a sequence of nodes.
pub open spec fn circles_of(s: Seq<PackShape<Circle>>) -> Seq<Circle> {
    s.map_values(|n: PackShape<Circle>| n.container_spec())
}

/// Sum of the areas of a sequence of circles.
pub open spec fn sum_areas(c: Seq<Circle>) -> int
    decreases c.len(),
{
    if c.len() == 0 {
        0
    } else {
        sum_areas(c.drop_last()) + disc_area(c.last().radius as int)
    }
}

/// Any two distinct circles keep `padding` between their boundaries.
pub open spec fn separated(c: Seq<Circle>, padding: int) -> bool {
    forall|i: int, j: int|
        0 <= i < c.len() && 0 <= j < c.len() && i != j ==> dist2(
            c[i].x as int,
            c[i].y as int,
            c[j].x as int,
            c[j].y as int,
        ) >= sq(c[i].radius + c[j].radius + padding)
}

/// A circle that may stand in a packing tree under `cfg`.
pub open spec fn accepted_circle(c: Circle, cfg: Settings) -> bool {
    c.inv() && cfg.min_radius <= c.radius
}

impl<S> PackShape<S> {
    pub closed spec fn container_spec(&self) -> S {
        self.container
    }

    pub closed spec fn children_spec(&self) -> Seq<PackShape<Circle>> {
        self.children@
    }

    pub closed spec fn color_spec(&self) -> usize {
        self.color
    }

    pub closed spec fn occupied_spec(&self) -> int {
        self.occupied_area as int
    }
}

/// The children of a node satisfy the packing invariants under `cfg`: every
/// circle accepted, siblings separated, the occupied area the exact sum of the
/// children's areas, and the same again at every depth.
pub open spec fn forest_ok(s: Seq<PackShape<Circle>>, occupied: int, cfg: Settings) -> bool
    decreases s,
{
    &&& occupied == sum_areas(circles_of(s))
    &&& separated(circles_of(s), cfg.padding as int)
    &&& forall|i: int|
        #![trigger s[i]]
        0 <= i < s.len() ==> {
            &&& accepted_circle(s[i].container_spec(), cfg)
            &&& forest_ok(s[i].children_spec(), s[i].occupied_spec(), cfg)
            &&& forall|j: int|
                0 <= j < s[i].children_spec().len() ==> contained(
                    s[i].container_spec(),
                    #[trigger] s[i].children_spec()[j].container_spec(),
                    cfg.padding as int,
                )
        }
}

/// Circle `c` lies inside circle `p` with `pad` to spare.
pub open spec fn contained(p: Circle, c: Circle, pad: int) -> bool {
    &&& p.radius - c.radius - pad >= 0
    &&& dist2(p.x as int, p.y as int, c.x as int, c.y as int) <= sq(p.radius - c.radius - pad)
}

/// Number of circles in a forest, at every depth.
pub open spec fn forest_count(s: Seq<PackShape<Circle>>) -> int
    decreases s,
{
    if s.len() == 0 {
        0
    } else {
        forest_count(s.drop_last()) + 1 + forest_count(s.last().children_spec())
    }
}

/// Two forests hold the same circles, colours and occupied areas, at every depth.
pub open spec fn same_forest(a: Seq<PackShape<Circle>>, b: Seq<PackShape<Circle>>) -> bool
    decreases a,
{
    &&& a.len() == b.len()
    &&& forall|i: int|
        #![trigger a[i]]
        0 <= i < a.len() ==> {
            &&& a[i].container_spec() == b[i].container_spec()
            &&& a[i].color_spec() == b[i].color_spec()
            &&& a[i].occupied_spec() == b[i].occupied_spec()
            &&& same_forest(a[i].children_spec(), b[i].children_spec())
        }
}

pub proof fn lemma_same_forest_refl(s: Seq<PackShape<Circle>>)
    ensures
        same_forest(s, s),
    decreases s,
{
    assert forall|i: int| 0 <= i < s.len() implies same_forest(
        (#[trigger] s[i]).children_spec(),
        s[i].children_spec(),
    ) by {
        lemma_same_forest_refl(s[i].children_spec());
    }
}

proof fn lemma_count_update(s: Seq<PackShape<Circle>>, i: int, n: PackShape<Circle>)
    requires
        0 <= i < s.len(),
    ensures
        forest_count(s.update(i, n)) == forest_count(s) - forest_count(s[i].children_spec())
            + forest_count(n.children_spec()),
    decreases s.len(),
{
    let t = s.update(i, n);
    if i == s.len() - 1 {
        assert(t.drop_last() =~= s.drop_last());
    } else {
        assert(t.drop_last() =~= s.drop_last().update(i, n));
        lemma_count_update(s.drop_last(), i, n);
    }
}

/// Where the scan of a node's children sends a candidate: into the child at
/// an index, with a new radius, or to this node, with the radius shrunk so far.
pub enum Scan {
    Nest(int, int),
    Keep(int),
}

/// How deep `(x, y)` lies inside `c`, with the distance to the centre
/// rounded up so that a circle nested there never reaches past `c`.
pub open spec fn nest_depth(c: Circle, x: int, y: int) -> int {
    c.radius - ceil_sqrt(dist2(c.x as int, c.y as int, x, y))
}

/// The outcome of scanning the first `k` children of a node, in insertion
/// order, for a candidate centred at `(x, y)` with radius `r`.
pub open spec fn scan(c: Seq<Circle>, x: int, y: int, r: int, cfg: Settings, k: int) -> Scan
    decreases k,
{
    if k <= 0 {
        Scan::Keep(r)
    } else {
        match scan(c, x, y, r, cfg, k - 1) {
            Scan::Nest(i, nr) => Scan::Nest(i, nr),
            Scan::Keep(cur) => {
                let d = c[k - 1].sdf_spec(x, y);
                let depth = nest_depth(c[k - 1], x, y);
                if cfg.inside && depth > cfg.padding {
                    Scan::Nest(k - 1, depth - cfg.padding)
                } else if d - cfg.padding < cur {
                    Scan::Keep(d - cfg.padding)
                } else {
                    Scan::Keep(cur)
                }
            },
        }
    }
}

proof fn lemma_scan_nest_stays(c: Seq<Circle>, x: int, y: int, r: int, cfg: Settings, k: int, m: int)
    requires
        k <= m,
        scan(c, x, y, r, cfg, k) is Nest,
    ensures
        scan(c, x, y, r, cfg, m) == scan(c, x, y, r, cfg, k),
    decreases m - k,
{
    if k < m {
        lemma_scan_nest_stays(c, x, y, r, cfg, k, m - 1);
    }
}

proof fn lemma_sum_areas_bounds(c: Seq<Circle>)
    requires
        forall|i: int| 0 <= i < c.len() ==> #[trigger] c[i].inv(),
    ensures
        0 <= sum_areas(c) <= c.len() * MAX_DISC,
    decreases c.len(),
{
    if c.len() > 0 {
        assert(c[c.len() - 1].inv());
        lemma_sum_areas_bounds(c.drop_last());
        lemma_disc_area_bound(c.last().radius as int);
    }
}

/// A bound on the area of any circle whose radius lies within `RADIUS_LIMIT`.
pub const MAX_DISC: i128 = 0x400_0000_0000_0000;

proof fn lemma_disc_area_bound(r: int)
    requires
        -RADIUS_LIMIT <= r <= RADIUS_LIMIT,
    ensures
        0 <= disc_area(r) <= MAX_DISC,
{
    assert(0 <= r * r <= 0x100_0000_0000_0000) by (nonlinear_arith)
        requires -0x1000_0000 <= r <= 0x1000_0000;
}

/// What placing candidate `c` with colour tag `color` among the children
/// `oc` of a node with occupied area `oo` does, giving children `fc` and
/// occupied area `fo`. Kept at this node, it is appended when its shrunk
/// radius is at least the minimum, else nothing changes. Nested into child
/// `i`, that child receives the candidate with the nested radius and the next
/// colour, in the same way, and every other child stays as it was.
pub open spec fn placed_outcome(
    oc: Seq<PackShape<Circle>>,
    oo: int,
    fc: Seq<PackShape<Circle>>,
    fo: int,
    c: Circle,
    color: usize,
    cfg: Settings,
    placed: bool,
) -> bool
    decreases oc,
{
    &&& placed ==> forest_count(fc) == forest_count(oc) + 1
    &&& !placed ==> same_forest(fc, oc)
    &&& match scan(circles_of(oc), c.x as int, c.y as int, c.radius as int, cfg, oc.len() as int) {
        Scan::Keep(r) => {
            &&& placed == (r >= cfg.min_radius)
            &&& placed ==> fc.len() == oc.len() + 1
            &&& placed ==> fc.drop_last() == oc
            &&& placed ==> is_fresh(fc.last(), Circle { x: c.x, y: c.y, radius: r as i64 }, color)
            &&& placed ==> fo == oo + disc_area(r)
            &&& !placed ==> fc == oc
            &&& !placed ==> fo == oo
        },
        Scan::Nest(i, r) => {
            &&& 0 <= i < oc.len()
            &&& fc.len() == oc.len()
            &&& fo == oo
            &&& forall|j: int| 0 <= j < oc.len() && j != i ==> fc[j] == oc[j]
            &&& fc[i].container_spec() == oc[i].container_spec()
            &&& fc[i].color_spec() == oc[i].color_spec()
            &&& placed_outcome(
                oc[i].children_spec(),
                oc[i].occupied_spec(),
                fc[i].children_spec(),
                fc[i].occupied_spec(),
                Circle { x: c.x, y: c.y, radius: r as i64 },
                ((color + 1) % (cfg.palette_len as int)) as usize,
                cfg,
                placed,
            )
        },
    }
}

proof fn lemma_scan_keep_le(c: Seq<Circle>, x: int, y: int, r: int, cfg: Settings, k: int)
    requires
        scan(c, x, y, r, cfg, k) is Keep,
    ensures
        scan(c, x, y, r, cfg, k)->Keep_0 <= r,
    decreases k,
{
    if k > 0 {
        if scan(c, x, y, r, cfg, k - 1) is Nest {
            lemma_scan_nest_stays(c, x, y, r, cfg, k - 1, k);
        } else {
            lemma_scan_keep_le(c, x, y, r, cfg, k - 1);
        }
    }
}

/// What `PackShape::pack` does to node `o`, giving `f`: the container and
/// colour tag stay, and the children change as `placed_outcome` says.
pub open spec fn pack_result<S>(
    o: PackShape<S>,
    f: PackShape<S>,
    c: Circle,
    color: usize,
    cfg: Settings,
    placed: bool,
) -> bool {
    &&& f.container_spec() == o.container_spec()
    &&& f.color_spec() == o.color_spec()
    &&& f.children_spec().len() >= o.children_spec().len()
    &&& placed_outcome(
        o.children_spec(),
        o.occupied_spec(),
        f.children_spec(),
        f.occupied_spec(),
        c,
        color,
        cfg,
        placed,
    )
}

/// Tries to place a candidate circle among `children`, the children of a
/// node whose occupied area is `occupied`, nesting it into a child where the
/// scan says so.
fn place(
    children: &mut Vec<PackShape<Circle>>,
    occupied: &mut i128,
    cand: Circle,
    color: usize,
    cfg: &Settings,
) -> (placed: bool)
    requires
        cfg.valid(),
        forest_ok(old(children)@, *old(occupied) as int, *cfg),
        in_coord(cand.x as int),
        in_coord(cand.y as int),
        -3 * RADIUS_LIMIT <= cand.radius <= RADIUS_LIMIT,
        color < cfg.palette_len,
    ensures
        forest_ok(final(children)@, *final(occupied) as int, *cfg),
        final(children)@.len() >= old(children)@.len(),
        placed_outcome(
            old(children)@,
            *old(occupied) as int,
            final(children)@,
            *final(occupied) as int,
            cand,
            color,
            *cfg,
            placed,
        ),
    decreases old(children)@,
{
    let ghost c0 = circles_of(children@);
    let mut r: i64 = cand.radius;
    let mut k: usize = 0;
    while k < children.len()
        invariant
            cfg.valid(),
            forest_ok(children@, *occupied as int, *cfg),
            children@ == old(children)@,
            *occupied == *old(occupied),
            c0 == circles_of(children@),
            in_coord(cand.x as int),
            in_coord(cand.y as int),
            0 <= k <= children@.len(),
            -3 * RADIUS_LIMIT <= r <= cand.radius,
            color < cfg.palette_len,
            scan(c0, cand.x as int, cand.y as int, cand.radius as int, *cfg, k as int)
                == Scan::Keep(r as int),
            forall|j: int|
                0 <= j < k ==> r + c0[j].radius + cfg.padding <= floor_sqrt(
                    #[trigger] dist2(c0[j].x as int, c0[j].y as int, cand.x as int, cand.y as int),
                ),
        decreases children@.len() - k,
    {
        assert(c0[k as int] == children@[k as int].container_spec());
        assert(accepted_circle(children@[k as int].container_spec(), *cfg));
        let d = children[k].container.sdf(cand.x, cand.y);
        let cc = children[k].container;
        let depth = cc.radius - isqrt_ceil_small(sq_dist(cc.x, cc.y, cand.x, cand.y));
        if cfg.inside && depth > cfg.padding {
            let nr = depth - cfg.padding;
            let ncolor = (color + 1) % cfg.palette_len;
            proof {
                lemma_scan_nest_stays(c0, cand.x as int, cand.y as int, cand.radius as int, *cfg,
                    k as int + 1, children@.len() as int);
                crate::geometry::lemma_dist2_nonneg(cc.x as int, cc.y as int, cand.x as int, cand.y as int);
                crate::geometry::lemma_ceil_sqrt(dist2(cc.x as int, cc.y as int, cand.x as int, cand.y as int));
            }
            let ghost before = children@;
            let ghost old_gc = children@[k as int].children_spec();
            let child = &mut children[k];
            assert(forest_ok(child.children@, child.occupied_area as int, *cfg));
            let ncand = Circle { x: cand.x, y: cand.y, radius: nr };
            let placed = place(
                &mut child.children,
                &mut child.occupied_area,
                ncand,
                ncolor,
                cfg,
            );
            proof {
                assert(children@ == before.update(k as int, children@[k as int]));
                lemma_count_update(before, k as int, children@[k as int]);
                if !placed {
                    lemma_same_forest_refl(before);
                    assert(same_forest(children@, before));
                }
                assert(circles_of(children@) =~= c0);
                let fgc = children@[k as int].children_spec();
                let n = dist2(cc.x as int, cc.y as int, cand.x as int, cand.y as int);
                let sc = scan(circles_of(old_gc), cand.x as int, cand.y as int, nr as int, *cfg,
                    old_gc.len() as int);
                assert forall|j: int| 0 <= j < fgc.len() implies contained(
                    cc,
                    #[trigger] fgc[j].container_spec(),
                    cfg.padding as int,
                ) by {
                    if sc is Keep {
                        lemma_scan_keep_le(circles_of(old_gc), cand.x as int, cand.y as int,
                            nr as int, *cfg, old_gc.len() as int);
                        if !placed {
                            assert(fgc[j] == old_gc[j]);
                        } else if j < old_gc.len() {
                            assert(fgc.drop_last()[j] == fgc[j]);
                            assert(fgc[j] == old_gc[j]);
                        } else {
                            let rr = sc->Keep_0;
                            crate::geometry::lemma_ceil_sqrt_inside(n, cc.radius as int, rr,
                                cfg.padding as int);
                            crate::geometry::lemma_dist2_symmetric(cc.x as int, cc.y as int,
                                cand.x as int, cand.y as int);
                        }
                    } else {
                        if j != sc->Nest_0 {
                            assert(fgc[j] == old_gc[j]);
                        }
                    }
                }
                assert forall|i: int| 0 <= i < children@.len() implies {
                    &&& accepted_circle(#[trigger] children@[i].container_spec(), *cfg)
                    &&& forest_ok(children@[i].children_spec(), children@[i].occupied_spec(), *cfg)
                    &&& forall|j: int|
                        0 <= j < children@[i].children_spec().len() ==> contained(
                            children@[i].container_spec(),
                            #[trigger] children@[i].children_spec()[j].container_spec(),
                            cfg.padding as int,
                        )
                } by {
                    if i != k {
                        assert(children@[i] == before[i]);
                    }
                }
            }
            return placed;
        }
        if d - cfg.padding < r {
            r = d - cfg.padding;
        }
        k = k + 1;
    }
    if r >= cfg.min_radius {
        let ghost s0 = children@;
        let node = PackShape {
            container: Circle { x: cand.x, y: cand.y, radius: r },
            children: Vec::new(),
            occupied_area: 0,
            color,
        };
        proof {
            lemma_sum_areas_bounds(c0);
            lemma_disc_area_bound(r as int);
            assert(children@.len() * MAX_DISC <= 0x10_0000_0000_0000_0000 * MAX_DISC)
                by (nonlinear_arith)
                requires children@.len() <= 0x10_0000_0000_0000_0000int, MAX_DISC >= 0;
        }
        *occupied = *occupied + node.container.area();
        children.push(node);
        proof {
            let c1 = circles_of(children@);
            assert(c1 =~= c0.push(node.container));
            assert(c1.drop_last() =~= c0);
            assert(children@.drop_last() =~= s0);
            assert(forest_count(children@[children@.len() - 1].children_spec()) == 0);
            assert forall|i: int, j: int|
                0 <= i < c1.len() && 0 <= j < c1.len() && i != j implies dist2(
                    c1[i].x as int,
                    c1[i].y as int,
                    c1[j].x as int,
                    c1[j].y as int,
                ) >= sq(c1[i].radius + c1[j].radius + cfg.padding) by {
                if j == c0.len() {
                    let n = dist2(c0[i].x as int, c0[i].y as int, cand.x as int, cand.y as int);
                    crate::geometry::lemma_dist2_nonneg(c0[i].x as int, c0[i].y as int, cand.x as int, cand.y as int);
                    crate::geometry::lemma_floor_sqrt_exists(n);
                    lemma_le_floor_sqrt_square(n, c0[i].radius + r + cfg.padding);
                } else if i == c0.len() {
                    let n = dist2(c0[j].x as int, c0[j].y as int, cand.x as int, cand.y as int);
                    crate::geometry::lemma_dist2_nonneg(c0[j].x as int, c0[j].y as int, cand.x as int, cand.y as int);
                    crate::geometry::lemma_floor_sqrt_exists(n);
                    lemma_le_floor_sqrt_square(n, c0[j].radius + r + cfg.padding);
                    crate::geometry::lemma_dist2_symmetric(c0[j].x as int, c0[j].y as int, cand.x as int, cand.y as int);
                }
            }
            assert forall|i: int| 0 <= i < children@.len() implies {
                &&& accepted_circle(#[trigger] children@[i].container_spec(), *cfg)
                &&& forest_ok(children@[i].children_spec(), children@[i].occupied_spec(), *cfg)
            } by {
                if i < s0.len() {
                    assert(children@[i] == s0[i]);
                } else {
                    assert(circles_of(children@[i].children_spec()) =~= Seq::<Circle>::empty());
                }
            }
        }
        return true;
    }
    proof {
        lemma_same_forest_refl(children@);
    }
    false
}

/// `n` holds circle `c` with colour tag `color` and has no children yet.
pub open spec fn is_fresh(n: PackShape<Circle>, c: Circle, color: usize) -> bool {
    &&& n.container_spec() == c
    &&& n.color_spec() == color
    &&& n.children_spec().len() == 0
    &&& n.occupied_spec() == 0
}

impl<S: Shape> PackShape<S> {
    /// The packing invariants of the whole tree under `cfg`.
    pub open spec fn ok(&self, cfg: Settings) -> bool {
        &&& self.container_spec().inv()
        &&& forest_ok(self.children_spec(), self.occupied_spec(), cfg)
    }

    /// An empty node around `shape`, with colour tag zero.
    pub fn new(shape: S) -> (r: Self)
        ensures
            r.container_spec() == shape,
            r.children_spec().len() == 0,
            r.occupied_spec() == 0,
            r.color_spec() == 0,
    {
        PackShape { container: shape, children: Vec::new(), occupied_area: 0, color: 0 }
    }

    pub fn container(&self) -> (r: &S)
        ensures
            *r == self.container_spec(),
    {
        &self.container
    }

    pub fn children(&self) -> (r: &[PackShape<Circle>])
        ensures
            r@ == self.children_spec(),
    {
        self.children.as_slice()
    }

    /// Sum of the areas of the circles placed directly in this node.
    pub fn occupied_area(&self) -> (r: i128)
        ensures
            r as int == self.occupied_spec(),
    {
        self.occupied_area
    }

    /// Tries to place the fresh circle `shape` in this node, following the
    /// greedy protocol that `scan` describes: it nests into the first child
    /// whose centre lies deeper than the padding inside it (when nesting is
    /// allowed), with radius that depth less the padding and the next colour,
    /// or else keeps clear of every child and is accepted here when its radius
    /// is still at least the minimum. `placed_outcome` states the result at
    /// every depth; a rejection leaves the tree as it was.
    pub fn pack(&mut self, shape: PackShape<Circle>, cfg: &Settings) -> (placed: bool)
        requires
            cfg.valid(),
            old(self).ok(*cfg),
            in_coord(shape.container_spec().x as int),
            in_coord(shape.container_spec().y as int),
            -3 * RADIUS_LIMIT <= shape.container_spec().radius <= RADIUS_LIMIT,
            shape.children_spec().len() == 0,
            shape.color_spec() < cfg.palette_len,
        ensures
            final(self).ok(*cfg),
            pack_result(*old(self), *final(self), shape.container_spec(), shape.color_spec(), *cfg, placed),
    {
        place(&mut self.children, &mut self.occupied_area, shape.container, shape.color, cfg)
    }
}

impl PackShape<Circle> {
    /// A fresh node around the circle with centre `(x, y)` and radius `r`.
    pub fn circle(x: i64, y: i64, r: i64) -> (n: Self)
        ensures
            is_fresh(n, Circle { x, y, radius: r }, 0),
    {
        PackShape::new(Circle::new(x, y, r))
    }

    pub fn set_radius(&mut self, r: i64)
        ensures
            final(self).container_spec() == (Circle { radius: r, ..old(self).container_spec() }),
            final(self).children_spec() == old(self).children_spec(),
            final(self).occupied_spec() == old(self).occupied_spec(),
            final(self).color_spec() == old(self).color_spec(),
    {
        self.container.radius = r;
    }

    pub fn get_radius(&self) -> (r: i64)
        ensures
            r == self.container_spec().radius,
    {
        self.container.radius
    }
}

impl<S: Shape> Shape for PackShape<S> {
    open spec fn inv(&self) -> bool {
        self.container_spec().inv()
    }

    open spec fn sdf_spec(&self, x: int, y: int) -> int {
        self.container_spec().sdf_spec(x, y)
    }

    open spec fn area_spec(&self) -> int {
        self.container_spec().area_spec()
    }

    open spec fn center_spec(&self) -> (int, int) {
        self.container_spec().center_spec()
    }

    open spec fn bbox_spec(&self) -> Bbox {
        self.container_spec().bbox_spec()
    }

    open spec fn always_samples(&self) -> bool {
        self.container_spec().always_samples()
    }

    fn bbox(&self) -> (r: Bbox) {
        self.container.bbox()
    }

    fn center(&self) -> (r: (i64, i64)) {
        self.container.center()
    }

    fn area(&self) -> (r: i128) {
        self.container.area()
    }

    fn sdf(&self, x: i64, y: i64) -> (r: i64) {
        self.container.sdf(x, y)
    }

    fn random_point(&self, rng: &mut StdRng) -> (r: Option<(i64, i64)>) {
        self.container.random_point(rng)
    }
}

/// Where a packing run stands: `Stalling(n)` after `n` consecutive failed
/// placements.
#[derive(Clone, Copy, Debug, PartialEq, Eq)]
pub enum PackState {
    Running,
    Stalling(usize),
    Done,
}

/// The run has covered the target fraction of the root's area.
pub open spec fn reached(occupied: int, area: int, cfg: Settings) -> bool {
    occupied * 1000 >= cfg.target_permille * area
}

/// The state after a round that drew and tried one candidate.
pub open spec fn after_attempt(state: PackState, placed: bool, cfg: Settings) -> PackState {
    if placed {
        PackState::Running
    } else {
        let n: int = match state {
            PackState::Stalling(n) => n as int,
            _ => 0,
        };
        if n + 1 >= cfg.max_stall_iterations {
            PackState::Done
        } else {
            PackState::Stalling((n + 1) as usize)
        }
    }
}

/// Whether a node's occupied area has reached the target share of its area.
pub fn target_reached(occupied: i128, area: i128, cfg: &Settings) -> (r: bool)
    requires
        cfg.valid(),
        0 <= occupied,
        -crate::shapes::AREA_LIMIT <= area <= crate::shapes::AREA_LIMIT,
    ensures
        r == reached(occupied as int, area as int, *cfg),
{
    let p = cfg.target_permille as i128;
    assert(-0x400 * crate::shapes::AREA_LIMIT <= p * area <= 0x400 * crate::shapes::AREA_LIMIT)
        by (nonlinear_arith)
        requires
            1 <= p <= 1000,
            -crate::shapes::AREA_LIMIT <= area <= crate::shapes::AREA_LIMIT,
            crate::shapes::AREA_LIMIT > 0;
    let q: i128 = p * area;
    if q <= 0 {
        return true;
    }
    let t: i128 = (q + 999) / 1000;
    proof {
        let o = occupied as int;
        let qi = q as int;
        let ti = t as int;
        assert(ti * 1000 >= qi && (ti - 1) * 1000 < qi) by (nonlinear_arith)
            requires ti == (qi + 999) / 1000, qi > 0;
        assert(o >= ti <==> o * 1000 >= qi) by (nonlinear_arith)
            requires ti * 1000 >= qi, (ti - 1) * 1000 < qi;
    }
    occupied >= t
}

/// The state after a failed or successful placement.
pub fn next_state(state: PackState, placed: bool, cfg: &Settings) -> (r: PackState)
    requires
        !(state is Done),
    ensures
        r == after_attempt(state, placed, *cfg),
{
    if placed {
        return PackState::Running;
    }
    let n: usize = match state {
        PackState::Stalling(n) => n,
        _ => 0,
    };
    if n >= cfg.max_stall_iterations || cfg.max_stall_iterations - n <= 1 {
        PackState::Done
    } else {
        PackState::Stalling(n + 1)
    }
}

/// The outcome of offering the root the candidate centred at `(x, y)` whose
/// radius is the point's padded distance to the root's boundary.
pub open spec fn attempt_result<S: Shape>(
    o: PackShape<S>,
    f: PackShape<S>,
    cfg: Settings,
    state: PackState,
    next: PackState,
    x: int,
    y: int,
) -> bool {
    exists|placed: bool|
        {
            &&& next == after_attempt(state, placed, cfg)
            &&& pack_result(
                o,
                f,
                Circle { x: x as i64, y: y as i64, radius: (-o.sdf_spec(x, y) - cfg.padding) as i64 },
                0,
                cfg,
                placed,
            )
        }
}

/// The attempt of a packing round at the drawn point `(x, y)`: a fresh
/// circle centred there, with radius `-sdf(x, y) - padding`, is offered to
/// the root, and the stall counter moves by whether it was placed.
pub fn pack_at<S: Shape>(root: &mut PackShape<S>, cfg: &Settings, state: PackState, x: i64, y: i64) -> (next:
    PackState)
    requires
        cfg.valid(),
        old(root).ok(*cfg),
        !(state is Done),
        in_coord(x as int),
        in_coord(y as int),
        old(root).sdf_spec(x as int, y as int) <= 0,
    ensures
        final(root).ok(*cfg),
        final(root).occupied_spec() >= old(root).occupied_spec(),
        attempt_result(*old(root), *final(root), *cfg, state, next, x as int, y as int),
{
    let d = root.container.sdf(x, y);
    let cand = PackShape::circle(x, y, -d - cfg.padding);
    let placed = root.pack(cand, cfg);
    proof {
        let sc = scan(circles_of(old(root).children_spec()), x as int, y as int,
            (-d - cfg.padding) as int, *cfg, old(root).children_spec().len() as int);
        if placed && sc is Keep {
            lemma_scan_keep_le(circles_of(old(root).children_spec()), x as int, y as int,
                (-d - cfg.padding) as int, *cfg, old(root).children_spec().len() as int);
            lemma_disc_area_bound(sc->Keep_0);
        }
    }
    let next = next_state(state, placed, cfg);
    assert(next == after_attempt(state, placed, *cfg));
    next
}

/// One round of a packing run. A finished run, or one whose root has
/// reached the target coverage, is `Done` with nothing drawn. Otherwise a
/// point of the root is drawn and handed to `pack_at`; when sampling gives
/// up the round counts as a failed placement. Falling short of the target is
/// not an error.
pub fn pack_round<S: Shape>(
    root: &mut PackShape<S>,
    cfg: &Settings,
    state: PackState,
    rng: &mut StdRng,
) -> (next: PackState)
    requires
        cfg.valid(),
        old(root).ok(*cfg),
    ensures
        final(root).ok(*cfg),
        final(root).occupied_spec() >= old(root).occupied_spec(),
        state is Done ==> next is Done && *final(root) == *old(root) && *final(rng) == *old(rng),
        !(state is Done) && reached(
            old(root).occupied_spec(),
            old(root).container_spec().area_spec(),
            *cfg,
        ) ==> next is Done && *final(root) == *old(root) && *final(rng) == *old(rng),
        !(state is Done) && !reached(
            old(root).occupied_spec(),
            old(root).container_spec().area_spec(),
            *cfg,
        ) ==> {
            ||| (exists|x: int, y: int|
                {
                    &&& in_coord(x) && in_coord(y)
                    &&& old(root).sdf_spec(x, y) <= 0
                    &&& attempt_result(*old(root), *final(root), *cfg, state, next, x, y)
                })
            ||| (!old(root).always_samples() && next == after_attempt(state, false, *cfg)
                && *final(root) == *old(root))
        },
{
    if let PackState::Done = state {
        return PackState::Done;
    }
    let area = root.container.area();
    proof {
        lemma_sum_areas_bounds(circles_of(root.children@));
    }
    if target_reached(root.occupied_area, area, cfg) {
        return PackState::Done;
    }
    match root.container.random_point(rng) {
        Some(p) => pack_at(root, cfg, state, p.0, p.1),
        None => next_state(state, false, cfg),
    }
}

/// Circles placed under the same parent never overlap: their centres are at
/// least the sum of their radii and the padding apart (squared, exactly).
pub proof fn lemma_siblings_separated(s: Seq<PackShape<Circle>>, occupied: int, cfg: Settings, i: int, j: int)
    requires
        forest_ok(s, occupied, cfg),
        0 <= i < s.len(),
        0 <= j < s.len(),
        i != j,
    ensures
        dist2(
            s[i].container_spec().x as int,
            s[i].container_spec().y as int,
            s[j].container_spec().x as int,
            s[j].container_spec().y as int,
        ) >= sq(s[i].container_spec().radius + s[j].container_spec().radius + cfg.padding),
{
    let c = circles_of(s);
    assert(c[i] == s[i].container_spec() && c[j] == s[j].container_spec());
}

/// Every placed circle has at least the minimum radius, at every depth, and
/// the children of every placed circle obey the invariants again.
pub proof fn lemma_children_accepted(s: Seq<PackShape<Circle>>, occupied: int, cfg: Settings, i: int)
    requires
        forest_ok(s, occupied, cfg),
        0 <= i < s.len(),
    ensures
        s[i].container_spec().radius >= cfg.min_radius,
        forest_ok(s[i].children_spec(), s[i].occupied_spec(), cfg),
{
}

/// A node's occupied area is exactly the sum of its children's areas.
pub proof fn lemma_occupied_is_sum<S: Shape>(n: PackShape<S>, cfg: Settings)
    requires
        n.ok(cfg),
    ensures
        n.occupied_spec() == sum_areas(circles_of(n.children_spec())),
        forall|i: int|
            0 <= i < n.children_spec().len() ==> #[trigger] circles_of(n.children_spec())[i]
                == n.children_spec()[i].container_spec(),
{
}

/// A root with no circles, offered a candidate whose padded distance to the
/// boundary is below the minimum radius, stays empty and counts a stall.
pub proof fn lemma_stall_when_too_small<S: Shape>(
    o: PackShape<S>,
    f: PackShape<S>,
    cfg: Settings,
    state: PackState,
    next: PackState,
    x: int,
    y: int,
)
    requires
        attempt_result(o, f, cfg, state, next, x, y),
        o.children_spec().len() == 0,
        -RADIUS_LIMIT <= -o.sdf_spec(x, y) - cfg.padding < cfg.min_radius,
    ensures
        next == after_attempt(state, false, cfg),
        f.children_spec().len() == 0,
        f.occupied_spec() == o.occupied_spec(),
{
    let placed = choose|placed: bool|
        {
            &&& next == after_attempt(state, placed, cfg)
            &&& pack_result(
                o,
                f,
                Circle { x: x as i64, y: y as i64, radius: (-o.sdf_spec(x, y) - cfg.padding) as i64 },
                0,
                cfg,
                placed,
            )
        };
    assert(!placed);
}

/// A circle that a round places directly in the root keeps the padding from
/// the root's boundary: its radius is at most the padded distance of its
/// centre to the boundary.
pub proof fn lemma_root_clearance<S: Shape>(
    o: PackShape<S>,
    f: PackShape<S>,
    cfg: Settings,
    state: PackState,
    next: PackState,
    x: int,
    y: int,
)
    requires
        attempt_result(o, f, cfg, state, next, x, y),
        f.children_spec().len() == o.children_spec().len() + 1,
        in_coord(x),
        in_coord(y),
        -3 * RADIUS_LIMIT <= -o.sdf_spec(x, y) - cfg.padding <= RADIUS_LIMIT,
    ensures
        f.children_spec().last().container_spec().x == x,
        f.children_spec().last().container_spec().y == y,
        f.children_spec().last().container_spec().radius <= -o.sdf_spec(x, y) - cfg.padding,
{
    let r0 = -o.sdf_spec(x, y) - cfg.padding;
    let placed = choose|placed: bool|
        {
            &&& next == after_attempt(state, placed, cfg)
            &&& pack_result(
                o,
                f,
                Circle { x: x as i64, y: y as i64, radius: r0 as i64 },
                0,
                cfg,
                placed,
            )
        };
    let c = circles_of(o.children_spec());
    let n = o.children_spec().len() as int;
    if scan(c, x, y, r0, cfg, n) is Keep {
        lemma_scan_keep_le(c, x, y, r0, cfg, n);
    }
}

} // verus!
