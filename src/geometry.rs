//! Integer arithmetic shared by the shapes: coordinate bounds, exact squared
//! distances and the floor square root used for every distance.

use vstd::prelude::*;

verus! {

/// Largest absolute value of a coordinate (vertex, corner, centre or sample point).
pub const COORD_LIMIT: i64 = 0x100_0000;

/// Largest absolute value of a circle's radius.
pub const RADIUS_LIMIT: i64 = 0x1000_0000;

pub open spec fn in_coord(v: int) -> bool {
    -COORD_LIMIT <= v <= COORD_LIMIT
}

pub open spec fn in_radius(v: int) -> bool {
    -RADIUS_LIMIT <= v <= RADIUS_LIMIT
}

pub open spec fn sq(v: int) -> int {
    v * v
}

pub open spec fn dist2(ax: int, ay: int, bx: int, by: int) -> int {
    sq(ax - bx) + sq(ay - by)
}

pub proof fn lemma_dist2_nonneg(ax: int, ay: int, bx: int, by: int)
    ensures
        dist2(ax, ay, bx, by) >= 0,
{
    assert(sq(ax - bx) >= 0) by (nonlinear_arith);
    assert(sq(ay - by) >= 0) by (nonlinear_arith);
}

pub proof fn lemma_dist2_symmetric(ax: int, ay: int, bx: int, by: int)
    ensures
        dist2(ax, ay, bx, by) == dist2(bx, by, ax, ay),
{
    assert(sq(ax - bx) == sq(bx - ax)) by (nonlinear_arith);
    assert(sq(ay - by) == sq(by - ay)) by (nonlinear_arith);
}

pub open spec fn is_floor_sqrt(n: int, r: int) -> bool {
    0 <= r && r * r <= n < (r + 1) * (r + 1)
}

/// The largest integer whose square does not exceed `n` (for `n >= 0`).
pub open spec fn floor_sqrt(n: int) -> int {
    choose|r: int| is_floor_sqrt(n, r)
}

pub proof fn lemma_floor_sqrt_unique(n: int, a: int, b: int)
    requires
        is_floor_sqrt(n, a),
        is_floor_sqrt(n, b),
    ensures
        a == b,
{
    if a < b {
        assert((a + 1) * (a + 1) <= b * b) by (nonlinear_arith)
            requires 0 <= a, a + 1 <= b;
    } else if b < a {
        assert((b + 1) * (b + 1) <= a * a) by (nonlinear_arith)
            requires 0 <= b, b + 1 <= a;
    }
}

/// Every non-negative integer has a floor square root.
pub proof fn lemma_floor_sqrt_exists(n: int)
    requires
        n >= 0,
    ensures
        is_floor_sqrt(n, floor_sqrt(n)),
    decreases n,
{
    if n == 0 {
        assert(is_floor_sqrt(0, 0));
    } else {
        lemma_floor_sqrt_exists(n - 1);
        let r = floor_sqrt(n - 1);
        if (r + 1) * (r + 1) <= n {
            assert((r + 1) * (r + 1) == n);
            assert(n < (r + 2) * (r + 2)) by (nonlinear_arith)
                requires (r + 1) * (r + 1) == n, r >= 0;
            assert(is_floor_sqrt(n, r + 1));
        } else {
            assert(is_floor_sqrt(n, r));
        }
    }
}

/// Whenever some `r` is a floor square root of `n`, it is `floor_sqrt(n)`.
pub proof fn lemma_floor_sqrt_is(n: int, r: int)
    requires
        is_floor_sqrt(n, r),
    ensures
        floor_sqrt(n) == r,
{
    lemma_floor_sqrt_unique(n, r, floor_sqrt(n));
}

/// A sum no larger than the floor square root of `n` squares to at most `n`.
pub proof fn lemma_le_floor_sqrt_square(n: int, s: int)
    requires
        n >= 0,
        0 <= s <= floor_sqrt(n),
    ensures
        s * s <= n,
{
    lemma_floor_sqrt_exists(n);
    let r = floor_sqrt(n);
    assert(is_floor_sqrt(n, r));
    assert(s * s <= r * r) by (nonlinear_arith)
        requires 0 <= s <= r;
}

/// Floor square root by bisection.
pub fn isqrt(n: u128) -> (r: u64)
    ensures
        is_floor_sqrt(n as int, r as int),
        r as int == floor_sqrt(n as int),
{
    let mut lo: u128 = 0;
    let mut hi: u128 = 0x1_0000_0000_0000_0000;
    assert(n < hi * hi) by (nonlinear_arith)
        requires hi == 0x1_0000_0000_0000_0000u128, n <= u128::MAX;
    while hi - lo > 1
        invariant
            lo < hi <= 0x1_0000_0000_0000_0000,
            lo * lo <= n,
            n < hi * hi,
        decreases hi - lo,
    {
        let mid: u128 = lo + (hi - lo) / 2;
        assert(mid * mid <= u128::MAX) by (nonlinear_arith)
            requires mid < 0x1_0000_0000_0000_0000u128;
        if mid * mid <= n {
            lo = mid;
        } else {
            hi = mid;
        }
    }
    proof {
        lemma_floor_sqrt_is(n as int, lo as int);
    }
    lo as u64
}

/// Squared length of a vector whose components lie within four times the coordinate range.
pub fn sq_norm(dx: i64, dy: i64) -> (r: u128)
    requires
        -0x400_0000 <= dx <= 0x400_0000,
        -0x400_0000 <= dy <= 0x400_0000,
    ensures
        r as int == sq(dx as int) + sq(dy as int),
        r <= 0x20_0000_0000_0000,
{
    let dx = dx as i128;
    let dy = dy as i128;
    assert(0 <= dx * dx <= 0x10_0000_0000_0000) by (nonlinear_arith)
        requires -0x400_0000 <= dx <= 0x400_0000;
    assert(0 <= dy * dy <= 0x10_0000_0000_0000) by (nonlinear_arith)
        requires -0x400_0000 <= dy <= 0x400_0000;
    (dx * dx + dy * dy) as u128
}

/// Squared distance between two points whose coordinates lie in the coordinate range.
pub fn sq_dist(ax: i64, ay: i64, bx: i64, by: i64) -> (r: u128)
    requires
        in_coord(ax as int),
        in_coord(ay as int),
        in_coord(bx as int),
        in_coord(by as int),
    ensures
        r as int == dist2(ax as int, ay as int, bx as int, by as int),
        r <= 0x20_0000_0000_0000,
{
    sq_norm(ax - bx, ay - by)
}

/// The floor square root of a bounded value fits comfortably in an `i64`.
pub fn isqrt_small(n: u128) -> (r: i64)
    requires
        n <= 0x20_0000_0000_0000,
    ensures
        r as int == floor_sqrt(n as int),
        0 <= r <= 0x800_0000,
{
    let s = isqrt(n);
    proof {
        let v = s as int;
        assert(v <= 0x800_0000) by (nonlinear_arith)
            requires v * v <= n, n <= 0x20_0000_0000_0000, 0 <= v;
    }
    s as i64
}

/// The smallest integer whose square is at least `n` (for `n >= 0`).
pub open spec fn ceil_sqrt(n: int) -> int {
    if floor_sqrt(n) * floor_sqrt(n) == n { floor_sqrt(n) } else { floor_sqrt(n) + 1 }
}

pub proof fn lemma_ceil_sqrt(n: int)
    requires
        n >= 0,
    ensures
        0 <= ceil_sqrt(n),
        n <= ceil_sqrt(n) * ceil_sqrt(n),
{
    lemma_floor_sqrt_exists(n);
}

/// A circle of radius `r` centred `s` away from the centre of a circle of
/// radius `p`, with `s <= p - r - pad` rounded up, lies inside it with `pad`
/// to spare.
pub proof fn lemma_ceil_sqrt_inside(n: int, p: int, r: int, pad: int)
    requires
        n >= 0,
        r + pad + ceil_sqrt(n) <= p,
    ensures
        p - r - pad >= 0,
        n <= sq(p - r - pad),
{
    lemma_ceil_sqrt(n);
    let c = ceil_sqrt(n);
    assert(c * c <= (p - r - pad) * (p - r - pad)) by (nonlinear_arith)
        requires 0 <= c <= p - r - pad;
}

/// Ceiling square root of a bounded value.
pub fn isqrt_ceil_small(n: u128) -> (r: i64)
    requires
        n <= 0x20_0000_0000_0000,
    ensures
        r as int == ceil_sqrt(n as int),
        0 <= r <= 0x800_0001,
{
    let f = isqrt_small(n);
    assert(f * f <= 0x40_0000_0000_0000) by (nonlinear_arith)
        requires 0 <= f <= 0x800_0000;
    if (f as u128) * (f as u128) == n { f } else { f + 1 }
}

} // verus!
