//! The random source: rand's standard generator, drawn from through one
//! trusted call.

use rand::rngs::StdRng;
use rand::Rng;
use vstd::prelude::*;

verus! {

#[verifier::external_type_specification]
#[verifier::external_body]
pub struct ExStdRng(StdRng);

/// Relies on rand's `Rng::gen_range` on `i64`: a value drawn uniformly from
/// `lo..hi`; it panics when `lo >= hi`, which `requires` leaves out.
#[verifier::external_body]
pub(crate) fn uniform(rng: &mut StdRng, lo: i64, hi: i64) -> (r: i64)
    requires
        lo < hi,
    ensures
        lo <= r < hi,
{
    rng.gen_range(lo, hi)
}

/// A lattice point drawn uniformly from the closed rectangle with the given corners.
pub fn uniform_point(rng: &mut StdRng, x0: i64, y0: i64, x1: i64, y1: i64) -> (r: (i64, i64))
    requires
        x0 <= x1 < i64::MAX,
        y0 <= y1 < i64::MAX,
    ensures
        x0 <= r.0 <= x1,
        y0 <= r.1 <= y1,
{
    let x = uniform(rng, x0, x1 + 1);
    let y = uniform(rng, y0, y1 + 1);
    (x, y)
}

} // verus!
