use vstd::prelude::*;
use rand::Rng;
use rand_xoshiro::Xoroshiro128Plus;

verus! {

#[verifier::external_type_specification]
#[verifier::external_body]
pub struct ExXoroshiro128Plus(Xoroshiro128Plus);

/// Relies on rand's `Rng::gen_range` over a half-open `i64` range: it returns a
/// value in `[lo, hi)` (uniformly), and panics only on an empty range.
#[verifier::external_body]
pub(crate) fn draw_between(rng: &mut Xoroshiro128Plus, lo: i64, hi: i64) -> (r: i64)
    requires
        lo < hi,
    ensures
        lo <= r < hi,
{
    rng.gen_range(lo..hi)
}

} // verus!
