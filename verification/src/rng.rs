//! The one point where randomness enters: a uniform draw below a bound.

use vstd::prelude::*;

verus! {

/// Relies on `rand::Rng::gen_range` over `0..bound` on the thread-local
/// generator: the draw is uniform over that range, so all that holds of
/// every outcome is that it is below the bound. The bound must be positive,
/// as `gen_range` rejects an empty range.
#[verifier::external_body]
pub(crate) fn random_below(bound: usize) -> (r: usize)
    requires
        bound >= 1,
    ensures
        r < bound,
{
    rand::Rng::gen_range(&mut rand::thread_rng(), 0..bound)
}

} // verus!
