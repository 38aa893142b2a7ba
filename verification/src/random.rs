use rand::rngs::StdRng;
use rand::Rng;
use vstd::prelude::*;

verus! {

/// The seeded random generator that drives world layout and order arrivals.
#[verifier::external_type_specification]
#[verifier::external_body]
pub struct ExStdRng(StdRng);

/// Draws an index from `lo..hi` with `rand::Rng::gen_range`.
///
/// rand documents that `gen_range(low..high)` samples from the half-open
/// range `[low, high)` and panics when the range is empty. Which value comes
/// back depends on the generator's hidden state, so nothing more is claimed.
#[verifier::external_body]
pub(crate) fn random_index(rng: &mut StdRng, lo: usize, hi: usize) -> (r: usize)
    requires
        lo < hi,
    ensures
        lo <= r < hi,
{
    rng.gen_range(lo..hi)
}

} // verus!
