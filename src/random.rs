use vstd::prelude::*;
use rand::Rng;
use rand::rngs::StdRng;

verus! {

/// The seedable generator that every randomized step of the library draws from.
#[verifier::external_type_specification]
#[verifier::external_body]
pub struct ExStdRng(StdRng);

/// Relies on rand::Rng::gen_range: a value drawn from the half-open range
/// `[lo, hi)`, which panics on an empty range.
#[verifier::external_body]
pub(crate) fn random_range(rng: &mut StdRng, lo: u64, hi: u64) -> (r: u64)
    requires
        lo < hi,
    ensures
        lo <= r < hi,
{
    rng.gen_range(lo..hi)
}

} // verus!
