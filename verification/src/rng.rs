//! Access to the random number generator used for key and parameter generation.

use vstd::prelude::*;
use rand::rngs::StdRng;
use rand::Rng;

verus! {

/// The standard seedable generator of `rand`; its state is opaque here.
#[verifier::external_type_specification]
#[verifier::external_body]
pub struct ExStdRng(StdRng);

/// Draws an integer uniformly from `0..bound` with `rand`'s `Rng::gen_range`.
/// Claimed: the result lies in the range (what `gen_range` documents); which
/// value comes out depends on the generator's state and is not stated.
/// `gen_range` panics on an empty range, hence `bound > 0`.
#[verifier::external_body]
pub fn random_below(rng: &mut StdRng, bound: u64) -> (r: u64)
    requires
        bound > 0,
    ensures
        r < bound,
{
    rng.gen_range(0..bound)
}

} // verus!
