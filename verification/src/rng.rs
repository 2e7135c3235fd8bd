//! The random draws used to refill factories, behind trusted wrappers.
//!
//! The game draws tiles from the bag with probability proportional to each
//! color's remaining count. The draw itself is the only part of the library
//! that the verifier takes on trust; everything downstream of it is verified
//! for every index the draw could return.

use vstd::prelude::*;

verus! {

/// `rand::rngs::StdRng`, the seedable generator that drives the draws.
/// The type is opaque to the verifier; values of it are only threaded through.
#[verifier::external_type_specification]
#[verifier::external_body]
pub struct ExStdRng(rand::rngs::StdRng);

/// Relies on `rand::distributions::WeightedIndex`: `new` succeeds whenever
/// some weight is positive (the weights are non-negative and their sum fits
/// the weight type), and `sample` returns an index whose weight is positive,
/// because an index only wins the draw when its probability is above zero.
#[verifier::external_body]
pub(crate) fn draw_weighted(rng: &mut rand::rngs::StdRng, weights: &[u8; 5]) -> (r: usize)
    requires
        exists|i: int| 0 <= i < 5 && weights[i] > 0,
    ensures
        r < 5,
        weights[r as int] > 0,
{
    let wide: [u32; 5] = [
        weights[0] as u32,
        weights[1] as u32,
        weights[2] as u32,
        weights[3] as u32,
        weights[4] as u32,
    ];
    let dist = rand::distributions::WeightedIndex::new(wide).unwrap();
    rand::distributions::Distribution::sample(&dist, rng)
}

} // verus!
