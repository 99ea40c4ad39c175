//! The random choices of the generator, drawn from a `rand` generator that the
//! caller passes in.
//!
//! Nothing here is verified: each function states what the `rand` crate
//! documents of the call it makes, and the verified code relies on no more.

use rand::rngs::StdRng;
use rand::seq::SliceRandom;
use rand::Rng;
use vstd::prelude::*;

verus! {

/// `rand::rngs::StdRng`, the seedable generator that the search draws from.
/// Its state is not modelled.
#[verifier::external_type_specification]
#[verifier::external_body]
pub struct ExStdRng(rand::rngs::StdRng);

/// Draws an index below `bound` with `Rng::gen_range(0..bound)`.
///
/// `gen_range` panics on an empty range, hence `bound > 0`; it returns a value
/// of the half-open range it is given. Which value is not stated.
#[verifier::external_body]
pub(crate) fn random_below(rng: &mut StdRng, bound: usize) -> (r: usize)
    requires
        bound > 0,
    ensures
        r < bound,
{
    rng.gen_range(0..bound)
}

/// Draws a truth value with `Rng::gen::<bool>()`. Nothing is stated of the value.
#[verifier::external_body]
pub(crate) fn random_bool(rng: &mut StdRng) -> (b: bool) {
    rng.gen::<bool>()
}

/// Reorders `tiles` in place with `SliceRandom::shuffle`.
///
/// `shuffle` only swaps elements of the slice, so the result holds the same
/// elements, each as often as before. The order is not stated.
#[verifier::external_body]
pub(crate) fn shuffle_tiles(tiles: &mut Vec<usize>, rng: &mut StdRng)
    ensures
        final(tiles)@.to_multiset() == old(tiles)@.to_multiset(),
{
    tiles.shuffle(rng)
}

} // verus!
