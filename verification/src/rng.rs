//! The source of randomness: a seedable generator of the `rand` crate.
//!
//! Nothing in this file is proved. What a random call returns cannot be
//! foretold, so each function states only what holds of every result.

use rand::rngs::StdRng;
use rand::seq::SliceRandom;
use rand::Rng;
use vstd::prelude::*;

verus! {

/// `rand::rngs::StdRng`, the generator that the policies draw from. The
/// verifier knows nothing of its state.
#[verifier::external_type_specification]
#[verifier::external_body]
pub struct ExStdRng(StdRng);

/// `Rng::gen_range(0..n)`: a number from zero up to, but not including, `n`.
/// The call panics on an empty range, which the precondition rules out.
#[verifier::external_body]
pub(crate) fn random_below(rng: &mut StdRng, n: usize) -> (i: usize)
    requires
        n > 0,
    ensures
        i < n,
{
    rng.gen_range(0..n)
}

/// `SliceRandom::shuffle` on the moves: the same moves, each as often as
/// before, in some order.
#[verifier::external_body]
pub(crate) fn shuffle_moves(rng: &mut StdRng, moves: &mut Vec<(usize, usize)>)
    ensures
        final(moves)@.to_multiset() == old(moves)@.to_multiset(),
{
    moves.shuffle(rng);
}

} // verus!
