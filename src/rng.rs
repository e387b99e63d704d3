//! The randomness that the library draws on, supplied by the caller.
use rand::rngs::ThreadRng;
use rand::seq::IteratorRandom;
use vstd::prelude::*;

verus! {

#[verifier::external_type_specification]
#[verifier::external_body]
pub struct ExThreadRng(ThreadRng);

/// Relies on rand's `IteratorRandom::choose` over the range `0..n`: it yields
/// `Some` of one element of a non-empty range.
#[verifier::external_body]
pub(crate) fn random_below(rng: &mut ThreadRng, n: usize) -> (r: usize)
    requires
        n > 0,
    ensures
        r < n,
{
    (0..n).choose(rng).unwrap()
}

} // verus!
