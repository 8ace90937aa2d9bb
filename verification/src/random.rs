//! Random draws, taken from the thread's generator of the `rand` crate.
//! Nothing in this file is proved.

use rand::seq::IteratorRandom;
use vstd::prelude::*;

verus! {

/// `rand::random` at `u128`: an identifier for a message. Nothing is known of the value.
#[verifier::external_body]
pub(crate) fn random_id() -> (id: u128) {
    rand::random()
}

/// `IteratorRandom::choose` on the range `0..n` with `rand::thread_rng`: one
/// of the indices below `n`, or `None` where there is none.
#[verifier::external_body]
pub(crate) fn random_index(n: usize) -> (k: Option<usize>)
    ensures
        n == 0 ==> k is None,
        n > 0 ==> k is Some && k.unwrap() < n,
{
    (0..n).choose(&mut rand::thread_rng())
}

} // verus!
