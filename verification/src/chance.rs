//! Random choices, made by the `rand` crate.

use rand::seq::IteratorRandom;
use vstd::prelude::*;

verus! {

/// `IteratorRandom::choose` on the numbers below `n`, with the thread's generator: one of them,
/// or nothing where there is none. Which one is left to chance. The generator panics if the
/// system gives it no seed.
#[verifier::external_body]
pub(crate) fn choose_index(n: usize) -> (r: Option<usize>)
    ensures
        match r {
            Some(i) => i < n,
            None => r is None && n == 0,
        },
{
    (0..n).choose(&mut rand::rng())
}

} // verus!
