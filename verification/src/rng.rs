//! Randomness, drawn from the `rand` crate.

use vstd::prelude::*;
use rand::Rng;

verus! {

/// Relies on `rand::Rng::gen_range` over `0..n` on the thread-local
/// generator: the result is drawn from that range, so it is always
/// below `n`. Nothing more is promised of which value comes back.
#[verifier::external_body]
pub fn random_below(n: usize) -> (r: usize)
    requires
        n > 0,
    ensures
        r < n,
{
    rand::thread_rng().gen_range(0..n)
}

} // verus!
