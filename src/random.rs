use rand::Rng;
use vstd::prelude::*;

verus! {

/// Relies on `rand::random::<bool>`: a fair coin flip from the thread-local
/// generator; nothing is promised about which side comes up.
#[verifier::external_body]
pub(crate) fn coin_flip() -> (r: bool) {
    rand::random::<bool>()
}

/// Relies on `rand::Rng::gen_range` on `thread_rng()`: for a non-empty range
/// `0..n` the value lies in the range (it panics on an empty one).
#[verifier::external_body]
pub(crate) fn random_below(n: usize) -> (r: usize)
    requires
        n > 0,
    ensures
        r < n,
{
    rand::thread_rng().gen_range(0..n)
}

} // verus!
