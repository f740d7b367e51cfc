//! Random draws.

use rand::Rng;
use vstd::prelude::*;

verus! {

/// Calls `rand::Rng::random` on `rand::rng()`. Nothing is known of the number drawn. The generator
/// of a thread takes its seed from the operating system when the thread first draws, and there is
/// no drawing where that fails.
#[verifier::external_body]
pub(crate) fn random_key() -> (key: u32) {
    rand::rng().random::<u32>()
}

/// Calls `rand::Rng::random_range` on `rand::rng()`, with the range from 0 up to `n`: the number
/// drawn lies in it. An empty range would panic. As above, the operating system must give a seed.
#[verifier::external_body]
pub(crate) fn random_index(n: usize) -> (index: usize)
    requires
        n > 0,
    ensures
        index < n,
{
    rand::rng().random_range(0..n)
}

/// Draws `n` numbers.
pub fn draw_keys(n: usize) -> (keys: Vec<u32>)
    ensures
        keys@.len() == n,
{
    let mut keys: Vec<u32> = Vec::new();
    while keys.len() < n
        invariant
            keys@.len() <= n,
        decreases n - keys@.len(),
    {
        keys.push(random_key());
    }
    keys
}

} // verus!
