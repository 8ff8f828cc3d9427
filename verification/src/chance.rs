//! Randomness from the operating system, for the few decisions that must not be predictable:
//! which node in a layer a route takes, in what order a release batch leaves, the nonce that
//! ties an answer to its question, and the filler that makes an empty answer look like a full one.
use vstd::prelude::*;

verus! {

broadcast use vstd::seq_lib::group_to_multiset_ensures;

#[verifier::external_type_specification]
#[verifier::external_body]
pub struct ExStdRng(rand::rngs::StdRng);

/// Fresh randomness seeded by the operating system.
///
/// Calls `rand::SeedableRng::from_entropy` for `rand::rngs::StdRng`. Nothing is claimed of the
/// generator it returns.
#[verifier::external_body]
pub(crate) fn entropy_rng() -> (g: rand::rngs::StdRng) {
    <rand::rngs::StdRng as rand::SeedableRng>::from_entropy()
}

/// Rearranges a batch in place with `rand::seq::SliceRandom::shuffle`, which swaps elements
/// (Fisher–Yates). Claimed: what comes out is a rearrangement of what went in. Which order
/// comes out depends on the generator and is not stated.
#[verifier::external_body]
pub(crate) fn shuffle_batch<T>(v: &mut Vec<T>, g: &mut rand::rngs::StdRng)
    ensures
        final(v)@.to_multiset() == old(v)@.to_multiset(),
{
    rand::seq::SliceRandom::shuffle(v.as_mut_slice(), g);
}

/// A uniform index below `n`, with `rand::Rng::gen_range(0..n)`. Claimed: it is below `n`.
/// Which index comes out depends on the generator and is not stated. `gen_range` panics on an
/// empty range, so `n` must be positive.
#[verifier::external_body]
pub(crate) fn pick_index(g: &mut rand::rngs::StdRng, n: usize) -> (i: usize)
    requires
        n > 0,
    ensures
        i < n,
{
    rand::Rng::gen_range(g, 0..n)
}

/// Eight bytes from the operating system, with `rand::RngCore::fill_bytes` on
/// `rand::rngs::OsRng`. Nothing is claimed of them.
#[verifier::external_body]
pub(crate) fn os_nonce() -> [u8; 8] {
    let mut n = [0u8; 8];
    rand::RngCore::fill_bytes(&mut rand::rngs::OsRng, &mut n);
    n
}

/// `n` bytes from `rand::thread_rng`, with `rand::Rng::fill`. Claimed: there are `n` of them.
#[verifier::external_body]
pub(crate) fn random_bytes(n: usize) -> (r: Vec<u8>)
    ensures
        r@.len() == n,
{
    let mut v = vec![0u8; n];
    rand::Rng::fill(&mut rand::thread_rng(), v.as_mut_slice());
    v
}

} // verus!
