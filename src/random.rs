//! The random source: rand's seedable standard generator.

use vstd::prelude::*;
use rand::rngs::{OsRng, StdRng};
use rand::seq::SliceRandom;
use rand::Rng;
use rand::SeedableRng;

verus! {

#[verifier::external_type_specification]
#[verifier::external_body]
pub struct ExStdRng(StdRng);

/// Relies on rand's `SeedableRng::from_rng` over `OsRng`: a generator seeded
/// from the operating system's random source, or `None` when that source
/// reports an error (`OsRng::try_fill_bytes` returns it rather than panicking).
/// Nothing is promised of its stream.
#[verifier::external_body]
pub(crate) fn os_seeded_rng() -> Option<StdRng> {
    StdRng::from_rng(OsRng).ok()
}

/// Relies on rand's `SeedableRng::seed_from_u64`: a generator whose stream is
/// fixed by `seed`; it cannot fail. Nothing is promised of its stream.
#[verifier::external_body]
pub(crate) fn seeded_rng(seed: u64) -> StdRng {
    StdRng::seed_from_u64(seed)
}

/// Relies on rand's `Rng::gen_range` on `0..n`: a value in `[0, n)`; it panics
/// only on an empty range, which `n > 0` excludes.
#[verifier::external_body]
pub(crate) fn random_below(rng: &mut StdRng, n: usize) -> (r: usize)
    requires
        n > 0,
    ensures
        r < n,
{
    rng.gen_range(0..n)
}

/// Relies on rand's `SliceRandom::shuffle`: a Fisher-Yates pass of swaps, so the
/// result holds the same ids, each as often as before.
#[verifier::external_body]
pub(crate) fn shuffle_ids(rng: &mut StdRng, v: &mut Vec<usize>)
    ensures
        final(v)@.to_multiset() == old(v)@.to_multiset(),
        final(v)@.len() == old(v)@.len(),
{
    v.shuffle(rng)
}

} // verus!
