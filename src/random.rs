use vstd::prelude::*;
use rand::Rng;
use rand::seq::SliceRandom;

verus! {

/// Relies on `rand::Rng::gen_range` on `rand::thread_rng()`: a value of the inclusive range
/// `lo..=hi` (it panics only on an empty range, which `requires` rules out).
#[verifier::external_body]
pub(crate) fn random_in(lo: usize, hi: usize) -> (r: usize)
    requires
        lo <= hi,
    ensures
        lo <= r <= hi,
{
    rand::thread_rng().gen_range(lo..=hi)
}

/// Relies on `rand::seq::SliceRandom::shuffle` on `rand::thread_rng()`: it only swaps
/// elements, so the same elements come out in some order.
#[verifier::external_body]
pub(crate) fn shuffle_flats(v: &mut Vec<usize>)
    ensures
        final(v)@.to_multiset() == old(v)@.to_multiset(),
{
    v.shuffle(&mut rand::thread_rng());
}

} // verus!
