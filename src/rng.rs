use vstd::prelude::*;
use rand::seq::SliceRandom;
use rand::Rng;

verus! {

broadcast use vstd::seq_lib::group_to_multiset_ensures;

/// Relies on rand's `SliceRandom::choose` with the thread-local generator: `None` for an
/// empty slice, otherwise one of its elements.
#[verifier::external_body]
pub(crate) fn choose_one(v: &Vec<usize>) -> (r: Option<usize>)
    ensures
        r is None <==> v.len() == 0,
        r matches Some(e) ==> v@.contains(e),
{
    v.choose(&mut rand::thread_rng()).copied()
}

/// Relies on rand's `SliceRandom::shuffle` with the thread-local generator: the elements
/// are reordered, none added or lost.
#[verifier::external_body]
pub(crate) fn shuffle(v: &mut Vec<usize>)
    ensures
        final(v)@.to_multiset() == old(v)@.to_multiset(),
        final(v).len() == old(v).len(),
{
    v.shuffle(&mut rand::thread_rng())
}

/// Relies on rand's `Rng::gen_range` over the inclusive range `lo..=hi` with the
/// thread-local generator (it panics on an empty range, which `requires` rules out).
#[verifier::external_body]
pub(crate) fn random_in(lo: usize, hi: usize) -> (r: usize)
    requires
        lo <= hi,
    ensures
        lo <= r <= hi,
{
    rand::thread_rng().gen_range(lo..=hi)
}

} // verus!
