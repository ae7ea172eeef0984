use vstd::prelude::*;

use rand::seq::SliceRandom;
use rand::Rng;

verus! {

/// Relies on rand's SliceRandom::shuffle: a Fisher-Yates shuffle that
/// rearranges the slice in place purely by swapping elements, so the new
/// contents are a permutation of the old ones.
#[verifier::external_body]
pub(crate) fn shuffle_vec<T>(v: &mut Vec<T>)
    ensures
        final(v)@.to_multiset() == old(v)@.to_multiset(),
        final(v)@.len() == old(v)@.len(),
{
    v.as_mut_slice().shuffle(&mut rand::thread_rng());
}

/// Relies on rand's Rng::gen_range: a sample from the given range, which
/// panics only on an empty range; the precondition rules that out. Nothing
/// more is promised of a random value than its bounds.
#[verifier::external_body]
pub(crate) fn rand_index(lo: usize, hi: usize) -> (r: usize)
    requires
        lo <= hi,
    ensures
        lo <= r <= hi,
{
    rand::thread_rng().gen_range(lo..=hi)
}

} // verus!
