//! Chance, from `fastrand`: which free device a student gets, and in which
//! order waiting students are served.

use vstd::prelude::*;

verus! {

/// `fastrand::usize(..n)`: some index below `n`, chosen at random.
#[verifier::external_body]
pub(crate) fn random_index(n: usize) -> (r: usize)
    requires
        n > 0,
    ensures
        r < n,
{
    fastrand::usize(..n)
}

/// `fastrand::shuffle`: the same ids in a random order.
#[verifier::external_body]
pub(crate) fn shuffle_ids(v: &mut Vec<String>)
    ensures
        final(v)@.to_multiset() == old(v)@.to_multiset(),
{
    fastrand::shuffle(v)
}

} // verus!
