//! The random source: the thread-local generator of the `rand` crate.
//!
//! Nothing here is proved. Each contract states only what holds of every
//! outcome of the call it stands for.

use vstd::prelude::*;
use rand::rngs::ThreadRng;
use rand::seq::SliceRandom;
use rand::Rng;

verus! {

#[verifier::external_type_specification]
#[verifier::external_body]
pub struct ExThreadRng(ThreadRng);

/// `rand::thread_rng`: a handle to the generator of the current thread.
/// Nothing is claimed of the handle. The call panics where the operating
/// system gives the generator no seed, which no precondition can leave out.
#[verifier::external_body]
pub(crate) fn thread_rng() -> ThreadRng {
    rand::thread_rng()
}

/// `SliceRandom::shuffle` on the slice of a vector. The shuffle only swaps
/// elements, so the vector holds afterwards what it held before, each value
/// as often as before; nothing is claimed of the order.
#[verifier::external_body]
pub(crate) fn shuffle(order: &mut Vec<usize>, rng: &mut ThreadRng)
    ensures
        final(order)@.to_multiset() == old(order)@.to_multiset(),
{
    order.shuffle(rng)
}

/// `Rng::gen_range` on the range from 0 up to but not including `n`. The
/// call panics on an empty range, which the precondition leaves out; the
/// result lies in the range.
#[verifier::external_body]
pub(crate) fn random_below(rng: &mut ThreadRng, n: usize) -> (r: usize)
    requires
        n > 0,
    ensures
        r < n,
{
    rng.gen_range(0..n)
}

} // verus!
