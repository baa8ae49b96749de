//! The one source of chance in a game: the place of the question that is
//! drawn.

use vstd::prelude::*;
use rand::Rng;

verus! {

/// Calls `rand::thread_rng().gen_range(0..bound)`: a number drawn by the
/// generator of the current thread. All that is claimed of it is that it
/// lies below `bound`; nothing is claimed of how the numbers are spread.
/// `gen_range` panics on an empty range, so `bound` is positive. The
/// generator is seeded by the operating system when the thread first uses
/// it, and panics if the system gives it no seed.
#[verifier::external_body]
pub(crate) fn random_below(bound: usize) -> (index: usize)
    requires
        bound > 0,
    ensures
        index < bound,
{
    rand::thread_rng().gen_range(0..bound)
}

} // verus!
