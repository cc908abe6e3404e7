//! The source of randomness: the thread-local generator of the `rand` crate.
//!
//! Nothing here is proved. Each item states what the `rand` crate documents
//! of every outcome of a draw, and no more: which value is drawn is left open.

use rand::rngs::ThreadRng;
use rand::seq::SliceRandom;
use rand::Rng;
use vstd::prelude::*;

verus! {

/// `rand::rngs::ThreadRng`, a handle to the generator of the current thread.
/// Nothing is known of what it holds.
#[verifier::external_type_specification]
#[verifier::external_body]
pub struct ExThreadRng(ThreadRng);

/// `rand::thread_rng`: hands out the generator of the current thread. Nothing
/// is claimed of the handle. The call takes nothing, so nothing can be
/// demanded of its caller; it panics where the operating system has no
/// entropy to seed the generator with.
pub assume_specification[ rand::thread_rng ]() -> (rng: ThreadRng);

/// `Rng::gen_range` on the half-open range `low..high` of `usize`: the draw
/// lies in the range. The call panics on an empty range, which `requires`
/// leaves out.
#[verifier::external_body]
pub(crate) fn draw_between(rng: &mut ThreadRng, low: usize, high: usize) -> (drawn: usize)
    requires
        low < high,
    ensures
        low <= drawn < high,
{
    rng.gen_range(low..high)
}

/// `SliceRandom::shuffle` on the steps held in `steps`: the steps are
/// rearranged in place, so the same steps are there afterwards, each as many
/// times as before.
#[verifier::external_body]
pub(crate) fn shuffle_steps(rng: &mut ThreadRng, steps: &mut Vec<(i32, i32)>)
    ensures
        final(steps)@.to_multiset() == old(steps)@.to_multiset(),
{
    steps.shuffle(rng)
}

} // verus!
