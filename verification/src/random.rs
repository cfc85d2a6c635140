//! The one source of chance: an index drawn by the `rand` crate.

use rand::rngs::ThreadRng;
use rand::Rng;
use vstd::prelude::*;

verus! {

/// The thread-local generator of the `rand` crate: a handle whose state
/// is not visible here.
#[verifier::external_type_specification]
#[verifier::external_body]
pub struct ExThreadRng(ThreadRng);

/// `rand::thread_rng` hands out the generator of the current thread,
/// seeding it from the operating system on first use. It takes no
/// argument and fails only where the system cannot give a seed. Nothing
/// is claimed of the generator it returns.
pub assume_specification[ rand::thread_rng ]() -> (rng: ThreadRng);

/// Draws an index below `bound`.
///
/// Trusted: the body calls `Rng::gen_range` with the range `0..bound`.
/// `gen_range` panics on an empty range, so the bound must be positive;
/// for a half-open range of integers it returns a value inside it.
/// Nothing more is claimed, and two draws with the same bound may
/// differ. Like `thread_rng`, a draw fails where the system cannot give
/// the generator a fresh seed when one is due; no argument decides that.
#[verifier::external_body]
pub(crate) fn random_index(rng: &mut ThreadRng, bound: usize) -> (index: usize)
    requires
        bound > 0,
    ensures
        index < bound,
{
    rng.gen_range(0..bound)
}

} // verus!
