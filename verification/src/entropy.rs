//! The source of randomness.
//!
//! Random genes come from the `rand` crate. Nothing in this module is proved:
//! each item states what the crate's documentation and source promise, and
//! the rest of the library is verified against these statements.

use vstd::prelude::*;

verus! {

/// `rand::rngs::ThreadRng`: the handle to the generator that `rand` keeps for
/// the current thread. Its state is hidden from the verifier.
#[verifier::external_type_specification]
#[verifier::external_body]
pub struct ExThreadRng(rand::rngs::ThreadRng);

/// `rand::thread_rng`: hands out the current thread's generator, seeded by the
/// operating system on first use. Nothing is claimed of the handle. The call
/// aborts if the operating system cannot provide a seed.
pub assume_specification[ rand::thread_rng ]() -> (rng: rand::rngs::ThreadRng)
;

/// `rand::Rng::gen_range` for `i8`: draws a value from the half-open range
/// that starts at `low` and ends before `high`. The crate panics on an empty
/// range, which the precondition excludes. Which value of the range comes
/// back is not stated: it differs from call to call.
#[verifier::external_body]
pub(crate) fn gen_range(rng: &mut rand::rngs::ThreadRng, low: i8, high: i8) -> (value: i8)
    requires
        low < high,
    ensures
        low <= value < high,
{
    rand::Rng::gen_range(rng, low, high)
}

} // verus!
