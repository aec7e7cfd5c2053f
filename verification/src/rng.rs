//! Trusted access to the process random number generator, used to sample
//! terrain costs at engine construction.
use rand::Rng;
use vstd::prelude::*;

verus! {

#[verifier::external_type_specification]
#[verifier::external_body]
pub struct ExThreadRng(rand::rngs::ThreadRng);

/// Relies on rand::thread_rng: a handle to the thread-local generator.
#[verifier::external_body]
pub(crate) fn new_rng() -> rand::rngs::ThreadRng {
    rand::thread_rng()
}

/// Relies on rand::Rng::gen_range with bounds 0 and 100: a uniform sample
/// in [0, 100); the bounds are constants, so the call cannot panic.
#[verifier::external_body]
pub(crate) fn sample_cost(rng: &mut rand::rngs::ThreadRng) -> (r: i64)
    ensures
        0 <= r < 100,
{
    rng.gen_range(0, 100)
}

} // verus!
