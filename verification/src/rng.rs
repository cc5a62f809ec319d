//! The engine's only source of randomness: rand's standard generator, behind
//! one trusted wrapper. Callers construct and seed the generator themselves,
//! so a fixed seed gives a reproducible run.

use vstd::prelude::*;
use rand::Rng;
use rand::rngs::StdRng;

verus! {

#[verifier::external_type_specification]
#[verifier::external_body]
pub struct ExStdRng(StdRng);

/// Relies on rand's `Rng::gen_range` over `0..n`: it returns a value below
/// `n`, and panics only on an empty range, which the precondition rules out.
/// Nothing more is assumed of the value: every caller must be correct for
/// every outcome below `n`.
#[verifier::external_body]
pub(crate) fn rng_below(rng: &mut StdRng, n: usize) -> (r: usize)
    requires
        n >= 1,
    ensures
        r < n,
{
    rng.gen_range(0..n)
}

} // verus!
