use vstd::prelude::*;

verus! {

/// The seeded pseudo-random generator that drives procedural generation,
/// declared so that its values can be carried through verified code. The
/// generator itself stays opaque: nothing is ever assumed about the
/// numbers it produces beyond the ranges stated below.
#[verifier::external_type_specification]
#[verifier::external_body]
pub struct ExStdRng(rand::rngs::StdRng);

/// Relies on rand's `SeedableRng::seed_from_u64` for `StdRng`: it builds
/// a generator from any seed and never fails.
#[verifier::external_body]
pub fn rng_from_seed(seed: u64) -> rand::rngs::StdRng {
    <rand::rngs::StdRng as rand::SeedableRng>::seed_from_u64(seed)
}

/// Relies on rand's `Rng::gen_range` over a half-open `u64` range: it
/// returns a value inside the range, and panics only on an empty range,
/// which the precondition rules out. Which value comes back is not
/// promised: callers hold for every outcome.
#[verifier::external_body]
pub fn rng_range(rng: &mut rand::rngs::StdRng, lo: u64, hi: u64) -> (r: u64)
    requires
        lo < hi,
    ensures
        lo <= r < hi,
{
    rand::Rng::gen_range(rng, lo..hi)
}

} // verus!
