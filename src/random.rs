use vstd::prelude::*;

verus! {

#[verifier::external_type_specification]
#[verifier::external_body]
pub struct ExStdRng(rand::rngs::StdRng);

/// Relies on `rand::SeedableRng::seed_from_u64` for `StdRng`: a generator
/// whose stream is fixed by the seed.
#[verifier::external_body]
pub(crate) fn seeded_rng(seed: u64) -> rand::rngs::StdRng {
    <rand::rngs::StdRng as rand::SeedableRng>::seed_from_u64(seed)
}

/// Relies on `rand::SeedableRng::from_rng` for `StdRng` over `rand::rngs::OsRng`:
/// a generator seeded from the operating system, or `None` where the
/// operating system supplies no entropy.
#[verifier::external_body]
pub(crate) fn entropy_rng() -> Option<rand::rngs::StdRng> {
    <rand::rngs::StdRng as rand::SeedableRng>::from_rng(rand::rngs::OsRng).ok()
}

/// Relies on `rand::Rng::gen_range` over `0..bound`: a value below `bound`;
/// it panics on an empty range, which `requires` leaves out.
#[verifier::external_body]
pub(crate) fn gen_below(rng: &mut rand::rngs::StdRng, bound: u8) -> (r: u8)
    requires
        bound > 0,
    ensures
        r < bound,
{
    rand::Rng::gen_range(rng, 0..bound)
}

} // verus!
