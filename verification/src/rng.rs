use vstd::prelude::*;

verus! {

/// The pseudo-random generator the library draws from: `rand`'s seedable
/// standard generator, declared opaquely so it can cross contract
/// boundaries.
#[verifier::external_type_specification]
#[verifier::external_body]
pub struct ExStdRng(rand::rngs::StdRng);

/// Relies on rand::SeedableRng::seed_from_u64: builds a generator whose
/// whole draw sequence is determined by `seed`.
#[verifier::external_body]
pub fn rng_from_seed(seed: u64) -> rand::rngs::StdRng {
    rand::SeedableRng::seed_from_u64(seed)
}

/// Relies on rand::Rng::gen_range over `0..n`: a uniform draw below `n`,
/// which panics on an empty range. Nothing beyond the bound holds of any
/// single outcome.
#[verifier::external_body]
pub fn random_below(rng: &mut rand::rngs::StdRng, n: usize) -> (r: usize)
    requires
        n >= 1,
    ensures
        r < n,
{
    rand::Rng::gen_range(rng, 0..n)
}

/// Relies on rand::seq::SliceRandom::choose: a uniform pick from a
/// non-empty slice, always some element of it.
#[verifier::external_body]
pub fn pick_from(rng: &mut rand::rngs::StdRng, v: &Vec<usize>) -> (r: usize)
    requires
        v@.len() >= 1,
    ensures
        v@.contains(r),
{
    *rand::seq::SliceRandom::choose(v.as_slice(), rng).unwrap()
}

} // verus!
