//! The random source that the engine draws from.
use rand::rngs::StdRng;
use rand::Rng;
use rand::SeedableRng;
use vstd::prelude::*;

verus! {

#[verifier::external_type_specification]
#[verifier::external_body]
pub struct ExStdRng(StdRng);

/// A seedable stream of random draws.
pub struct Dice {
    rng: StdRng,
}

/// `StdRng::seed_from_u64`: a generator whose stream is fixed by `seed`.
#[verifier::external_body]
fn seeded(seed: u64) -> StdRng {
    StdRng::seed_from_u64(seed)
}

/// `Rng::gen_range` on `u64`: some value in `[low, high)`. The call panics
/// on an empty range, which `requires` leaves out.
#[verifier::external_body]
fn draw_range(rng: &mut StdRng, low: u64, high: u64) -> (r: u64)
    requires
        low < high,
    ensures
        low <= r < high,
{
    rng.gen_range(low, high)
}

impl Dice {
    /// A source whose draws are reproducible from `seed`.
    pub fn from_seed(seed: u64) -> Dice {
        Dice { rng: seeded(seed) }
    }

    /// A uniformly drawn integer in `[low, high)`.
    pub fn below_u64(&mut self, low: u64, high: u64) -> (r: u64)
        requires
            low < high,
        ensures
            low <= r < high,
    {
        draw_range(&mut self.rng, low, high)
    }

    /// A uniformly drawn position in `[low, high)`.
    pub fn below(&mut self, low: usize, high: usize) -> (r: usize)
        requires
            low < high,
        ensures
            low <= r < high,
    {
        self.below_u64(low as u64, high as u64) as usize
    }
}

} // verus!
