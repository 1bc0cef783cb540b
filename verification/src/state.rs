//! The generation state that every chunk shares: one seeded random number
//! generator, and the seed it was made from.

use rand::rngs::StdRng;
use rand::seq::SliceRandom;
use rand::Rng;
use rand::SeedableRng;
use vstd::prelude::*;

verus! {

/// The generator of the `rand` crate. What it holds is hidden from the proofs.
#[verifier::external_type_specification]
#[verifier::external_body]
pub struct ExStdRng(StdRng);

/// The generation state. Drawing from `rng` changes it, so the order in which
/// chunks are generated decides what each of them holds.
pub struct State {
    pub rng: StdRng,
    pub seed: u32,
}

impl State {
    /// A state whose generator was seeded with `seed`.
    pub fn new(seed: u32) -> (state: State)
        ensures
            state.seed == seed,
    {
        State { rng: seeded(seed), seed }
    }
}

/// `StdRng::seed_from_u64` of the `rand` crate, on the seed widened to 64
/// bits. Nothing is claimed of the generator that comes back.
#[verifier::external_body]
fn seeded(seed: u32) -> StdRng {
    StdRng::seed_from_u64(seed as u64)
}

/// `Rng::gen_ratio` of the `rand` crate: one trial that succeeds with
/// probability `numerator / denominator`. The crate promises success where
/// the two are equal and failure where the numerator is zero, and panics
/// where the denominator is zero or less than the numerator; of any other
/// trial nothing is claimed.
#[verifier::external_body]
pub(crate) fn trial(rng: &mut StdRng, numerator: u32, denominator: u32) -> (hit: bool)
    requires
        0 < denominator,
        numerator <= denominator,
    ensures
        numerator == denominator ==> hit,
        numerator == 0 ==> !hit,
{
    rng.gen_ratio(numerator, denominator)
}

/// `SliceRandom::choose` of the `rand` crate on a slice of numbers: nothing
/// when the slice is empty, else one of its items, chosen uniformly.
#[verifier::external_body]
pub(crate) fn pick_one(rng: &mut StdRng, items: &Vec<usize>) -> (pick: Option<usize>)
    ensures
        items@.len() == 0 ==> pick is None,
        items@.len() > 0 ==> pick is Some && items@.contains(pick->0),
{
    items.choose(rng).copied()
}

} // verus!
