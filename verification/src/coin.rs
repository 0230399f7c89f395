//! Coin flips that decide on random reassignments.
use rand::rngs::StdRng;
use rand::{RngExt, SeedableRng};
use vstd::prelude::*;

verus! {

/// The generator of `rand`, which the library carries without looking inside.
#[verifier::external_type_specification]
#[verifier::external_body]
pub struct ExStdRng(StdRng);

/// The flips that a generator has in store, by their number.
pub uninterp spec fn flips_in_store(rng: StdRng) -> Map<nat, bool>;

/// The flips of a generator seeded with `seed`, by their number.
pub uninterp spec fn seeded_flips(seed: u64) -> Map<nat, bool>;

/// `StdRng::seed_from_u64` of `rand`: the flips to come are fixed by the seed. The contract names
/// them and claims nothing else of them.
#[verifier::external_body]
fn seeded_rng(seed: u64) -> (r: StdRng)
    ensures
        flips_in_store(r) == seeded_flips(seed),
{
    StdRng::seed_from_u64(seed)
}

/// `StdRng::from_rng` of `rand` on the thread's generator, which the operating system seeds.
/// Nothing is claimed of the flips to come.
#[verifier::external_body]
fn unseeded_rng() -> StdRng {
    StdRng::from_rng(&mut rand::rng())
}

/// `random_ratio` of `rand` with odds of one in two: takes the next flip out of the store.
#[verifier::external_body]
fn flip(rng: &mut StdRng) -> (r: bool)
    ensures
        r == flips_in_store(*old(rng))[0],
        forall|i: nat| #[trigger]
            flips_in_store(*final(rng))[i] == flips_in_store(*old(rng))[i + 1],
{
    rng.random_ratio(1, 2)
}

/// Decides, frame by frame, whether labels are reassigned at random.
pub struct Reassignments {
    enabled: bool,
    rng: StdRng,
}

impl Reassignments {
    /// Whether labels are ever reassigned.
    pub closed spec fn enabled(&self) -> bool {
        self.enabled
    }

    /// The decisions to come, where labels are reassigned at all.
    pub closed spec fn decisions(&self) -> Map<nat, bool> {
        flips_in_store(self.rng)
    }

    /// Decisions for a run. A seed fixes them; without one they differ from run to run.
    pub fn new(enabled: bool, seed: Option<u64>) -> (r: Self)
        ensures
            r.enabled() == enabled,
            seed matches Some(s) ==> r.decisions() == seeded_flips(s),
    {
        let rng = match seed {
            Some(s) => seeded_rng(s),
            None => unseeded_rng(),
        };
        Reassignments { enabled, rng }
    }

    /// The decision for one frame. No flip is used up where labels are never reassigned.
    pub fn decide(&mut self) -> (r: bool)
        ensures
            final(self).enabled() == old(self).enabled(),
            r == (old(self).enabled() && old(self).decisions()[0]),
            if old(self).enabled() {
                forall|i: nat| #[trigger]
                    final(self).decisions()[i] == old(self).decisions()[i + 1]
            } else {
                final(self).decisions() == old(self).decisions()
            },
    {
        if self.enabled {
            flip(&mut self.rng)
        } else {
            false
        }
    }
}

} // verus!
