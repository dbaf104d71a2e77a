//! The pseudo-random source that generation and spawning draw from.

use rand::rngs::OsRng;
use rand::rngs::StdRng;
use rand::Rng;
use rand::SeedableRng;
use vstd::prelude::*;

verus! {

/// `rand`'s standard generator, carried as an opaque value.
#[verifier::external_type_specification]
#[verifier::external_body]
pub struct ExStdRng(StdRng);

/// `SeedableRng::seed_from_u64` for `StdRng`: a generator whose whole output
/// is fixed by `seed`. Nothing is claimed of the generator that comes back.
#[verifier::external_body]
fn generator_from_seed(seed: u64) -> StdRng {
    StdRng::seed_from_u64(seed)
}

/// `SeedableRng::from_rng` for `StdRng`, fed by `OsRng`: a generator seeded
/// by the operating system, or `None` if the system supplies no entropy.
/// Nothing is claimed of the generator, nor of when one comes back.
#[verifier::external_body]
fn generator_from_os() -> Option<StdRng> {
    StdRng::from_rng(OsRng).ok()
}

/// `Rng::gen_range` on the half-open range `low..high`, which panics if the
/// range is empty. The result lies in the range; which value it is depends on
/// the generator's state.
#[verifier::external_body]
fn sample_range(rng: &mut StdRng, low: usize, high: usize) -> (value: usize)
    requires
        low < high,
    ensures
        low <= value < high,
{
    rng.gen_range(low..high)
}

/// `Rng::gen_range` on the closed range `low..=high`, which panics if the
/// range is empty. The result lies in the range; which value it is depends on
/// the generator's state.
#[verifier::external_body]
fn sample_range_inclusive(rng: &mut StdRng, low: usize, high: usize) -> (value: usize)
    requires
        low <= high,
    ensures
        low <= value <= high,
{
    rng.gen_range(low..=high)
}

/// `Rng::gen_ratio`: true with probability `numerator / denominator`. The call
/// panics if `denominator` is zero or less than `numerator`. At the two
/// extremes the result is certain; in between nothing is claimed of it.
#[verifier::external_body]
fn sample_ratio(rng: &mut StdRng, numerator: u32, denominator: u32) -> (hit: bool)
    requires
        0 < denominator,
        numerator <= denominator,
    ensures
        numerator == denominator ==> hit,
        numerator == 0 ==> !hit,
{
    rng.gen_ratio(numerator, denominator)
}

/// The seed of the sources that `Dungeon::new` and `Game::new` fall back on
/// where the operating system supplies no entropy.
pub const FALLBACK_SEED: u64 = 0;

/// A source of pseudo-random draws. Every operation that needs chance takes
/// one, so that a caller decides between a reproducible and a fresh sequence.
///
/// The source keeps a record of the values that it has handed out, in the
/// order of the draws. The record exists in proofs only: with it, a function
/// that draws can say which draw became which part of its result.
pub struct RandomSource {
    rng: StdRng,
    drawn: Ghost<Seq<usize>>,
}

/// How a coin flip stands in the record of draws: 1 for `true`, 0 for `false`.
pub open spec fn coin_value(side: bool) -> usize {
    if side {
        1
    } else {
        0
    }
}

impl RandomSource {
    /// The values drawn from this source so far, oldest first.
    pub closed spec fn draws(&self) -> Seq<usize> {
        self.drawn@
    }

    /// The values drawn from this source since its record was `before` long.
    pub open spec fn draws_since(&self, before: Seq<usize>) -> Seq<usize> {
        self.draws().skip(before.len() as int)
    }

    /// A source whose sequence of draws is fixed by `seed`. Nothing has been
    /// drawn from it yet.
    pub fn from_seed(seed: u64) -> (source: RandomSource)
        ensures
            source.draws() == Seq::<usize>::empty(),
    {
        RandomSource { rng: generator_from_seed(seed), drawn: Ghost(Seq::empty()) }
    }

    /// A source seeded by the operating system, or `None` if the system
    /// supplies no entropy. Nothing has been drawn from the source yet.
    pub fn from_entropy() -> (source: Option<RandomSource>)
        ensures
            source matches Some(fresh) ==> fresh.draws() == Seq::<usize>::empty(),
    {
        match generator_from_os() {
            Some(rng) => Some(RandomSource { rng, drawn: Ghost(Seq::empty()) }),
            None => None,
        }
    }

    /// A source seeded by the operating system where it supplies entropy,
    /// and by `seed` where it does not. Nothing has been drawn from it yet.
    pub fn from_entropy_or(seed: u64) -> (source: RandomSource)
        ensures
            source.draws() == Seq::<usize>::empty(),
    {
        match RandomSource::from_entropy() {
            Some(source) => source,
            None => RandomSource::from_seed(seed),
        }
    }

    /// Draws a value from `low..high` and records it.
    pub fn in_range(&mut self, low: usize, high: usize) -> (value: usize)
        requires
            low < high,
        ensures
            low <= value < high,
            final(self).draws() == old(self).draws().push(value),
    {
        let value = sample_range(&mut self.rng, low, high);
        self.drawn = Ghost(self.drawn@.push(value));
        value
    }

    /// Draws a value from `low..=high` and records it.
    pub fn in_range_inclusive(&mut self, low: usize, high: usize) -> (value: usize)
        requires
            low <= high,
        ensures
            low <= value <= high,
            final(self).draws() == old(self).draws().push(value),
    {
        let value = sample_range_inclusive(&mut self.rng, low, high);
        self.drawn = Ghost(self.drawn@.push(value));
        value
    }

    /// Draws `true` or `false` with equal chance and records the side.
    pub fn coin_flip(&mut self) -> (side: bool)
        ensures
            final(self).draws() == old(self).draws().push(coin_value(side)),
    {
        let side = sample_ratio(&mut self.rng, 1, 2);
        self.drawn = Ghost(self.drawn@.push(coin_value(side)));
        side
    }
}

} // verus!
