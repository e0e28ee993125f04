//! Sources of random choices among cells.
//!
//! The board asks its source to choose among the cells that it hands over.
//! The generators of the `rand` crate serve as sources; what is stated of
//! their choices is what holds of every outcome.

use rand::seq::IteratorRandom;
use rand::SeedableRng;
use vstd::prelude::*;

verus! {

/// `rand::rngs::StdRng`, the generator that can be built from a seed.
#[verifier::external_type_specification]
#[verifier::external_body]
pub struct ExStdRng(rand::rngs::StdRng);

/// `rand::rngs::ThreadRng`, the generator that each thread has of its own.
#[verifier::external_type_specification]
#[verifier::external_body]
pub struct ExThreadRng(rand::rngs::ThreadRng);

/// The capability to choose at random among cells, each given as a row and a
/// column.
pub trait RandomSource {
    /// Chooses one of `candidates`, or nothing if there is none.
    fn pick(&mut self, candidates: &Vec<(usize, usize)>) -> (picked: Option<(usize, usize)>)
        ensures
            picked is None <==> candidates@.len() == 0,
            picked matches Some(cell) ==> candidates@.contains(cell),
    ;

    /// Chooses `amount` of `candidates`, each from another place in the
    /// list.
    fn pick_many(&mut self, candidates: &Vec<(usize, usize)>, amount: usize) -> (picked: Vec<
        (usize, usize),
    >)
        requires
            amount <= candidates@.len(),
        ensures
            picked@.len() == amount,
            forall|i: int| 0 <= i < picked@.len() ==> candidates@.contains(#[trigger] picked@[i]),
            candidates@.no_duplicates() ==> picked@.no_duplicates(),
    ;
}

/// A source that can be built from a seed, so that a game can be replayed.
pub trait SeededSource: RandomSource + Sized {
    /// What the source is built from.
    type Seed;

    /// The source that `seed` determines.
    fn with_seed(seed: Self::Seed) -> Self;
}

/// Calls `rand::seq::IteratorRandom::choose` on the candidates in their
/// order. It returns nothing exactly when the iterator is empty, and else
/// one of the items that the iterator yields.
#[verifier::external_body]
fn choose_one<G: rand::Rng>(
    rng: &mut G,
    candidates: &Vec<(usize, usize)>,
) -> (picked: Option<(usize, usize)>)
    ensures
        picked is None <==> candidates@.len() == 0,
        picked matches Some(cell) ==> candidates@.contains(cell),
{
    candidates.iter().copied().choose(rng)
}

/// Calls `rand::seq::IteratorRandom::choose_multiple` on the candidates in
/// their order. It fills a reservoir with the first `amount` items and then
/// lets later items take the place of earlier ones, so that it returns
/// `amount` items where the iterator yields that many, each yielded at
/// another position. Its buffer is no larger than the list of candidates.
#[verifier::external_body]
fn choose_some<G: rand::Rng>(
    rng: &mut G,
    candidates: &Vec<(usize, usize)>,
    amount: usize,
) -> (picked: Vec<(usize, usize)>)
    requires
        amount <= candidates@.len(),
    ensures
        picked@.len() == amount,
        forall|i: int| 0 <= i < picked@.len() ==> candidates@.contains(#[trigger] picked@[i]),
        candidates@.no_duplicates() ==> picked@.no_duplicates(),
{
    candidates.iter().copied().choose_multiple(rng, amount)
}

/// The generator that `rand::SeedableRng::from_seed` builds for `StdRng`
/// from the 32 bytes of a seed. It is a function of the seed alone: the
/// seed is the key of the generator, its counter starts at zero and it
/// holds no output yet, so that the same seed gives the same generator in
/// every run.
pub uninterp spec fn std_rng_seeded(seed: Seq<u8>) -> rand::rngs::StdRng;

/// Calls `Default::default` for `rand::rngs::ThreadRng`, which hands out
/// the generator of the current thread. Nothing is stated of it. The first
/// call in a thread seeds the generator from the operating system and
/// panics if that fails.
#[verifier::external_body]
pub(crate) fn current_thread_rng() -> rand::rngs::ThreadRng {
    rand::rngs::ThreadRng::default()
}

impl RandomSource for rand::rngs::StdRng {
    fn pick(&mut self, candidates: &Vec<(usize, usize)>) -> (picked: Option<(usize, usize)>) {
        choose_one(self, candidates)
    }

    fn pick_many(&mut self, candidates: &Vec<(usize, usize)>, amount: usize) -> (picked: Vec<
        (usize, usize),
    >) {
        choose_some(self, candidates, amount)
    }
}

impl SeededSource for rand::rngs::StdRng {
    type Seed = [u8; 32];

    fn with_seed(seed: [u8; 32]) -> (source: Self)
        ensures
            source == std_rng_seeded(seed@),
    {
        std_rng_from_seed(seed)
    }
}

/// Calls `rand::SeedableRng::from_seed` for `StdRng`. The generator that it
/// returns depends on the bytes of the seed alone: the same seed gives the
/// same generator.
#[verifier::external_body]
fn std_rng_from_seed(seed: [u8; 32]) -> (rng: rand::rngs::StdRng)
    ensures
        rng == std_rng_seeded(seed@),
{
    rand::rngs::StdRng::from_seed(seed)
}

impl RandomSource for rand::rngs::ThreadRng {
    fn pick(&mut self, candidates: &Vec<(usize, usize)>) -> (picked: Option<(usize, usize)>) {
        choose_one(self, candidates)
    }

    fn pick_many(&mut self, candidates: &Vec<(usize, usize)>, amount: usize) -> (picked: Vec<
        (usize, usize),
    >) {
        choose_some(self, candidates, amount)
    }
}

} // verus!
