//! The source of chance: one seedable generator, handed to whatever draws.

use vstd::prelude::*;
use rand::rngs::StdRng;
use crate::cards::Card;

verus! {

#[verifier::external_type_specification]
#[verifier::external_body]
pub struct ExStdRng(rand::rngs::StdRng);

/// A pseudo-random generator that a game owns. Two sources made from one seed
/// give the same draws in the same order, so a game can be replayed.
pub struct RandomSource {
    rng: StdRng,
}

/// `StdRng::seed_from_u64` of the rand crate: a generator whose stream is
/// fixed by `seed`. Nothing is claimed of the generator it returns.
#[verifier::external_body]
fn seed_generator(seed: u64) -> StdRng {
    <StdRng as rand::SeedableRng>::seed_from_u64(seed)
}

/// `Rng::gen::<usize>` of the rand crate: the next value of the generator,
/// which may be any `usize`. Nothing is claimed of it.
#[verifier::external_body]
fn draw_ordinal(rng: &mut StdRng) -> usize {
    rand::Rng::gen::<usize>(rng)
}

/// `SliceRandom::shuffle` of the rand crate, which reorders a slice in place
/// by swapping pairs of its items: the cards afterwards are the cards before,
/// each as often as before, in an order that nothing is claimed of.
#[verifier::external_body]
fn shuffle_cards(cards: &mut Vec<Card>, rng: &mut StdRng)
    ensures
        final(cards)@.to_multiset() == old(cards)@.to_multiset(),
{
    rand::seq::SliceRandom::shuffle(cards.as_mut_slice(), rng)
}

impl RandomSource {
    /// The generator whose draws are fixed by `seed`.
    pub fn seeded(seed: u64) -> RandomSource {
        RandomSource { rng: seed_generator(seed) }
    }

    /// The next draw: any `usize`.
    pub(crate) fn next_ordinal(&mut self) -> usize {
        draw_ordinal(&mut self.rng)
    }

    /// Puts `cards` into a random order. No card is added, lost or changed.
    pub(crate) fn shuffle(&mut self, cards: &mut Vec<Card>)
        ensures
            final(cards)@.to_multiset() == old(cards)@.to_multiset(),
            final(cards)@.len() == old(cards)@.len(),
    {
        proof {
            vstd::seq_lib::to_multiset_len(cards@);
        }
        shuffle_cards(cards, &mut self.rng);
        proof {
            vstd::seq_lib::to_multiset_len(cards@);
        }
    }
}

} // verus!
