//! The strategies: what a seat is asked, and two ways to answer.

use vstd::prelude::*;
use vstd::multiset::Multiset;
use crate::cards::Card;
use crate::card_set::{CardSet, CardVec};
pub use crate::hands::HandsView;
pub use crate::random::RandomSource;
pub use crate::simulation::simulate;

verus! {

/// A strategy for one seat.
pub trait Player {
    /// Names the card to play from `hand`, which is the hand that seat
    /// `player_idx` holds in this turn and is not empty. `played_cards` holds
    /// for each seat the cards it has played in this round so far, the seat's
    /// own among them. The card has to be one that the hand holds; the game
    /// checks the answer and ends with a fault where it is not.
    fn play(
        &mut self,
        hand: &CardSet,
        player_idx: usize,
        played_cards: &[CardVec],
        rng: &mut RandomSource,
    ) -> (card: Card)
        requires
            hand.wf(),
            hand@.len() > 0,
            player_idx < played_cards@.len(),
    ;
}

/// The strategies of all the seats of a game.
pub trait Players {
    /// Number of seats.
    const COUNT: usize;

    /// Asks every seat for its card of this turn and writes the answer of
    /// seat `i` to `output[i]`. The shift of `hands` is the number of the
    /// turn, counted from 0, and `played_cards` holds for each seat the cards
    /// it has played in the turns before. All seats answer before any card
    /// leaves a hand. The game checks the answers and ends with a fault where one is
    /// missing or names a card that the seat's hand does not hold.
    fn play(
        &mut self,
        hands: &HandsView,
        played_cards: &[CardVec],
        output: &mut Vec<Option<Card>>,
        rng: &mut RandomSource,
    )
        requires
            hands.hands().len() == Self::COUNT,
            hands.hands().len() <= isize::MAX,
            hands.shift() + Self::COUNT <= isize::MAX,
            played_cards@.len() == Self::COUNT,
            forall|seat: int|
                0 <= seat < Self::COUNT ==> (#[trigger] played_cards@[seat])@.len()
                    == hands.shift(),
            forall|slot: int|
                0 <= slot < hands.hands().len() ==> (#[trigger] hands.hands()[slot]).wf()
                    && hands.hands()[slot]@.len() > 0,
            old(output)@.len() >= Self::COUNT,
    ;
}

impl<A: Player, B: Player, C: Player, D: Player> Players for (A, B, C, D) {
    const COUNT: usize = 4;

    fn play(
        &mut self,
        hands: &HandsView,
        played_cards: &[CardVec],
        output: &mut Vec<Option<Card>>,
        rng: &mut RandomSource,
    )
        ensures
            final(output)@.len() == old(output)@.len(),
            forall|seat: int| 0 <= seat < 4 ==> (#[trigger] final(output)@[seat]) is Some,
    {
        proof {
            crate::hands::lemma_rotation_bijection(hands.shift(), 4);
        }
        let first = self.0.play(hands.get_hand(0), 0, played_cards, rng);
        output[0] = Some(first);
        let second = self.1.play(hands.get_hand(1), 1, played_cards, rng);
        output[1] = Some(second);
        let third = self.2.play(hands.get_hand(2), 2, played_cards, rng);
        output[2] = Some(third);
        let fourth = self.3.play(hands.get_hand(3), 3, played_cards, rng);
        output[3] = Some(fourth);
    }
}

/// Plays a card drawn at random from the hand, each card with a chance in
/// proportion to its copies.
#[derive(Clone, Copy, Debug, Default)]
pub struct RandomPlayer {}

impl Player for RandomPlayer {
    fn play(
        &mut self,
        hand: &CardSet,
        _player_idx: usize,
        _played_cards: &[CardVec],
        rng: &mut RandomSource,
    ) -> (card: Card)
        ensures
            hand@.count(card) > 0,
    {
        hand.random_card(rng).unwrap()
    }
}

/// The first of `preferences` that `hand` holds.
pub open spec fn first_held(preferences: Seq<Card>, hand: Multiset<Card>) -> Option<Card>
    decreases preferences.len(),
{
    if preferences.len() == 0 {
        None
    } else if hand.count(preferences.first()) > 0 {
        Some(preferences.first())
    } else {
        first_held(preferences.drop_first(), hand)
    }
}

/// Plays the first card of its list of preferences that the hand holds, and
/// a card drawn at random where the hand holds none of them.
#[derive(Clone, Debug)]
pub struct PreferedCardsPlayer {
    preferences: Vec<Card>,
}

impl PreferedCardsPlayer {
    /// The cards this player looks for, most wanted first.
    pub closed spec fn preferences(&self) -> Seq<Card> {
        self.preferences@
    }

    pub fn new(preferences: Vec<Card>) -> (player: Self)
        ensures
            player.preferences() == preferences@,
    {
        PreferedCardsPlayer { preferences }
    }

    /// Wants the highest nigiri.
    pub fn new_best_nigiri() -> (player: Self)
        ensures
            player.preferences() == seq![Card::Nigiri(3), Card::Nigiri(2), Card::Nigiri(1)],
    {
        let mut preferences: Vec<Card> = Vec::new();
        preferences.push(Card::Nigiri(3));
        preferences.push(Card::Nigiri(2));
        preferences.push(Card::Nigiri(1));
        assert(preferences@ =~= seq![Card::Nigiri(3), Card::Nigiri(2), Card::Nigiri(1)]);
        Self::new(preferences)
    }

    /// Wants wasabi first, then the highest nigiri.
    pub fn new_wasabi_best_nigiri() -> (player: Self)
        ensures
            player.preferences() == seq![
                Card::Wasabi,
                Card::Nigiri(3),
                Card::Nigiri(2),
                Card::Nigiri(1),
            ],
    {
        let mut preferences: Vec<Card> = Vec::new();
        preferences.push(Card::Wasabi);
        preferences.push(Card::Nigiri(3));
        preferences.push(Card::Nigiri(2));
        preferences.push(Card::Nigiri(1));
        assert(preferences@ =~= seq![
            Card::Wasabi,
            Card::Nigiri(3),
            Card::Nigiri(2),
            Card::Nigiri(1),
        ]);
        Self::new(preferences)
    }

    /// Wants the squid nigiri, then wasabi, then the lesser nigiri.
    pub fn new_nigiri_master() -> (player: Self)
        ensures
            player.preferences() == seq![
                Card::Nigiri(3),
                Card::Wasabi,
                Card::Nigiri(2),
                Card::Nigiri(1),
            ],
    {
        let mut preferences: Vec<Card> = Vec::new();
        preferences.push(Card::Nigiri(3));
        preferences.push(Card::Wasabi);
        preferences.push(Card::Nigiri(2));
        preferences.push(Card::Nigiri(1));
        assert(preferences@ =~= seq![
            Card::Nigiri(3),
            Card::Wasabi,
            Card::Nigiri(2),
            Card::Nigiri(1),
        ]);
        Self::new(preferences)
    }
}

impl Player for PreferedCardsPlayer {
    fn play(
        &mut self,
        hand: &CardSet,
        _player_idx: usize,
        _played_cards: &[CardVec],
        rng: &mut RandomSource,
    ) -> (card: Card)
        ensures
            hand@.count(card) > 0,
            first_held(old(self).preferences(), hand@) matches Some(wanted) ==> card == wanted,
            final(self).preferences() == old(self).preferences(),
    {
        let mut i: usize = 0;
        assert(self.preferences@.skip(0) =~= self.preferences@);
        while i < self.preferences.len()
            invariant
                i <= self.preferences@.len(),
                hand.wf(),
                *self == *old(self),
                first_held(self.preferences@, hand@) == first_held(
                    self.preferences@.skip(i as int),
                    hand@,
                ),
            decreases self.preferences@.len() - i,
        {
            let wanted = self.preferences[i];
            assert(self.preferences@.skip(i as int).first() == wanted);
            assert(self.preferences@.skip(i as int).drop_first() =~= self.preferences@.skip(i + 1));
            if hand.contains_card(wanted) {
                return wanted;
            }
            i += 1;
        }
        hand.random_card(rng).unwrap()
    }
}

} // verus!
