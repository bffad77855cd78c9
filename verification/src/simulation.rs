//! A whole game: three rounds of dealing, playing and scoring, and the
//! desserts at the end.

use vstd::prelude::*;
use crate::cards::{
    cards_per_player, get_cards_per_player, valid_round, valid_seat_count, Card, ROUNDS_COUNT,
};
use crate::card_set::{countable, deck_count, deck_size, CardSet, CardVec};
use crate::error::GameError;
use crate::hands::hand_slot;
use crate::menu::Menu;
use crate::players::Players;
use crate::points::{
    lemma_points_within, points_fit, seat_points, seats_with_uramaki, PointCalculator,
};
use crate::random::RandomSource;
use crate::round::{deal, dealt_hand, play_round, played_from};
use crate::tally::{
    all_tabled, countable_into, dealable, lemma_countable, tabled, tally_of, Tally, CARD_WEIGHT,
};

verus! {

/// The tallies of the seats that have played `piles`.
pub open spec fn round_tallies(piles: Seq<CardVec>) -> Seq<Tally> {
    Seq::new(piles.len(), |seat: int| tally_of(piles[seat]@))
}

/// Whether every card of every pile may lie on the table.
pub open spec fn piles_tabled(piles: Seq<CardVec>) -> bool {
    forall|seat: int| 0 <= seat < piles.len() ==> all_tabled(#[trigger] piles[seat]@)
}

/// Scores one pass over the seats' piles and adds what each seat gets to
/// its running score. Returns the number of seats that reached the uramaki
/// score, for the next pass. Fails, and leaves the scores alone, where a pile
/// holds a card that may not lie on the table.
pub fn score_round(
    menu: &Menu,
    played_cards: &[CardVec],
    uramaki_position: usize,
    scores: &mut Vec<isize>,
) -> (carried: Result<usize, GameError>)
    requires
        old(scores)@.len() == played_cards@.len(),
        forall|seat: int|
            0 <= seat < played_cards@.len() && all_tabled(played_cards@[seat]@) ==> countable_into(
                Tally::empty(),
                #[trigger] played_cards@[seat]@,
            ),
        piles_tabled(played_cards@) ==> points_fit(round_tallies(played_cards@), menu@),
        piles_tabled(played_cards@) ==> forall|seat: int|
            0 <= seat < played_cards@.len() ==> isize::MIN <= old(scores)@[seat]
                + #[trigger] seat_points(round_tallies(played_cards@), menu@, seat) <= isize::MAX,
    ensures
        final(scores)@.len() == old(scores)@.len(),
        carried is Ok <==> piles_tabled(played_cards@),
        carried matches Err(e) ==> e == GameError::InternalInvariantViolation && final(scores)@
            == old(scores)@,
        carried matches Ok(reached) ==> reached == seats_with_uramaki(
            round_tallies(played_cards@),
        ) && forall|seat: int|
            0 <= seat < played_cards@.len() ==> #[trigger] final(scores)@[seat] == old(
                scores,
            )@[seat] + seat_points(round_tallies(played_cards@), menu@, seat),
{
    let seats = scores.len();
    let mut points = PointCalculator::with_capacity(seats, uramaki_position);
    match points.apply_cards(played_cards) {
        Ok(()) => {},
        Err(e) => {
            return Err(e);
        },
    }
    assert(points@ =~= round_tallies(played_cards@));
    let gained = points.calculate_points(menu, true);
    let ghost before = scores@;
    let mut seat: usize = 0;
    while seat < seats
        invariant
            seat <= seats,
            seats == scores@.len(),
            seats == before.len(),
            seats == gained@.len(),
            seats == played_cards@.len(),
            forall|k: int|
                0 <= k < seats ==> #[trigger] gained@[k] == seat_points(
                    round_tallies(played_cards@),
                    menu@,
                    k,
                ),
            forall|k: int|
                0 <= k < seats ==> isize::MIN <= before[k] + #[trigger] seat_points(
                    round_tallies(played_cards@),
                    menu@,
                    k,
                ) <= isize::MAX,
            forall|k: int| 0 <= k < seat ==> #[trigger] scores@[k] == before[k] + gained@[k],
            forall|k: int| seat <= k < seats ==> #[trigger] scores@[k] == before[k],
        decreases seats - seat,
    {
        assert(gained@[seat as int] == seat_points(
            round_tallies(played_cards@),
            menu@,
            seat as int,
        ));
        scores[seat] = scores[seat] + gained[seat];
        seat += 1;
    }
    Ok(points.has_uramaki_scores())
}

/// What tells a dessert from another card.
pub open spec fn dessert_pred() -> spec_fn(Card) -> bool {
    |card: Card| card.dessert()
}

/// The desserts among `cards`, in their order.
pub open spec fn desserts_of(cards: Seq<Card>) -> Seq<Card> {
    cards.filter(dessert_pred())
}

/// Adds the desserts of each seat's pile to the seat's stash, where they
/// stay until the game ends.
pub fn keep_desserts(stash: &mut Vec<CardVec>, played_cards: &[CardVec])
    requires
        old(stash)@.len() == played_cards@.len(),
    ensures
        final(stash)@.len() == old(stash)@.len(),
        forall|seat: int|
            0 <= seat < played_cards@.len() ==> (#[trigger] final(stash)@[seat])@ == old(
                stash,
            )@[seat]@ + desserts_of(played_cards@[seat]@),
{
    let seats = stash.len();
    let ghost stash_before = stash@;
    let mut seat: usize = 0;
    while seat < seats
        invariant
            seat <= seats,
            seats == stash@.len(),
            seats == stash_before.len(),
            seats == played_cards@.len(),
            forall|k: int|
                0 <= k < seat ==> (#[trigger] stash@[k])@ == stash_before[k]@ + desserts_of(
                    played_cards@[k]@,
                ),
            forall|k: int| seat <= k < seats ==> #[trigger] stash@[k] == stash_before[k],
        decreases seats - seat,
    {
        let cards = &played_cards[seat];
        let ghost kept_before = stash@[seat as int]@;
        let mut k: usize = 0;
        proof {
            reveal(Seq::filter);
            assert(cards@.take(0) =~= Seq::<Card>::empty());
            assert(kept_before + desserts_of(cards@.take(0)) =~= kept_before);
        }
        while k < cards.len()
            invariant
                k <= cards@.len(),
                seat < seats,
                seats == stash@.len(),
                seats == stash_before.len(),
                *cards == played_cards@[seat as int],
                stash@[seat as int]@ == kept_before + desserts_of(cards@.take(k as int)),
                forall|j: int|
                    0 <= j < seat ==> (#[trigger] stash@[j])@ == stash_before[j]@ + desserts_of(
                        played_cards@[j]@,
                    ),
                forall|j: int| seat < j < seats ==> #[trigger] stash@[j] == stash_before[j],
            decreases cards@.len() - k,
        {
            let card = cards[k];
            let ghost stash_mid = stash@;
            proof {
                reveal(Seq::filter);
                assert(cards@.take(k + 1).drop_last() =~= cards@.take(k as int));
            }
            if card.is_dessert() {
                stash[seat].push(card);
                proof {
                    assert(stash@[seat as int]@ =~= kept_before + desserts_of(cards@.take(k + 1)));
                    assert forall|j: int| 0 <= j < seat implies (#[trigger] stash@[j])@
                        == stash_before[j]@ + desserts_of(played_cards@[j]@) by {
                        assert(stash@[j] == stash_mid[j]);
                    }
                    assert forall|j: int| seat < j < seats implies #[trigger] stash@[j]
                        == stash_before[j] by {
                        assert(stash@[j] == stash_mid[j]);
                    }
                }
            }
            k += 1;
        }
        assert(cards@.take(k as int) =~= cards@);
        seat += 1;
    }
}

/// Whether `cards` are the cards of the deck that `menu` gives for `players`
/// seats in `round`, in some order.
pub open spec fn order_of_deck(cards: Seq<Card>, menu: Set<Card>, players: int, round: int)
    -> bool {
    forall|card: Card| #[trigger]
        cards.to_multiset().count(card) == deck_count(menu, card, players, round)
}

/// Whether `hands` are what the seats are dealt from `cards`.
pub open spec fn dealt_from(hands: Seq<CardSet>, cards: Seq<Card>, cards_per_player: int) -> bool {
    forall|slot: int|
        0 <= slot < hands.len() ==> (#[trigger] hands[slot])@ == dealt_hand(
            cards,
            slot,
            cards_per_player,
        ).to_multiset()
}

/// Builds the deck of `round` from the menu, shuffles it and deals
/// `cards_per_player` cards to each seat. Fails where the catalog has no
/// count for a card of the menu or the deck does not go round.
///
/// Whatever order the shuffle gives, the hands are cut from an order of the
/// deck's cards, so a hand holds no card that the deck does not hold.
pub fn deal_round(
    menu: &Menu,
    players_count: usize,
    round: usize,
    cards_per_player: usize,
    rng: &mut RandomSource,
) -> (hands: Result<Vec<CardSet>, GameError>)
    requires
        menu.wf(),
        menu.listing().len() * 12 <= usize::MAX,
    ensures
        hands is Ok <==> (forall|card: Card|
            menu@.contains(card) ==> countable(card, players_count as int, round as int))
            && players_count * cards_per_player <= deck_size(
            menu.listing(),
            players_count as int,
            round as int,
        ),
        hands matches Err(e) ==> e == GameError::ConfigurationError,
        hands matches Ok(dealt) ==> {
            &&& dealt@.len() == players_count
            &&& forall|slot: int|
                0 <= slot < players_count ==> (#[trigger] dealt@[slot]).wf() && dealt@[slot]@.len()
                    == cards_per_player
            &&& exists|cards: Seq<Card>|
                order_of_deck(cards, menu@, players_count as int, round as int)
                    && #[trigger] dealt_from(dealt@, cards, cards_per_player as int)
            &&& forall|slot: int, card: Card|
                0 <= slot < players_count && (#[trigger] dealt@[slot])@.count(card) > 0
                    ==> #[trigger] deck_count(menu@, card, players_count as int, round as int) > 0
        },
{
    let deck = match CardSet::from_menu(menu, players_count, round) {
        Ok(deck) => deck,
        Err(e) => {
            return Err(e);
        },
    };
    let mut cards = deck.flatten();
    rng.shuffle(&mut cards);
    let dealt = deal(&cards, players_count, cards_per_player);
    proof {
        if dealt is Ok {
            let hands = dealt->Ok_0;
            assert forall|slot: int, card: Card|
                0 <= slot < players_count && (#[trigger] hands@[slot])@.count(card) > 0 implies
                #[trigger] deck_count(menu@, card, players_count as int, round as int) > 0 by {
                let hand = dealt_hand(cards@, slot, cards_per_player as int);
                assert((slot + 1) * cards_per_player <= players_count * cards_per_player)
                    by (nonlinear_arith)
                    requires
                        0 <= slot < players_count,
                ;
                assert(0 <= slot * cards_per_player <= (slot + 1) * cards_per_player)
                    by (nonlinear_arith)
                    requires
                        0 <= slot,
                ;
                vstd::seq_lib::to_multiset_contains(hand, card);
                let k = choose|k: int| 0 <= k < hand.len() && hand[k] == card;
                assert(cards@[slot * cards_per_player + k] == card);
                assert(cards@.contains(card));
                vstd::seq_lib::to_multiset_contains(cards@, card);
                assert(deck@.count(card) > 0);
            }
            assert(order_of_deck(cards@, menu@, players_count as int, round as int));
            assert(dealt_from(hands@, cards@, cards_per_player as int));
        }
    }
    dealt
}

/// Whether a game can be played with `menu` at `players` seats: the seat
/// count is one the game provides for, the catalog has a count for every
/// card of the menu, and in every round the deck goes round.
pub open spec fn playable(menu: Set<Card>, listing: Seq<Card>, players: int) -> bool {
    &&& valid_seat_count(players)
    &&& forall|card: Card| menu.contains(card) ==> card.priced()
    &&& forall|round: int|
        1 <= round <= 3 ==> players * cards_per_player(players) <= #[trigger] deck_size(
            listing,
            players,
            round,
        )
}

/// Whether `piles` are what the seats play in a round dealt from `cards`:
/// the cards played from each hand, turn by turn, are exactly the cards the
/// hand was dealt.
pub open spec fn played_out(cards: Seq<Card>, piles: Seq<CardVec>, cards_per_player: int) -> bool {
    forall|slot: int|
        0 <= slot < piles.len() ==> #[trigger] dealt_hand(
            cards,
            slot,
            cards_per_player,
        ).to_multiset() == played_from(piles, slot, cards_per_player).to_multiset()
}

/// Whether `piles` can be the piles of `round`: there is an order of the
/// round's deck from which the hands are dealt and played out to them, one
/// pile for each seat and one card in it for each turn.
pub open spec fn round_played(menu: Set<Card>, players: int, round: int, piles: Seq<CardVec>)
    -> bool {
    &&& piles.len() == players
    &&& forall|seat: int|
        0 <= seat < players ==> (#[trigger] piles[seat])@.len() == cards_per_player(players)
    &&& exists|cards: Seq<Card>|
        order_of_deck(cards, menu, players, round) && #[trigger] played_out(
            cards,
            piles,
            cards_per_player(players),
        )
}

/// Whether `totals` are what the seats score in a game in which they play
/// `rounds[0]`, `rounds[1]` and `rounds[2]` in the three rounds: for each
/// seat the points of the three rounds and the points of `stash`, which holds
/// for each seat the desserts it has played, round after round.
pub open spec fn game_totals(
    menu: Set<Card>,
    players: int,
    rounds: Seq<Seq<CardVec>>,
    stash: Seq<CardVec>,
    totals: Seq<isize>,
) -> bool {
    &&& rounds.len() == 3
    &&& stash.len() == players
    &&& totals.len() == players
    &&& forall|r: int| 0 <= r < 3 ==> round_played(menu, players, r + 1, #[trigger] rounds[r])
    &&& forall|seat: int|
        0 <= seat < players ==> (#[trigger] stash[seat])@ == desserts_of(rounds[0][seat]@)
            + desserts_of(rounds[1][seat]@) + desserts_of(rounds[2][seat]@)
    &&& forall|seat: int|
        0 <= seat < players ==> #[trigger] totals[seat] == seat_points(
            round_tallies(rounds[0]),
            menu,
            seat,
        ) + seat_points(round_tallies(rounds[1]), menu, seat) + seat_points(
            round_tallies(rounds[2]),
            menu,
            seat,
        ) + seat_points(round_tallies(stash), menu, seat)
}

/// Whether `totals` are what the seats score in some game played with `menu`
/// at `players` seats: there are piles for the three rounds, each played out
/// from a deal of the round's deck, of which `totals` are the totals.
pub open spec fn game_played(menu: Set<Card>, players: int, totals: Seq<isize>) -> bool {
    exists|rounds: Seq<Seq<CardVec>>, stash: Seq<CardVec>| #[trigger]
        game_totals(menu, players, rounds, stash, totals)
}

/// The most that a seat scores in one round.
pub const ROUND_CEILING: isize = 1900;

/// The most that a seat scores for its desserts at the end.
pub const DESSERT_CEILING: isize = 5500;

/// The most that a seat loses in one pass.
pub const PASS_FLOOR: isize = -19;

/// Says whether a game can be played with `menu` at `players_count` seats,
/// and with how many cards in each hand.
pub fn check_configuration(menu: &Menu, players_count: usize) -> (hand_size: Result<
    usize,
    GameError,
>)
    requires
        menu.wf(),
        menu.listing().len() * 12 <= usize::MAX,
    ensures
        hand_size is Ok <==> playable(menu@, menu.listing(), players_count as int),
        hand_size matches Ok(n) ==> n == cards_per_player(players_count as int),
        hand_size matches Err(e) ==> e == GameError::ConfigurationError,
{
    let hand_size = match get_cards_per_player(players_count) {
        Ok(n) => n,
        Err(e) => {
            return Err(e);
        },
    };
    let needed = players_count * hand_size;
    let mut round: usize = 1;
    while round <= ROUNDS_COUNT
        invariant
            1 <= round <= ROUNDS_COUNT + 1,
            menu.wf(),
            menu.listing().len() * 12 <= usize::MAX,
            valid_seat_count(players_count as int),
            hand_size == cards_per_player(players_count as int),
            needed == players_count * hand_size,
            forall|card: Card| round > 1 && menu@.contains(card) ==> card.priced(),
            forall|earlier: int|
                1 <= earlier < round ==> needed <= #[trigger] deck_size(
                    menu.listing(),
                    players_count as int,
                    earlier,
                ),
        decreases ROUNDS_COUNT + 1 - round,
    {
        match CardSet::from_menu(menu, players_count, round) {
            Ok(deck) => {
                if deck.len() < needed {
                    return Err(GameError::ConfigurationError);
                }
                proof {
                    assert forall|card: Card| menu@.contains(card) implies card.priced() by {
                        assert(countable(card, players_count as int, round as int));
                    }
                }
            },
            Err(e) => {
                proof {
                    let card = choose|card: Card|
                        menu@.contains(card) && !countable(
                            card,
                            players_count as int,
                            round as int,
                        );
                    assert(!card.priced());
                }
                return Err(e);
            },
        }
        round += 1;
    }
    Ok(hand_size)
}

/// A score of 0 for each of `count` seats.
fn zero_scores(count: usize) -> (scores: Vec<isize>)
    ensures
        scores@.len() == count,
        forall|seat: int| 0 <= seat < count ==> #[trigger] scores@[seat] == 0,
{
    let mut scores: Vec<isize> = Vec::new();
    let mut i: usize = 0;
    while i < count
        invariant
            i <= count,
            scores@.len() == i,
            forall|seat: int| 0 <= seat < i ==> #[trigger] scores@[seat] == 0,
        decreases count - i,
    {
        scores.push(0);
        i += 1;
    }
    scores
}

/// Whether every card of every pile can be dealt and may lie on the table.
pub open spec fn piles_sound(piles: Seq<CardVec>) -> bool {
    forall|seat: int, k: int|
        0 <= seat < piles.len() && 0 <= k < piles[seat]@.len() ==> dealable(
            #[trigger] piles[seat]@[k],
        ) && tabled(piles[seat]@[k])
}

/// Piles of cards that can be dealt, none longer than `longest`, can be
/// scored: the counters stay within `CARD_WEIGHT * longest`, and what a seat
/// scores stays within what `lemma_points_within` allows for that.
proof fn lemma_piles_score(piles: Seq<CardVec>, menu: Set<Card>, longest: nat)
    requires
        CARD_WEIGHT * longest <= 1000,
        forall|seat: int| 0 <= seat < piles.len() ==> (#[trigger] piles[seat])@.len() <= longest,
        forall|seat: int, k: int|
            0 <= seat < piles.len() && 0 <= k < piles[seat]@.len() ==> dealable(
                #[trigger] piles[seat]@[k],
            ),
    ensures
        forall|seat: int|
            0 <= seat < piles.len() ==> countable_into(Tally::empty(), #[trigger] piles[seat]@),
        forall|seat: int|
            0 <= seat < piles.len() ==> -19 <= #[trigger] seat_points(
                round_tallies(piles),
                menu,
                seat,
            ) <= 20 * (CARD_WEIGHT * longest) + 100,
        points_fit(round_tallies(piles), menu),
{
    assert forall|seat: int| 0 <= seat < piles.len() implies countable_into(
        Tally::empty(),
        #[trigger] piles[seat]@,
    ) && -19 <= seat_points(round_tallies(piles), menu, seat) <= 20 * (CARD_WEIGHT * longest)
        + 100 by {
        let cards = piles[seat]@;
        assert forall|k: int| 0 <= k < cards.len() implies dealable(#[trigger] cards[k]) by {
            assert(dealable(piles[seat]@[k]));
        }
        lemma_countable(cards);
        let reach = CARD_WEIGHT as nat * cards.len();
        assert(round_tallies(piles)[seat] == tally_of(cards));
        lemma_points_within(round_tallies(piles), menu, seat, reach);
    }
    assert forall|seat: int| 0 <= seat < round_tallies(piles).len() implies isize::MIN
        <= #[trigger] seat_points(round_tallies(piles), menu, seat) <= isize::MAX by {
        assert(countable_into(Tally::empty(), piles[seat]@));
    }
}

/// What `seat` has scored when `round` is about to begin, with the piles
/// `first`, `second` and `third` of the rounds before it.
spec fn points_so_far(
    menu: Set<Card>,
    round: int,
    first: Seq<CardVec>,
    second: Seq<CardVec>,
    third: Seq<CardVec>,
    seat: int,
) -> int {
    (if round > 1 {
        seat_points(round_tallies(first), menu, seat)
    } else {
        0
    }) + (if round > 2 {
        seat_points(round_tallies(second), menu, seat)
    } else {
        0
    }) + (if round > 3 {
        seat_points(round_tallies(third), menu, seat)
    } else {
        0
    })
}

/// The desserts that `seat` has put aside when `round` is about to begin,
/// with the piles `first`, `second` and `third` of the rounds before it.
spec fn desserts_so_far(
    round: int,
    first: Seq<CardVec>,
    second: Seq<CardVec>,
    third: Seq<CardVec>,
    seat: int,
) -> Seq<Card> {
    (if round > 1 {
        desserts_of(first[seat]@)
    } else {
        Seq::empty()
    }) + (if round > 2 {
        desserts_of(second[seat]@)
    } else {
        Seq::empty()
    }) + (if round > 3 {
        desserts_of(third[seat]@)
    } else {
        Seq::empty()
    })
}

/// Plays a game of three rounds and returns what each seat scores.
///
/// For each round the deck is built from the menu, shuffled and dealt; the
/// seats play their hands card by card while the hands go round; the round
/// is scored; and the desserts played are put aside. After the last round the
/// desserts put aside are scored in a pass of their own. A dessert so counts
/// twice: with the round it is played in, as every card does, and with the
/// desserts at the end.
///
/// Whatever the shuffles give and the seats play, the totals of a game that
/// ends well are the points of three rounds, each played out from a deal of
/// the round's deck, and the points of the desserts put aside in them.
///
/// The game is refused with a configuration fault exactly where `menu` cannot
/// be played at that many seats. It ends with a strategy fault where a seat
/// names a card its hand does not hold, and with an invariant fault where a
/// card that only stands for a choice is played, which takes a menu that
/// holds such a card.
pub fn simulate<P: Players>(menu: &Menu, players: &mut P, rng: &mut RandomSource) -> (scores:
    Result<Vec<isize>, GameError>)
    requires
        menu.wf(),
        menu.listing().len() * 12 <= usize::MAX,
    ensures
        (scores matches Err(e) && e == GameError::ConfigurationError) <==> !playable(
            menu@,
            menu.listing(),
            P::COUNT as int,
        ),
        (scores matches Err(e) && e == GameError::InternalInvariantViolation) ==> exists|
            card: Card,
        |
            menu@.contains(card) && !tabled(card),
        scores matches Ok(totals) ==> totals@.len() == P::COUNT && forall|seat: int|
            0 <= seat < totals@.len() ==> 4 * PASS_FLOOR <= #[trigger] totals@[seat] <= 3
                * ROUND_CEILING + DESSERT_CEILING,
        scores matches Ok(totals) ==> game_played(menu@, P::COUNT as int, totals@),
{
    let players_count = P::COUNT;
    let hand_size = match check_configuration(menu, players_count) {
        Ok(n) => n,
        Err(e) => {
            return Err(e);
        },
    };
    let mut scores = zero_scores(players_count);
    let mut uramaki_position: usize = 0;
    let mut played_desserts = crate::round::empty_piles(players_count);
    let mut round: usize = 1;
    let ghost mut first: Seq<CardVec> = Seq::empty();
    let ghost mut second: Seq<CardVec> = Seq::empty();
    let ghost mut third: Seq<CardVec> = Seq::empty();
    while round <= ROUNDS_COUNT
        invariant
            1 <= round <= ROUNDS_COUNT + 1,
            round > 1 ==> round_played(menu@, players_count as int, 1, first),
            round > 2 ==> round_played(menu@, players_count as int, 2, second),
            round > 3 ==> round_played(menu@, players_count as int, 3, third),
            forall|seat: int|
                0 <= seat < players_count ==> #[trigger] scores@[seat] == points_so_far(
                    menu@,
                    round as int,
                    first,
                    second,
                    third,
                    seat,
                ),
            forall|seat: int|
                0 <= seat < players_count ==> (#[trigger] played_desserts@[seat])@
                    == desserts_so_far(round as int, first, second, third, seat),
            players_count == P::COUNT,
            hand_size == cards_per_player(players_count as int),
            playable(menu@, menu.listing(), players_count as int),
            menu.wf(),
            menu.listing().len() * 12 <= usize::MAX,
            scores@.len() == players_count,
            forall|seat: int|
                0 <= seat < players_count ==> (round - 1) * PASS_FLOOR <= #[trigger] scores@[seat]
                    <= (round - 1) * ROUND_CEILING,
            played_desserts@.len() == players_count,
            forall|seat: int|
                0 <= seat < players_count ==> (#[trigger] played_desserts@[seat])@.len() <= (round
                    - 1) * 10,
            piles_sound(played_desserts@),
        decreases ROUNDS_COUNT + 1 - round,
    {
        assert(players_count * hand_size <= 80) by (nonlinear_arith)
            requires
                2 <= players_count <= 8,
                hand_size <= 10,
        ;
        assert(players_count * hand_size <= deck_size(
            menu.listing(),
            players_count as int,
            round as int,
        ));
        let mut hands = match deal_round(menu, players_count, round, hand_size, rng) {
            Ok(hands) => hands,
            Err(e) => {
                return Err(e);
            },
        };
        let ghost dealt = hands@;
        let ghost cards = choose|cards: Seq<Card>|
            order_of_deck(cards, menu@, players_count as int, round as int) && #[trigger] dealt_from(
                dealt,
                cards,
                hand_size as int,
            );
        let played_cards = match play_round(&mut hands, players, rng, hand_size) {
            Ok(piles) => piles,
            Err(e) => {
                return Err(e);
            },
        };
        proof {
            assert forall|seat: int, k: int|
                0 <= seat < played_cards@.len() && 0 <= k < played_cards@[seat]@.len() implies dealable(
                #[trigger] played_cards@[seat]@[k],
            ) && menu@.contains(played_cards@[seat]@[k]) by {
                let card = played_cards@[seat]@[k];
                let slot = hand_slot(k, seat, players_count as int);
                crate::hands::lemma_slot_seat(k, seat, players_count as int);
                assert(dealt[slot]@.count(card) > 0);
                assert(deck_count(menu@, card, players_count as int, round as int) > 0);
            }
            lemma_piles_score(played_cards@, menu@, hand_size as nat);
            assert(played_out(cards, played_cards@, hand_size as int)) by {
                assert forall|slot: int| 0 <= slot < played_cards@.len() implies #[trigger] dealt_hand(
                    cards,
                    slot,
                    hand_size as int,
                ).to_multiset() == played_from(
                    played_cards@,
                    slot,
                    hand_size as int,
                ).to_multiset() by {
                    assert(dealt[slot]@ == dealt_hand(cards, slot, hand_size as int).to_multiset());
                }
            }
            assert(round_played(menu@, players_count as int, round as int, played_cards@));
        }
        let ghost scores_before = scores@;
        match score_round(menu, played_cards.as_slice(), uramaki_position, &mut scores) {
            Ok(reached) => {
                uramaki_position = reached;
            },
            Err(e) => {
                proof {
                    let seat = choose|seat: int|
                        0 <= seat < played_cards@.len() && !all_tabled(played_cards@[seat]@);
                    let k = choose|k: int|
                        0 <= k < played_cards@[seat]@.len() && !tabled(played_cards@[seat]@[k]);
                    assert(menu@.contains(played_cards@[seat]@[k]));
                }
                return Err(e);
            },
        }
        let ghost stash_before = played_desserts@;
        keep_desserts(&mut played_desserts, played_cards.as_slice());
        proof {
            assert forall|seat: int| 0 <= seat < players_count implies (
            #[trigger] played_desserts@[seat])@.len() <= round * 10 by {
                played_cards@[seat]@.lemma_filter_len(dessert_pred());
            }
            assert forall|seat: int, k: int|
                0 <= seat < played_desserts@.len() && 0 <= k
                    < played_desserts@[seat]@.len() implies dealable(
                #[trigger] played_desserts@[seat]@[k],
            ) && tabled(played_desserts@[seat]@[k]) by {
                let old_len = stash_before[seat]@.len();
                if k >= old_len {
                    let kept = desserts_of(played_cards@[seat]@);
                    let card = kept[k - old_len];
                    assert(played_desserts@[seat]@[k] == card);
                    played_cards@[seat]@.lemma_filter_pred(dessert_pred(), k - old_len);
                    assert(kept.contains(card));
                    played_cards@[seat]@.lemma_filter_contains_rev(dessert_pred(), card);
                    let j = choose|j: int|
                        0 <= j < played_cards@[seat]@.len() && played_cards@[seat]@[j] == card;
                    assert(dealable(played_cards@[seat]@[j]));
                } else {
                    assert(played_desserts@[seat]@[k] == stash_before[seat]@[k]);
                }
            }
            if round == 1 {
                first = played_cards@;
            } else if round == 2 {
                second = played_cards@;
            } else {
                third = played_cards@;
            }
            assert forall|seat: int| 0 <= seat < players_count implies (
            #[trigger] played_desserts@[seat])@ == desserts_so_far(
                round + 1,
                first,
                second,
                third,
                seat,
            ) by {
                assert(played_desserts@[seat]@ =~= stash_before[seat]@ + desserts_of(
                    played_cards@[seat]@,
                ));
                assert(desserts_so_far(round + 1, first, second, third, seat) =~= stash_before[seat]@
                    + desserts_of(played_cards@[seat]@));
            }
            assert forall|seat: int| 0 <= seat < players_count implies #[trigger] scores@[seat]
                == points_so_far(menu@, round + 1, first, second, third, seat) by {
                assert(scores@[seat] == scores_before[seat] + seat_points(
                    round_tallies(played_cards@),
                    menu@,
                    seat,
                ));
            }
        }
        round += 1;
    }
    proof {
        lemma_piles_score(played_desserts@, menu@, 30);
        assert(piles_tabled(played_desserts@)) by {
            assert forall|seat: int| 0 <= seat < played_desserts@.len() implies all_tabled(
                #[trigger] played_desserts@[seat]@,
            ) by {
                assert forall|k: int| 0 <= k < played_desserts@[seat]@.len() implies tabled(
                    #[trigger] played_desserts@[seat]@[k],
                ) by {}
            }
        }
    }
    let ghost scores_before = scores@;
    match score_round(menu, played_desserts.as_slice(), 0, &mut scores) {
        Ok(_) => {},
        Err(e) => {
            return Err(e);
        },
    }
    proof {
        let rounds = seq![first, second, third];
        assert(game_totals(menu@, players_count as int, rounds, played_desserts@, scores@)) by {
            assert forall|r: int| 0 <= r < 3 implies round_played(
                menu@,
                players_count as int,
                r + 1,
                #[trigger] rounds[r],
            ) by {}
            assert forall|seat: int| 0 <= seat < players_count implies #[trigger] scores@[seat]
                == seat_points(round_tallies(rounds[0]), menu@, seat) + seat_points(
                round_tallies(rounds[1]),
                menu@,
                seat,
            ) + seat_points(round_tallies(rounds[2]), menu@, seat) + seat_points(
                round_tallies(played_desserts@),
                menu@,
                seat,
            ) by {
                assert(scores_before[seat] == points_so_far(menu@, 4, first, second, third, seat));
            }
            assert forall|seat: int| 0 <= seat < players_count implies (
            #[trigger] played_desserts@[seat])@ == desserts_of(rounds[0][seat]@) + desserts_of(
                rounds[1][seat]@,
            ) + desserts_of(rounds[2][seat]@) by {
                assert(played_desserts@[seat]@ == desserts_so_far(4, first, second, third, seat));
            }
        }
        assert(game_totals(menu@, P::COUNT as int, rounds, played_desserts@, scores@));
        assert(game_played(menu@, P::COUNT as int, scores@));
    }
    Ok(scores)
}

} // verus!
