//! One round at the table: dealing, and the turns in which every seat plays
//! a card and the hands move on.

use vstd::prelude::*;
use vstd::multiset::Multiset;
use crate::cards::Card;
use crate::card_set::{CardSet, CardVec};
use crate::error::GameError;
use crate::hands::{
    hand_slot, lemma_rotation_bijection, lemma_seat_at, lemma_slot_seat, seat_at, HandsView,
};
use crate::players::Players;
use crate::random::RandomSource;

verus! {

broadcast use vstd::multiset::group_multiset_axioms;

/// The cards that `seat` is dealt from `cards`: each seat in turn takes the
/// next `cards_per_player` cards from the top.
pub open spec fn dealt_hand(cards: Seq<Card>, seat: int, cards_per_player: int) -> Seq<Card> {
    cards.subrange(seat * cards_per_player, (seat + 1) * cards_per_player)
}

/// Deals `cards_per_player` cards from the top of `cards` to each of
/// `players_count` seats. What is left over is not dealt. Fails where the
/// cards do not go round.
pub fn deal(cards: &CardVec, players_count: usize, cards_per_player: usize) -> (hands: Result<
    Vec<CardSet>,
    GameError,
>)
    ensures
        hands is Ok <==> players_count * cards_per_player <= cards@.len(),
        hands matches Err(e) ==> e == GameError::ConfigurationError,
        hands matches Ok(dealt) ==> dealt@.len() == players_count && forall|seat: int|
            0 <= seat < players_count ==> (#[trigger] dealt@[seat]).wf() && dealt@[seat]@
                == dealt_hand(cards@, seat, cards_per_player as int).to_multiset()
                && dealt@[seat]@.len() == cards_per_player,
{
    let available = cards.len();
    let needed = match players_count.checked_mul(cards_per_player) {
        Some(needed) => needed,
        None => {
            return Err(GameError::ConfigurationError);
        },
    };
    if available < needed {
        return Err(GameError::ConfigurationError);
    }
    let mut hands: Vec<CardSet> = Vec::new();
    let mut next: usize = 0;
    let mut seat: usize = 0;
    while seat < players_count
        invariant
            seat <= players_count,
            players_count * cards_per_player <= cards@.len(),
            cards@.len() <= usize::MAX,
            next == seat * cards_per_player,
            hands@.len() == seat,
            forall|k: int|
                0 <= k < seat ==> (#[trigger] hands@[k]).wf() && hands@[k]@ == dealt_hand(
                    cards@,
                    k,
                    cards_per_player as int,
                ).to_multiset() && hands@[k]@.len() == cards_per_player,
        decreases players_count - seat,
    {
        assert((seat + 1) * cards_per_player == seat * cards_per_player + cards_per_player
            && (seat + 1) * cards_per_player <= players_count * cards_per_player)
            by (nonlinear_arith)
            requires
                seat < players_count,
        ;
        let mut hand = CardSet::new();
        let ghost start = next as int;
        let mut k: usize = 0;
        assert(cards@.subrange(start, start) =~= Seq::<Card>::empty());
        assert(Seq::<Card>::empty().to_multiset() =~= Multiset::<Card>::empty()) by {
            vstd::seq_lib::to_multiset_len(Seq::<Card>::empty());
            vstd::multiset::lemma_multiset_empty_len(Seq::<Card>::empty().to_multiset());
        }
        while k < cards_per_player
            invariant
                k <= cards_per_player,
                0 <= start,
                next == start + k,
                start + cards_per_player <= cards@.len(),
                cards@.len() <= usize::MAX,
                hand.wf(),
                hand@ == cards@.subrange(start, start + k).to_multiset(),
                hand@.len() == k,
            decreases cards_per_player - k,
        {
            proof {
                let taken = cards@.subrange(start, start + k);
                assert(cards@.subrange(start, start + k + 1) =~= taken.push(cards@[next as int]));
                vstd::seq_lib::to_multiset_build(taken, cards@[next as int]);
            }
            hand.add_card(cards[next]);
            next += 1;
            k += 1;
        }
        hands.push(hand);
        seat += 1;
    }
    Ok(hands)
}

/// Whether `choice` names a card that the hand of `seat` holds in `turn`.
pub open spec fn valid_choice(hands: Seq<CardSet>, turn: int, seat: int, choice: Option<Card>)
    -> bool {
    choice matches Some(card) && hands[hand_slot(turn, seat, hands.len() as int)]@.count(card)
        > 0
}

/// Whether every hand is well-formed.
pub open spec fn hands_wf(hands: Seq<CardSet>) -> bool {
    forall|slot: int| 0 <= slot < hands.len() ==> (#[trigger] hands[slot]).wf()
}

/// The cards of `choices`, where each names one.
pub open spec fn chosen(choices: Seq<Option<Card>>, seat: int) -> Card {
    choices[seat].unwrap()
}

/// Carries out one turn: takes the card that each seat has chosen out of the
/// hand the seat holds in this turn and lays it on the seat's pile. Where a
/// seat has chosen nothing, or a card its hand does not hold, the turn fails
/// and nothing is changed.
pub fn play_turn(
    hands: &mut Vec<CardSet>,
    played_cards: &mut Vec<CardVec>,
    turn: usize,
    played_now: &Vec<Option<Card>>,
) -> (done: Result<(), GameError>)
    requires
        old(played_cards)@.len() == old(hands)@.len(),
        played_now@.len() >= old(hands)@.len(),
        turn + old(hands)@.len() <= isize::MAX,
        hands_wf(old(hands)@),
    ensures
        done is Ok <==> forall|seat: int|
            0 <= seat < old(hands)@.len() ==> valid_choice(
                old(hands)@,
                turn as int,
                seat,
                #[trigger] played_now@[seat],
            ),
        done matches Err(e) ==> e == GameError::StrategyContractViolation && final(hands)@ == old(
            hands,
        )@ && final(played_cards)@ == old(played_cards)@,
        final(hands)@.len() == old(hands)@.len(),
        final(played_cards)@.len() == old(hands)@.len(),
        hands_wf(final(hands)@),
        done is Ok ==> forall|seat: int|
            0 <= seat < old(hands)@.len() ==> (#[trigger] final(played_cards)@[seat])@ == old(
                played_cards,
            )@[seat]@.push(chosen(played_now@, seat)),
        done is Ok ==> forall|seat: int|
            0 <= seat < old(hands)@.len() ==> (#[trigger] final(hands)@[hand_slot(
                turn as int,
                seat,
                old(hands)@.len() as int,
            )])@ == old(hands)@[hand_slot(turn as int, seat, old(hands)@.len() as int)]@.remove(
                chosen(played_now@, seat),
            ),
{
    let count = hands.len();
    if count == 0 {
        return Ok(());
    }
    proof {
        lemma_rotation_bijection(turn as int, count as int);
    }
    let mut seat: usize = 0;
    while seat < count
        invariant
            seat <= count,
            count == hands@.len(),
            0 < count,
            played_now@.len() >= count,
            turn + count <= isize::MAX,
            *hands == *old(hands),
            *played_cards == *old(played_cards),
            played_cards@.len() == count,
            hands_wf(hands@),
            forall|k: int| 0 <= k < count ==> 0 <= #[trigger] hand_slot(turn as int, k, count as int) < count,
            forall|k: int|
                0 <= k < seat ==> valid_choice(hands@, turn as int, k, #[trigger] played_now@[k]),
        decreases count - seat,
    {
        let view = HandsView::new(hands.as_slice(), turn as isize);
        let ghost slot = hand_slot(turn as int, seat as int, count as int);
        assert(0 <= slot < count);
        let held = match played_now[seat] {
            Some(card) => view.get_hand(seat).contains_card(card),
            None => false,
        };
        if !held {
            assert(!valid_choice(hands@, turn as int, seat as int, played_now@[seat as int]));
            return Err(GameError::StrategyContractViolation);
        }
        seat += 1;
    }
    let ghost hands_before = hands@;
    let ghost played_before = played_cards@;
    let mut seat: usize = 0;
    while seat < count
        invariant
            seat <= count,
            count == hands@.len(),
            count == hands_before.len(),
            count == played_cards@.len(),
            0 < count,
            played_now@.len() >= count,
            turn + count <= isize::MAX,
            hands_before == old(hands)@,
            played_before == old(played_cards)@,
            played_before.len() == count,
            hands_wf(hands@),
            hands_wf(hands_before),
            forall|k: int|
                0 <= k < count ==> valid_choice(
                    hands_before,
                    turn as int,
                    k,
                    #[trigger] played_now@[k],
                ),
            forall|k: int|
                0 <= k < count ==> 0 <= #[trigger] hand_slot(turn as int, k, count as int) < count,
            forall|a: int, b: int|
                0 <= a < b < count ==> #[trigger] hand_slot(turn as int, a, count as int)
                    != #[trigger] hand_slot(turn as int, b, count as int),
            forall|k: int|
                0 <= k < seat ==> (#[trigger] played_cards@[k])@ == played_before[k]@.push(
                    chosen(played_now@, k),
                ),
            forall|k: int| seat <= k < count ==> #[trigger] played_cards@[k] == played_before[k],
            forall|k: int|
                0 <= k < seat ==> (#[trigger] hands@[hand_slot(turn as int, k, count as int)])@
                    == hands_before[hand_slot(turn as int, k, count as int)]@.remove(
                    chosen(played_now@, k),
                ),
            forall|k: int|
                seat <= k < count ==> #[trigger] hands@[hand_slot(turn as int, k, count as int)]
                    == hands_before[hand_slot(turn as int, k, count as int)],
        decreases count - seat,
    {
        let ghost slot = hand_slot(turn as int, seat as int, count as int);
        let ghost hands_mid = hands@;
        let ghost played_mid = played_cards@;
        assert(0 <= slot < count);
        assert(valid_choice(hands_before, turn as int, seat as int, played_now@[seat as int]));
        assert(hands_mid[slot] == hands_before[slot]);
        match played_now[seat] {
            Some(card) => {
                HandsView::get_hand_mut(hands.as_mut_slice(), turn as isize, seat).remove_card(
                    card,
                );
                played_cards[seat].push(card);
            },
            None => {},
        }
        proof {
            assert(hands@ == hands_mid.update(slot, hands@[slot]));
            assert forall|k: int| 0 <= k < seat + 1 implies (#[trigger] hands@[hand_slot(
                turn as int,
                k,
                count as int,
            )])@ == hands_before[hand_slot(turn as int, k, count as int)]@.remove(
                chosen(played_now@, k),
            ) by {
                let other = hand_slot(turn as int, k, count as int);
                if k < seat {
                    assert(other != slot);
                    assert(hands@[other] == hands_mid[other]);
                }
            }
            assert forall|k: int| seat + 1 <= k < count implies #[trigger] hands@[hand_slot(
                turn as int,
                k,
                count as int,
            )] == hands_before[hand_slot(turn as int, k, count as int)] by {
                let other = hand_slot(turn as int, k, count as int);
                assert(other != slot);
                assert(hands@[other] == hands_mid[other]);
            }
            assert forall|s: int| 0 <= s < count implies (#[trigger] hands@[s]).wf() by {
                if s != slot {
                    assert(hands@[s] == hands_mid[s]);
                }
            }
            assert forall|k: int| 0 <= k < seat + 1 implies (#[trigger] played_cards@[k])@
                == played_before[k]@.push(chosen(played_now@, k)) by {
                if k < seat {
                    assert(played_cards@[k] == played_mid[k]);
                }
            }
            assert forall|k: int| seat + 1 <= k < count implies #[trigger] played_cards@[k]
                == played_before[k] by {
                assert(played_cards@[k] == played_mid[k]);
            }
        }
        seat += 1;
    }
    Ok(())
}

/// The cards played from the hand in `slot` over the first `turns` turns,
/// turn by turn: in each turn, the card of the seat that held the hand.
pub open spec fn played_from(piles: Seq<CardVec>, slot: int, turns: int) -> Seq<Card> {
    Seq::new(turns as nat, |turn: int| piles[seat_at(turn, slot, piles.len() as int)]@[turn])
}

/// A list of `count` answers, none given yet.
fn no_answers(count: usize) -> (answers: Vec<Option<Card>>)
    ensures
        answers@.len() == count,
{
    let mut answers: Vec<Option<Card>> = Vec::new();
    let mut i: usize = 0;
    while i < count
        invariant
            i <= count,
            answers@.len() == i,
        decreases count - i,
    {
        answers.push(None);
        i += 1;
    }
    answers
}

/// A pile for each of `count` seats, all empty.
pub(crate) fn empty_piles(count: usize) -> (piles: Vec<CardVec>)
    ensures
        piles@.len() == count,
        forall|seat: int| 0 <= seat < count ==> (#[trigger] piles@[seat])@.len() == 0,
{
    let mut piles: Vec<CardVec> = Vec::new();
    let mut i: usize = 0;
    while i < count
        invariant
            i <= count,
            piles@.len() == i,
            forall|seat: int| 0 <= seat < i ==> (#[trigger] piles@[seat])@.len() == 0,
        decreases count - i,
    {
        piles.push(Vec::new());
        i += 1;
    }
    piles
}

/// Plays a round with the hands as dealt: in each turn every seat names a
/// card from the hand it holds, the cards go to the seats' piles, and the
/// hands move on by one seat. Returns the piles.
///
/// When the round is through, every hand is empty, every pile has one card
/// for each turn, and each hand's cards are exactly the cards that were
/// played from it. The round fails where an answer is missing or names a
/// card that the seat's hand does not hold.
pub fn play_round<P: Players>(
    hands: &mut Vec<CardSet>,
    players: &mut P,
    rng: &mut RandomSource,
    cards_per_player: usize,
) -> (played: Result<Vec<CardVec>, GameError>)
    requires
        0 < old(hands)@.len(),
        old(hands)@.len() == P::COUNT,
        cards_per_player + P::COUNT <= isize::MAX,
        forall|slot: int|
            0 <= slot < old(hands)@.len() ==> (#[trigger] old(hands)@[slot]).wf() && old(
                hands,
            )@[slot]@.len() == cards_per_player,
    ensures
        final(hands)@.len() == old(hands)@.len(),
        hands_wf(final(hands)@),
        played matches Err(e) ==> e == GameError::StrategyContractViolation,
        played matches Ok(piles) ==> {
            &&& piles@.len() == old(hands)@.len()
            &&& forall|seat: int|
                0 <= seat < piles@.len() ==> (#[trigger] piles@[seat])@.len() == cards_per_player
            &&& forall|slot: int|
                0 <= slot < old(hands)@.len() ==> (#[trigger] final(hands)@[slot])@.len() == 0
            &&& forall|slot: int|
                0 <= slot < old(hands)@.len() ==> (#[trigger] old(hands)@[slot])@ == played_from(
                    piles@,
                    slot,
                    cards_per_player as int,
                ).to_multiset()
            &&& forall|seat: int, turn: int|
                0 <= seat < piles@.len() && 0 <= turn < cards_per_player ==> old(
                    hands,
                )@[hand_slot(turn, seat, piles@.len() as int)]@.count(
                    #[trigger] piles@[seat]@[turn],
                ) > 0
        },
{
    let count = hands.len();
    let ghost dealt = hands@;
    let mut played_cards = empty_piles(count);
    let mut turn: usize = 0;
    proof {
        assert forall|slot: int| 0 <= slot < count implies (#[trigger] dealt[slot])@ == hands@[slot]@.add(
            played_from(played_cards@, slot, 0).to_multiset(),
        ) by {
            lemma_no_cards(played_from(played_cards@, slot, 0));
        }
    }
    while turn < cards_per_player
        invariant
            turn <= cards_per_player,
            0 < count,
            count == P::COUNT,
            count == hands@.len(),
            count == dealt.len(),
            count == played_cards@.len(),
            dealt == old(hands)@,
            cards_per_player + count <= isize::MAX,
            hands_wf(hands@),
            forall|slot: int|
                0 <= slot < count ==> (#[trigger] hands@[slot])@.len() == cards_per_player - turn,
            forall|seat: int| 0 <= seat < count ==> (#[trigger] played_cards@[seat])@.len() == turn,
            forall|slot: int|
                0 <= slot < count ==> (#[trigger] dealt[slot])@ == hands@[slot]@.add(
                    played_from(played_cards@, slot, turn as int).to_multiset(),
                ),
        decreases cards_per_player - turn,
    {
        let mut played_now = no_answers(count);
        let view = HandsView::new(hands.as_slice(), turn as isize);
        players.play(&view, played_cards.as_slice(), &mut played_now, rng);
        if played_now.len() < count {
            return Err(GameError::StrategyContractViolation);
        }
        let ghost hands_before = hands@;
        let ghost piles_before = played_cards@;
        match play_turn(hands, &mut played_cards, turn, &played_now) {
            Ok(()) => {},
            Err(e) => {
                return Err(e);
            },
        }
        proof {
            assert forall|slot: int| 0 <= slot < count implies (#[trigger] hands@[slot])@.len()
                == cards_per_player - (turn + 1) && dealt[slot]@ == hands@[slot]@.add(
                played_from(played_cards@, slot, turn + 1).to_multiset(),
            ) by {
                let seat = seat_at(turn as int, slot, count as int);
                lemma_seat_at(turn as int, slot, count as int);
                let card = chosen(played_now@, seat);
                assert(valid_choice(hands_before, turn as int, seat, played_now@[seat]));
                assert(hands@[hand_slot(turn as int, seat, count as int)]@ == hands_before[slot]@.remove(card));
                assert(played_cards@[seat]@ == piles_before[seat]@.push(card));
                let earlier = played_from(piles_before, slot, turn as int);
                let now = played_from(played_cards@, slot, turn + 1);
                assert(now =~= earlier.push(card)) by {
                    assert forall|u: int| 0 <= u < turn implies now[u] == earlier[u] by {
                        let holder = seat_at(u, slot, count as int);
                        lemma_seat_at(u, slot, count as int);
                        assert(played_cards@[holder]@ == piles_before[holder]@.push(
                            chosen(played_now@, holder),
                        ));
                    }
                }
                vstd::seq_lib::to_multiset_build(earlier, card);
                assert(hands_before[slot]@ =~= hands@[slot]@.insert(card));
                assert(dealt[slot]@ =~= hands@[slot]@.add(now.to_multiset()));
            }
        }
        turn += 1;
    }
    proof {
        assert forall|slot: int| 0 <= slot < count implies (#[trigger] dealt[slot])@ == played_from(
            played_cards@,
            slot,
            cards_per_player as int,
        ).to_multiset() by {
            vstd::multiset::lemma_multiset_empty_len(hands@[slot]@);
            assert(dealt[slot]@ =~= played_from(
                played_cards@,
                slot,
                cards_per_player as int,
            ).to_multiset());
        }
        assert forall|seat: int, turn: int|
            0 <= seat < count && 0 <= turn < cards_per_player implies dealt[hand_slot(
            turn,
            seat,
            count as int,
        )]@.count(#[trigger] played_cards@[seat]@[turn]) > 0 by {
            let slot = hand_slot(turn, seat, count as int);
            lemma_slot_seat(turn, seat, count as int);
            let from_slot = played_from(played_cards@, slot, cards_per_player as int);
            assert(from_slot[turn] == played_cards@[seat]@[turn]);
            vstd::seq_lib::to_multiset_contains(from_slot, from_slot[turn]);
        }
    }
    Ok(played_cards)
}

/// A sequence without cards has the empty bag.
proof fn lemma_no_cards(cards: Seq<Card>)
    requires
        cards.len() == 0,
    ensures
        cards.to_multiset() == Multiset::<Card>::empty(),
        forall|bag: Multiset<Card>| #[trigger] bag.add(cards.to_multiset()) == bag,
{
    vstd::seq_lib::to_multiset_len(cards);
    vstd::multiset::lemma_multiset_empty_len(cards.to_multiset());
    assert(cards.to_multiset() =~= Multiset::<Card>::empty());
    assert forall|bag: Multiset<Card>| #[trigger] bag.add(cards.to_multiset()) == bag by {
        assert(bag.add(cards.to_multiset()) =~= bag);
    }
}

} // verus!
