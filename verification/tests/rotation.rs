use sushi_sim::cards::{Card, CardSet};
use sushi_sim::players::HandsView;

#[test]
fn test_get_wrapped() {
    assert_eq!(HandsView::get_wrapped(&[1, 2, 3], 0), &1);

    assert_eq!(HandsView::get_wrapped(&[1, 2, 3], 1), &2);
    assert_eq!(HandsView::get_wrapped(&[1, 2, 3], 2), &3);
    assert_eq!(HandsView::get_wrapped(&[1, 2, 3], 3), &1);
    assert_eq!(HandsView::get_wrapped(&[1, 2, 3], 4), &2);
    assert_eq!(HandsView::get_wrapped(&[1, 2, 3], 5), &3);

    assert_eq!(HandsView::get_wrapped(&[1, 2, 3], -1), &3);
    assert_eq!(HandsView::get_wrapped(&[1, 2, 3], -2), &2);
    assert_eq!(HandsView::get_wrapped(&[1, 2, 3], -3), &1);
    assert_eq!(HandsView::get_wrapped(&[1, 2, 3], -4), &3);
    assert_eq!(HandsView::get_wrapped(&[1, 2, 3], -5), &2);
    assert_eq!(HandsView::get_wrapped(&[1, 2, 3], -6), &1);
}

#[test]
fn get_wrapped_mut_writes_the_slot_that_get_wrapped_reads() {
    for idx in -7isize..8 {
        let mut slots = [10, 20, 30];
        *HandsView::get_wrapped_mut(&mut slots, idx) = 99;
        assert_eq!(HandsView::get_wrapped(&slots, idx), &99);
        assert_eq!(slots.iter().filter(|v| **v == 99).count(), 1);
    }
}

#[test]
fn get_wrapped_on_a_single_slot() {
    assert_eq!(HandsView::get_wrapped(&[7], 0), &7);
    assert_eq!(HandsView::get_wrapped(&[7], 5), &7);
    assert_eq!(HandsView::get_wrapped(&[7], -5), &7);
}

fn marked_hands(count: usize) -> Vec<CardSet> {
    (0..count).map(|slot| CardSet::new().with_cards(Card::Chopsticks(slot), 1)).collect()
}

fn mark_of(hand: &CardSet) -> usize {
    match hand.flatten()[0] {
        Card::Chopsticks(slot) => slot,
        other => panic!("unexpected card {:?}", other),
    }
}

#[test]
fn seat_holds_the_hand_shifted_by_the_turn() {
    for seats in 2usize..=8 {
        let hands = marked_hands(seats);
        for turn in 0..10usize {
            let view = HandsView::new(&hands, turn as isize);
            assert_eq!(view.count(), seats);
            for seat in 0..seats {
                assert_eq!(mark_of(view.get_hand(seat)), (turn + seat) % seats);
            }
        }
    }
}

#[test]
fn read_and_write_reach_the_same_hand() {
    for seats in 2usize..=8 {
        for turn in 0..10usize {
            for seat in 0..seats {
                let mut hands = marked_hands(seats);
                let read = mark_of(HandsView::new(&hands, turn as isize).get_hand(seat));
                HandsView::get_hand_mut(&mut hands, turn as isize, seat).add_card(Card::Wasabi);
                for (slot, hand) in hands.iter().enumerate() {
                    assert_eq!(hand.contains_card(Card::Wasabi), slot == read);
                }
            }
        }
    }
}

#[test]
fn in_a_turn_the_seats_hold_different_hands() {
    for seats in 2usize..=8 {
        let hands = marked_hands(seats);
        for turn in 0..seats {
            let view = HandsView::new(&hands, turn as isize);
            let mut seen = vec![false; seats];
            for seat in 0..seats {
                let slot = mark_of(view.get_hand(seat));
                assert!(!seen[slot]);
                seen[slot] = true;
            }
            assert!(seen.iter().all(|s| *s));
        }
    }
}

#[test]
fn over_as_many_turns_as_seats_a_seat_holds_every_hand() {
    for seats in 2usize..=8 {
        let hands = marked_hands(seats);
        for seat in 0..seats {
            let mut seen = vec![false; seats];
            for turn in 0..seats {
                let slot = mark_of(HandsView::new(&hands, turn as isize).get_hand(seat));
                assert!(!seen[slot]);
                seen[slot] = true;
            }
            assert!(seen.iter().all(|s| *s));
        }
    }
}

#[test]
fn negative_shift_wraps_downwards() {
    let hands = marked_hands(4);
    let view = HandsView::new(&hands, -1);
    assert_eq!(mark_of(view.get_hand(0)), 3);
    assert_eq!(mark_of(view.get_hand(1)), 0);
    assert_eq!(mark_of(view.get_hand(2)), 1);
    assert_eq!(mark_of(view.get_hand(3)), 2);
}
