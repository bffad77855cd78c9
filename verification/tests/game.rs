use sushi_sim::cards::{get_cards_per_player, Card, CardSet, CardVec, Menu};
use sushi_sim::error::GameError;
use sushi_sim::players::{
    simulate, HandsView, Player, Players, PreferedCardsPlayer, RandomPlayer, RandomSource,
};
use sushi_sim::round::{deal, play_round, play_turn};
use sushi_sim::simulation::{check_configuration, deal_round, keep_desserts, score_round};

fn first_meal() -> Menu {
    Menu::from_cards(&[
        Card::Nigiri(1),
        Card::Nigiri(2),
        Card::Nigiri(3),
        Card::Maki(1),
        Card::Maki(2),
        Card::Maki(3),
        Card::Tempura,
        Card::Sashimi,
        Card::MisoSoup,
        Card::Wasabi,
        Card::Tea,
        Card::GreenTeaIceCream,
    ])
}

/// Plays the first card of the hand's layout.
struct FirstCard;

impl Player for FirstCard {
    fn play(&mut self, hand: &CardSet, _: usize, _: &[CardVec], _: &mut RandomSource) -> Card {
        hand.flatten()[0]
    }
}

/// Plays the last card of the hand's layout.
struct LastCard;

impl Player for LastCard {
    fn play(&mut self, hand: &CardSet, _: usize, _: &[CardVec], _: &mut RandomSource) -> Card {
        *hand.flatten().last().unwrap()
    }
}

/// Names a card that no hand of these games holds.
struct Cheat;

impl Player for Cheat {
    fn play(&mut self, _: &CardSet, _: usize, _: &[CardVec], _: &mut RandomSource) -> Card {
        Card::Chopsticks(77)
    }
}

/// `N` seats that all play the first card of their hand.
struct Table<const N: usize>;

impl<const N: usize> Players for Table<N> {
    const COUNT: usize = N;

    fn play(
        &mut self,
        hands: &HandsView,
        played_cards: &[CardVec],
        output: &mut Vec<Option<Card>>,
        rng: &mut RandomSource,
    ) {
        for seat in 0..N {
            output[seat] = Some(FirstCard.play(hands.get_hand(seat), seat, played_cards, rng));
        }
    }
}

/// Two seats of which the second never answers.
struct Silent;

impl Players for Silent {
    const COUNT: usize = 2;

    fn play(
        &mut self,
        hands: &HandsView,
        played_cards: &[CardVec],
        output: &mut Vec<Option<Card>>,
        rng: &mut RandomSource,
    ) {
        output[0] = Some(FirstCard.play(hands.get_hand(0), 0, played_cards, rng));
    }
}

fn deck_size(menu: &Menu, seats: usize, round: usize) -> usize {
    CardSet::from_menu(menu, seats, round).unwrap().len()
}

fn check_dealing<const N: usize>() {
    let menu = first_meal();
    let hand_size = get_cards_per_player(N).unwrap();
    assert_eq!(check_configuration(&menu, N), Ok(hand_size));
    for round in 1..=3 {
        let mut rng = RandomSource::seeded(round as u64);
        assert!(N * hand_size <= deck_size(&menu, N, round));
        let mut hands = deal_round(&menu, N, round, hand_size, &mut rng).unwrap();
        assert_eq!(hands.len(), N);
        let dealt: usize = hands.iter().map(|hand| hand.len()).sum();
        assert_eq!(dealt, N * hand_size);
        assert!(hands.iter().all(|hand| hand.len() == hand_size));
        let before: Vec<CardVec> = hands.iter().map(|hand| hand.flatten()).collect();
        let piles = play_round(&mut hands, &mut Table::<N>, &mut rng, hand_size).unwrap();
        assert!(hands.iter().all(|hand| hand.len() == 0));
        assert_eq!(piles.len(), N);
        assert!(piles.iter().all(|pile| pile.len() == hand_size));
        for (slot, cards) in before.iter().enumerate() {
            let mut played: CardVec =
                (0..hand_size).map(|turn| piles[(slot + N * hand_size - turn) % N][turn]).collect();
            let mut held = cards.clone();
            played.sort_by_key(|card| format!("{:?}", card));
            held.sort_by_key(|card| format!("{:?}", card));
            assert_eq!(played, held);
        }
    }
}

#[test]
fn dealing_goes_round_and_a_round_empties_every_hand() {
    check_dealing::<2>();
    check_dealing::<3>();
    check_dealing::<4>();
    check_dealing::<5>();
    check_dealing::<6>();
    check_dealing::<7>();
    check_dealing::<8>();
}

#[test]
fn deal_cuts_the_hands_from_the_top() {
    let cards = vec![
        Card::Tea,
        Card::Eel,
        Card::Tea,
        Card::Tofu,
        Card::Wasabi,
        Card::Wasabi,
        Card::Pudding,
    ];
    let hands = deal(&cards, 3, 2).unwrap();
    assert_eq!(hands.len(), 3);
    assert_eq!(hands[0].iter(), vec![(Card::Tea, 1), (Card::Eel, 1)]);
    assert_eq!(hands[1].iter(), vec![(Card::Tea, 1), (Card::Tofu, 1)]);
    assert_eq!(hands[2].iter(), vec![(Card::Wasabi, 2)]);
    assert_eq!(deal(&cards, 3, 3).err(), Some(GameError::ConfigurationError));
    assert_eq!(deal(&cards, 7, 1).unwrap().len(), 7);
    assert_eq!(deal(&cards, 8, 1).err(), Some(GameError::ConfigurationError));
    assert_eq!(deal(&cards, 0, 5).unwrap().len(), 0);
    assert_eq!(deal(&cards, usize::MAX, 2).err(), Some(GameError::ConfigurationError));
}

#[test]
fn deal_round_shuffles_the_deck() {
    let menu = first_meal();
    let unshuffled = CardSet::from_menu(&menu, 4, 1).unwrap().flatten();
    let plain: Vec<Vec<(Card, usize)>> =
        deal(&unshuffled, 4, 9).unwrap().iter().map(|hand| hand.iter()).collect();
    let mut orders = Vec::new();
    for seed in 0..4 {
        let mut rng = RandomSource::seeded(seed);
        let hands = deal_round(&menu, 4, 1, 9, &mut rng).unwrap();
        let order: Vec<Vec<(Card, usize)>> = hands.iter().map(|hand| hand.iter()).collect();
        assert_ne!(order, plain);
        orders.push(order);
    }
    assert_ne!(orders[0], orders[1]);
    let mut again = RandomSource::seeded(0);
    let hands = deal_round(&menu, 4, 1, 9, &mut again).unwrap();
    let order: Vec<Vec<(Card, usize)>> = hands.iter().map(|hand| hand.iter()).collect();
    assert_eq!(order, orders[0]);
}

#[test]
fn deal_round_deals_cards_of_the_deck_only() {
    let menu = first_meal();
    let deck = CardSet::from_menu(&menu, 5, 2).unwrap();
    let mut rng = RandomSource::seeded(5);
    let hands = deal_round(&menu, 5, 2, 9, &mut rng).unwrap();
    for (card, copies) in deck.iter() {
        let dealt: usize = hands
            .iter()
            .flat_map(|hand| hand.iter())
            .filter(|(c, _)| *c == card)
            .map(|(_, n)| n)
            .sum();
        assert!(dealt <= copies);
    }
    for hand in hands.iter() {
        for (card, _) in hand.iter() {
            assert!(deck.contains_card(card));
        }
    }
}

#[test]
fn deal_round_refuses_a_deck_that_does_not_go_round() {
    let mut rng = RandomSource::seeded(5);
    let small = Menu::from_cards(&[Card::Temaki, Card::Tea]);
    assert_eq!(deal_round(&small, 2, 1, 10, &mut rng).err(), Some(GameError::ConfigurationError));
    assert_eq!(deal_round(&small, 2, 1, 7, &mut rng).unwrap().len(), 2);
    let odd = Menu::from_cards(&[Card::Temaki, Card::Nigiri(5)]);
    assert_eq!(deal_round(&odd, 2, 1, 1, &mut rng).err(), Some(GameError::ConfigurationError));
    assert_eq!(
        deal_round(&first_meal(), 4, 4, 9, &mut rng).err(),
        Some(GameError::ConfigurationError)
    );
}

#[test]
fn a_turn_moves_each_chosen_card_from_hand_to_pile() {
    let mut hands = vec![
        CardSet::new().with_cards(Card::Tea, 2),
        CardSet::new().with_cards(Card::Eel, 1).with_cards(Card::Tofu, 1),
        CardSet::new().with_cards(Card::Wasabi, 2),
    ];
    let mut piles: Vec<CardVec> = vec![vec![], vec![Card::Pudding], vec![]];
    let choices = vec![Some(Card::Tofu), Some(Card::Wasabi), Some(Card::Tea)];
    assert_eq!(play_turn(&mut hands, &mut piles, 1, &choices), Ok(()));
    assert_eq!(hands[0].iter(), vec![(Card::Tea, 1)]);
    assert_eq!(hands[1].iter(), vec![(Card::Eel, 1)]);
    assert_eq!(hands[2].iter(), vec![(Card::Wasabi, 1)]);
    assert_eq!(piles, vec![vec![Card::Tofu], vec![Card::Pudding, Card::Wasabi], vec![Card::Tea]]);
}

#[test]
fn a_turn_with_a_bad_choice_changes_nothing() {
    let hands = vec![
        CardSet::new().with_cards(Card::Tea, 2),
        CardSet::new().with_cards(Card::Eel, 1).with_cards(Card::Tofu, 1),
    ];
    let piles: Vec<CardVec> = vec![vec![], vec![Card::Pudding]];
    let bad = [
        vec![Some(Card::Tea), Some(Card::Tea)],
        vec![Some(Card::Eel), Some(Card::Eel)],
        vec![Some(Card::Tea), None],
        vec![None, None],
        vec![Some(Card::Tea), Some(Card::Wasabi)],
    ];
    for choices in bad.iter() {
        let mut held: Vec<CardSet> = hands.clone();
        let mut played = piles.clone();
        assert_eq!(
            play_turn(&mut held, &mut played, 0, choices),
            Err(GameError::StrategyContractViolation)
        );
        assert_eq!(played, piles);
        for (after, before) in held.iter().zip(hands.iter()) {
            assert_eq!(after.iter(), before.iter());
        }
    }
    let mut held: Vec<CardSet> = hands.clone();
    let mut played = piles.clone();
    assert_eq!(play_turn(&mut held, &mut played, 0, &vec![Some(Card::Tea), Some(Card::Eel)]), Ok(()));
}

#[test]
fn score_round_adds_to_the_running_scores() {
    let menu = Menu::from_cards(&[Card::Pudding]);
    let piles: Vec<CardVec> = vec![
        vec![Card::Wasabi, Card::Nigiri(2), Card::Pudding],
        vec![Card::Uramaki(5), Card::Uramaki(5)],
        vec![Card::Maki(1)],
    ];
    let mut scores = vec![10, -5, 0];
    assert_eq!(score_round(&menu, &piles, 0, &mut scores), Ok(1));
    assert_eq!(scores, vec![10 + 6 + 6, -5 - 6, 0 + 6 - 6]);
    assert_eq!(score_round(&menu, &piles, 1, &mut scores), Ok(1));
    assert_eq!(scores, vec![10 + 12 + 12, -5 - 12, 0]);
}

#[test]
fn score_round_refuses_cards_that_stand_for_a_choice() {
    let piles: Vec<CardVec> = vec![vec![Card::MisoSoup], vec![Card::MisoSoup, Card::SpecialOrder]];
    let mut scores = vec![1, 2];
    assert_eq!(
        score_round(&Menu::new(), &piles, 0, &mut scores),
        Err(GameError::InternalInvariantViolation)
    );
    assert_eq!(scores, vec![1, 2]);
}

#[test]
fn desserts_are_kept_in_the_order_played() {
    let piles: Vec<CardVec> = vec![
        vec![Card::Pudding, Card::Tea, Card::GreenTeaIceCream, Card::Pudding],
        vec![Card::Tea, Card::Wasabi],
        vec![Card::Fruit(1, 1, 0)],
    ];
    let mut stash: Vec<CardVec> = vec![vec![Card::GreenTeaIceCream], vec![], vec![]];
    keep_desserts(&mut stash, &piles);
    assert_eq!(
        stash,
        vec![
            vec![Card::GreenTeaIceCream, Card::Pudding, Card::GreenTeaIceCream, Card::Pudding],
            vec![],
            vec![Card::Fruit(1, 1, 0)],
        ]
    );
}

#[test]
fn configuration_is_checked_for_all_rounds() {
    let menu = first_meal();
    for seats in 2..=8 {
        assert_eq!(check_configuration(&menu, seats), get_cards_per_player(seats));
    }
    assert_eq!(check_configuration(&menu, 1), Err(GameError::ConfigurationError));
    assert_eq!(check_configuration(&menu, 9), Err(GameError::ConfigurationError));
    assert_eq!(check_configuration(&Menu::new(), 4), Err(GameError::ConfigurationError));
    let unknown = Menu::from_cards(&[
        Card::Temaki,
        Card::Dumpling,
        Card::Edamame,
        Card::Eel,
        Card::Tofu,
        Card::Uramaki(7),
    ]);
    assert_eq!(check_configuration(&unknown, 4), Err(GameError::ConfigurationError));
    // 12 + 8 + 8 + 8 + the puddings of the round: enough for round one at four seats
    // (41 cards), not for round three (38 cards).
    let thin = Menu::from_cards(&[Card::Temaki, Card::Dumpling, Card::Edamame, Card::Eel, Card::Pudding]);
    assert_eq!(CardSet::from_menu(&thin, 4, 1).unwrap().len(), 41);
    assert_eq!(CardSet::from_menu(&thin, 4, 3).unwrap().len(), 38);
    assert_eq!(check_configuration(&thin, 5), Err(GameError::ConfigurationError));
    assert_eq!(check_configuration(&thin, 4), Ok(9));
    let thinner = Menu::from_cards(&[Card::Temaki, Card::Dumpling, Card::Edamame, Card::Tea, Card::Pudding]);
    assert_eq!(CardSet::from_menu(&thinner, 4, 1).unwrap().len(), 36);
    assert_eq!(CardSet::from_menu(&thinner, 4, 2).unwrap().len(), 34);
    assert_eq!(check_configuration(&thinner, 4), Err(GameError::ConfigurationError));
}

fn four_nigiri_players(
) -> (RandomPlayer, PreferedCardsPlayer, PreferedCardsPlayer, PreferedCardsPlayer) {
    (
        RandomPlayer::default(),
        PreferedCardsPlayer::new_best_nigiri(),
        PreferedCardsPlayer::new_wasabi_best_nigiri(),
        PreferedCardsPlayer::new_nigiri_master(),
    )
}

#[test]
fn a_game_gives_a_score_to_every_seat() {
    let menu = first_meal();
    for seed in 0..20 {
        let mut rng = RandomSource::seeded(seed);
        let scores = simulate(&menu, &mut four_nigiri_players(), &mut rng).unwrap();
        assert_eq!(scores.len(), 4);
        assert!(scores.iter().all(|score| -76 <= *score && *score <= 11200));
    }
}

#[test]
fn a_game_follows_the_seed() {
    let menu = first_meal();
    let mut games = Vec::new();
    for seed in 0..6u64 {
        let mut first = RandomSource::seeded(seed);
        let mut second = RandomSource::seeded(seed);
        let a = simulate(&menu, &mut (FirstCard, LastCard, FirstCard, LastCard), &mut first);
        let b = simulate(&menu, &mut (FirstCard, LastCard, FirstCard, LastCard), &mut second);
        assert!(a.is_ok());
        assert_eq!(a, b);
        games.push(a);
    }
    assert!(games.iter().any(|game| *game != games[0]));
}

#[test]
fn a_game_with_random_fallbacks_follows_the_seed_too() {
    let menu = first_meal();
    for seed in 0..6u64 {
        let mut first = RandomSource::seeded(seed);
        let mut second = RandomSource::seeded(seed);
        let a = simulate(&menu, &mut four_nigiri_players(), &mut first);
        let b = simulate(&menu, &mut four_nigiri_players(), &mut second);
        assert!(a.is_ok());
        assert_eq!(a, b);
    }
}

#[test]
fn games_at_every_seat_count() {
    let menu = first_meal();
    let mut rng = RandomSource::seeded(11);
    assert_eq!(simulate(&menu, &mut Table::<2>, &mut rng).unwrap().len(), 2);
    assert_eq!(simulate(&menu, &mut Table::<3>, &mut rng).unwrap().len(), 3);
    assert_eq!(simulate(&menu, &mut Table::<4>, &mut rng).unwrap().len(), 4);
    assert_eq!(simulate(&menu, &mut Table::<5>, &mut rng).unwrap().len(), 5);
    assert_eq!(simulate(&menu, &mut Table::<6>, &mut rng).unwrap().len(), 6);
    assert_eq!(simulate(&menu, &mut Table::<7>, &mut rng).unwrap().len(), 7);
    assert_eq!(simulate(&menu, &mut Table::<8>, &mut rng).unwrap().len(), 8);
}

fn plain_menu() -> Menu {
    Menu::from_cards(&[
        Card::Tea,
        Card::SoySauce,
        Card::Wasabi,
        Card::Chopsticks(1),
        Card::Chopsticks(2),
        Card::Spoon(4),
        Card::Uramaki(3),
        Card::Uramaki(4),
        Card::Uramaki(5),
    ])
}

#[test]
fn a_game_of_cards_without_a_rule_scores_nothing() {
    let menu = plain_menu();
    assert_eq!(CardSet::from_menu(&menu, 2, 1).unwrap().len(), 24);
    let mut rng = RandomSource::seeded(3);
    assert_eq!(simulate(&menu, &mut Table::<2>, &mut rng), Ok(vec![0, 0]));
}

#[test]
fn fruit_on_the_menu_costs_a_seat_without_fruit_in_every_pass() {
    // No fruit card is printed, so each of the three fruits costs every seat 2
    // points in each round and once more with the desserts.
    let mut menu = plain_menu();
    menu.insert(Card::Fruit(1, 1, 0));
    let mut rng = RandomSource::seeded(3);
    assert_eq!(simulate(&menu, &mut Table::<2>, &mut rng), Ok(vec![-24, -24]));
}

#[test]
fn pudding_at_two_seats_pays_the_most_in_every_pass() {
    // Pudding at two seats pays 6 for the most and nothing for the fewest, in
    // each round and once more with the desserts: a seat gets 0 or 6 in each
    // of four passes, and in each pass at least one seat gets 6.
    let mut menu = plain_menu();
    menu.insert(Card::Pudding);
    for seed in 0..10 {
        let mut rng = RandomSource::seeded(seed);
        let scores = simulate(&menu, &mut Table::<2>, &mut rng).unwrap();
        assert!(scores.iter().all(|score| [0, 6, 12, 18, 24].contains(score)));
        assert!(scores[0] + scores[1] >= 24);
    }
}

#[test]
fn a_game_refuses_what_cannot_be_played() {
    let mut rng = RandomSource::seeded(1);
    assert_eq!(
        simulate(&first_meal(), &mut Table::<1>, &mut rng),
        Err(GameError::ConfigurationError)
    );
    assert_eq!(
        simulate(&first_meal(), &mut Table::<9>, &mut rng),
        Err(GameError::ConfigurationError)
    );
    assert_eq!(
        simulate(&Menu::new(), &mut four_nigiri_players(), &mut rng),
        Err(GameError::ConfigurationError)
    );
    let small = Menu::from_cards(&[Card::Temaki, Card::Tea]);
    assert_eq!(
        simulate(&small, &mut four_nigiri_players(), &mut rng),
        Err(GameError::ConfigurationError)
    );
    let mut unknown = first_meal();
    unknown.insert(Card::Maki(4));
    assert_eq!(
        simulate(&unknown, &mut four_nigiri_players(), &mut rng),
        Err(GameError::ConfigurationError)
    );
}

#[test]
fn a_game_ends_where_a_seat_names_a_card_it_does_not_hold() {
    let mut rng = RandomSource::seeded(1);
    assert_eq!(
        simulate(&first_meal(), &mut (FirstCard, FirstCard, Cheat, FirstCard), &mut rng),
        Err(GameError::StrategyContractViolation)
    );
    assert_eq!(
        simulate(&first_meal(), &mut Silent, &mut rng),
        Err(GameError::StrategyContractViolation)
    );
}

#[test]
fn a_game_ends_where_a_card_that_stands_for_a_choice_is_played() {
    let mut menu = first_meal();
    menu.insert(Card::SpecialOrder);
    let mut rng = RandomSource::seeded(1);
    assert_eq!(
        simulate(&menu, &mut Table::<8>, &mut rng),
        Err(GameError::InternalInvariantViolation)
    );
}

#[test]
fn preferred_cards_come_first() {
    let mut rng = RandomSource::seeded(1);
    let piles: Vec<CardVec> = vec![vec![], vec![], vec![]];
    let hand = CardSet::new()
        .with_cards(Card::Tea, 3)
        .with_cards(Card::Nigiri(1), 1)
        .with_cards(Card::Wasabi, 1)
        .with_cards(Card::Nigiri(3), 1);
    assert_eq!(PreferedCardsPlayer::new_best_nigiri().play(&hand, 0, &piles, &mut rng), Card::Nigiri(3));
    assert_eq!(
        PreferedCardsPlayer::new_wasabi_best_nigiri().play(&hand, 0, &piles, &mut rng),
        Card::Wasabi
    );
    assert_eq!(PreferedCardsPlayer::new_nigiri_master().play(&hand, 0, &piles, &mut rng), Card::Nigiri(3));
    let lesser = CardSet::new().with_cards(Card::Tea, 3).with_cards(Card::Nigiri(1), 1).with_cards(
        Card::Wasabi,
        1,
    );
    assert_eq!(PreferedCardsPlayer::new_best_nigiri().play(&lesser, 0, &piles, &mut rng), Card::Nigiri(1));
    assert_eq!(PreferedCardsPlayer::new_nigiri_master().play(&lesser, 0, &piles, &mut rng), Card::Wasabi);
    assert_eq!(
        PreferedCardsPlayer::new(vec![Card::Eel, Card::Tea]).play(&lesser, 2, &piles, &mut rng),
        Card::Tea
    );
}

#[test]
fn without_a_preferred_card_any_card_of_the_hand_is_played() {
    let mut rng = RandomSource::seeded(1);
    let piles: Vec<CardVec> = vec![vec![], vec![]];
    let hand = CardSet::new().with_cards(Card::Tea, 3).with_cards(Card::Eel, 1);
    let mut player = PreferedCardsPlayer::new_best_nigiri();
    let mut random = RandomPlayer::default();
    let mut seen_tea = false;
    let mut seen_eel = false;
    for _ in 0..200 {
        for card in [player.play(&hand, 0, &piles, &mut rng), random.play(&hand, 1, &piles, &mut rng)] {
            assert!(hand.contains_card(card));
            seen_tea |= card == Card::Tea;
            seen_eel |= card == Card::Eel;
        }
    }
    assert!(seen_tea && seen_eel);
}

/// Four seats that play the first or the last card of their hand by turns
/// and keep what every seat was shown and what it answered.
struct Recorder {
    shown: Vec<(usize, usize, Vec<usize>, usize)>,
    answers: Vec<Vec<Card>>,
}

impl Players for Recorder {
    const COUNT: usize = 4;

    fn play(
        &mut self,
        hands: &HandsView,
        played_cards: &[CardVec],
        output: &mut Vec<Option<Card>>,
        rng: &mut RandomSource,
    ) {
        for seat in 0..4 {
            let hand = hands.get_hand(seat);
            let lengths = played_cards.iter().map(|pile| pile.len()).collect();
            self.shown.push((seat, hand.len(), lengths, played_cards.len()));
            let card = if seat % 2 == 0 {
                FirstCard.play(hand, seat, played_cards, rng)
            } else {
                LastCard.play(hand, seat, played_cards, rng)
            };
            self.answers[seat].push(card);
            output[seat] = Some(card);
        }
    }
}

#[test]
fn the_totals_are_the_points_of_three_rounds_and_of_the_desserts() {
    let mut menu = first_meal();
    menu.insert(Card::Pudding);
    menu.insert(Card::Temaki);
    for seed in 0..5 {
        let mut rng = RandomSource::seeded(seed);
        let mut players = Recorder { shown: vec![], answers: vec![vec![]; 4] };
        let totals = simulate(&menu, &mut players, &mut rng).unwrap();
        let mut expected = vec![0isize; 4];
        let mut stash: Vec<CardVec> = vec![vec![]; 4];
        for round in 0..3 {
            let piles: Vec<CardVec> =
                players.answers.iter().map(|all| all[round * 9..(round + 1) * 9].to_vec()).collect();
            let mut points = sushi_sim::points::PointCalculator::with_capacity(4, 0);
            assert_eq!(points.apply_cards(&piles), Ok(()));
            for (seat, gained) in points.calculate_points(&menu, true).iter().enumerate() {
                expected[seat] += gained;
            }
            for seat in 0..4 {
                stash[seat].extend(piles[seat].iter().filter(|card| card.is_dessert()));
            }
        }
        let mut points = sushi_sim::points::PointCalculator::with_capacity(4, 0);
        assert_eq!(points.apply_cards(&stash), Ok(()));
        for (seat, gained) in points.calculate_points(&menu, true).iter().enumerate() {
            expected[seat] += gained;
        }
        assert_eq!(totals, expected);
    }
}

#[test]
fn every_seat_is_asked_once_a_turn_and_shown_the_round_so_far() {
    let mut rng = RandomSource::seeded(8);
    let mut players = Recorder { shown: vec![], answers: vec![vec![]; 4] };
    assert!(simulate(&first_meal(), &mut players, &mut rng).is_ok());
    assert_eq!(players.shown.len(), 3 * 9 * 4);
    assert!(players.answers.iter().all(|all| all.len() == 27));
    for (asked, (seat, hand_len, lengths, piles)) in players.shown.iter().enumerate() {
        let turn = (asked / 4) % 9;
        assert_eq!(*seat, asked % 4);
        assert_eq!(*hand_len, 9 - turn);
        assert_eq!(*piles, 4);
        assert_eq!(*lengths, vec![turn; 4]);
    }
}
