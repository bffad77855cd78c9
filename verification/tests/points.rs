use sushi_sim::cards::{Card, Menu};
use sushi_sim::error::GameError;
use sushi_sim::points::PointCalculator;
use sushi_sim::tally::PointCalculatorPlayerState;

fn copies(card: Card, n: usize) -> Vec<Card> {
    vec![card; n]
}

fn score(menu: &Menu, piles: &[Vec<Card>]) -> Vec<isize> {
    let mut points = PointCalculator::with_capacity(piles.len(), 0);
    assert_eq!(points.apply_cards(piles), Ok(()));
    points.calculate_points(menu, true)
}

fn score_one(pile: Vec<Card>) -> isize {
    score(&Menu::new(), &[pile, vec![]])[0]
}

#[test]
fn nothing_played_scores_nothing() {
    assert_eq!(score(&Menu::new(), &[vec![], vec![], vec![]]), vec![0, 0, 0]);
    assert_eq!(score(&Menu::new(), &[]), Vec::<isize>::new());
}

#[test]
fn wasabi_triples_the_next_nigiri() {
    assert_eq!(score_one(vec![Card::Wasabi, Card::Nigiri(2)]), 6);
    assert_eq!(score_one(vec![Card::Nigiri(2)]), 2);
    assert_eq!(score_one(vec![Card::Wasabi, Card::Nigiri(2), Card::Nigiri(3)]), 9);
}

#[test]
fn wasabi_after_the_nigiri_comes_too_late() {
    assert_eq!(score_one(vec![Card::Nigiri(3), Card::Wasabi]), 3);
    assert_eq!(score_one(vec![Card::Wasabi]), 0);
}

#[test]
fn each_wasabi_serves_one_nigiri() {
    assert_eq!(
        score_one(vec![Card::Wasabi, Card::Wasabi, Card::Nigiri(1), Card::Nigiri(3), Card::Nigiri(2)]),
        3 + 9 + 2
    );
}

#[test]
fn maki_tiers_with_a_tie_at_the_top() {
    let piles = vec![
        vec![Card::Maki(3), Card::Maki(2)],
        vec![Card::Maki(2), Card::Maki(2), Card::Maki(1)],
        vec![Card::Maki(2)],
    ];
    assert_eq!(score(&Menu::new(), &piles), vec![6, 6, 3]);
}

#[test]
fn maki_pays_the_three_highest_totals() {
    let piles = vec![
        vec![Card::Maki(1)],
        vec![Card::Maki(3)],
        vec![Card::Maki(2)],
        vec![],
        vec![Card::Maki(3), Card::Maki(1)],
    ];
    assert_eq!(score(&Menu::new(), &piles), vec![0, 3, 0, 0, 6]);
    let six = vec![
        vec![Card::Maki(1)],
        vec![Card::Maki(3)],
        vec![Card::Maki(2)],
        vec![],
        vec![Card::Maki(3), Card::Maki(1)],
        vec![Card::Maki(3)],
    ];
    assert_eq!(score(&Menu::new(), &six), vec![0, 3, 0, 0, 6, 3]);
}

#[test]
fn maki_pays_nothing_without_maki() {
    assert_eq!(score(&Menu::new(), &[vec![Card::Tea], vec![], vec![Card::Tea]]), vec![0, 0, 0]);
    assert_eq!(score(&Menu::new(), &[vec![Card::Maki(1)], vec![]]), vec![6, 0]);
}

#[test]
fn pudding_most_and_fewest() {
    let menu = Menu::from_cards(&[Card::Pudding]);
    let piles = vec![
        copies(Card::Pudding, 3),
        copies(Card::Pudding, 3),
        copies(Card::Pudding, 1),
        vec![],
    ];
    assert_eq!(score(&menu, &piles), vec![6, 6, 0, -6]);
}

#[test]
fn pudding_for_two_seats_takes_nothing_from_the_fewest() {
    let menu = Menu::from_cards(&[Card::Pudding]);
    assert_eq!(score(&menu, &[copies(Card::Pudding, 2), vec![Card::Pudding]]), vec![6, 0]);
    assert_eq!(score(&menu, &[vec![], vec![Card::Pudding]]), vec![0, 6]);
}

#[test]
fn pudding_counts_only_with_pudding_on_the_menu() {
    let piles = vec![copies(Card::Pudding, 3), vec![], vec![Card::Pudding]];
    assert_eq!(score(&Menu::new(), &piles), vec![0, 0, 0]);
    assert_eq!(score(&Menu::from_cards(&[Card::Temaki]), &piles), vec![4, 4, 4]);
}

#[test]
fn all_seats_level_all_get_the_most() {
    let menu = Menu::from_cards(&[Card::Pudding, Card::Temaki]);
    assert_eq!(score(&menu, &[vec![], vec![], vec![]]), vec![10, 10, 10]);
}

#[test]
fn temaki_most_and_fewest() {
    let menu = Menu::from_cards(&[Card::Temaki]);
    let piles = vec![copies(Card::Temaki, 2), vec![Card::Temaki], vec![], copies(Card::Temaki, 2)];
    assert_eq!(score(&menu, &piles), vec![4, 0, -4, 4]);
    assert_eq!(score(&menu, &[vec![Card::Temaki], vec![]]), vec![4, 0]);
    assert_eq!(score(&Menu::new(), &piles), vec![0, 0, 0, 0]);
}

#[test]
fn dumplings_by_count() {
    let expected = [0, 1, 3, 6, 10, 15, 15, 15];
    for (count, points) in expected.iter().enumerate() {
        assert_eq!(score_one(copies(Card::Dumpling, count)), *points);
    }
}

#[test]
fn eel_by_count() {
    let expected = [0, -3, 7, 7, 7];
    for (count, points) in expected.iter().enumerate() {
        assert_eq!(score_one(copies(Card::Eel, count)), *points);
    }
}

#[test]
fn tofu_spoils_from_the_third() {
    let expected = [0, 2, 6, 0, 0, 0];
    for (count, points) in expected.iter().enumerate() {
        assert_eq!(score_one(copies(Card::Tofu, count)), *points);
    }
}

#[test]
fn onigiri_by_different_shapes() {
    let a = Card::Onigiri(false, false);
    let b = Card::Onigiri(false, true);
    let c = Card::Onigiri(true, false);
    let d = Card::Onigiri(true, true);
    assert_eq!(score_one(vec![]), 0);
    assert_eq!(score_one(vec![a]), 1);
    assert_eq!(score_one(vec![a, a, a]), 1);
    assert_eq!(score_one(vec![a, b]), 4);
    assert_eq!(score_one(vec![d, c]), 4);
    assert_eq!(score_one(vec![a, b, a, c]), 9);
    assert_eq!(score_one(vec![a, b, c, d]), 16);
    assert_eq!(score_one(vec![d, d, c, c, b, b, a, a]), 16);
}

#[test]
fn flat_and_set_rules() {
    assert_eq!(score_one(copies(Card::MisoSoup, 4)), 12);
    assert_eq!(score_one(copies(Card::TakeoutBox(10), 3)), 6);
    assert_eq!(score_one(vec![Card::TakeoutBox(10), Card::TakeoutBox(12)]), 4);
    let sashimi = [0, 0, 0, 10, 10, 10, 20, 20];
    for (count, points) in sashimi.iter().enumerate() {
        assert_eq!(score_one(copies(Card::Sashimi, count)), *points);
    }
    let tempura = [0, 0, 5, 5, 10, 10, 15];
    for (count, points) in tempura.iter().enumerate() {
        assert_eq!(score_one(copies(Card::Tempura, count)), *points);
    }
    let ice_cream = [0, 0, 0, 0, 12, 12, 12, 12, 24];
    for (count, points) in ice_cream.iter().enumerate() {
        assert_eq!(score_one(copies(Card::GreenTeaIceCream, count)), *points);
    }
}

#[test]
fn edamame_by_seats_that_have_some() {
    let e = Card::Edamame;
    assert_eq!(score(&Menu::new(), &[copies(e, 3), vec![]]), vec![0, 0]);
    assert_eq!(score(&Menu::new(), &[copies(e, 3), vec![e]]), vec![3, 1]);
    assert_eq!(score(&Menu::new(), &[copies(e, 2), vec![e], vec![e], vec![]]), vec![4, 2, 2, 0]);
    assert_eq!(
        score(&Menu::new(), &[copies(e, 2), vec![e], vec![e], vec![e], vec![]]),
        vec![6, 3, 3, 3, 0]
    );
    assert_eq!(
        score(&Menu::new(), &[copies(e, 2), vec![e], vec![e], vec![e], vec![e], vec![]]),
        vec![8, 4, 4, 4, 4, 0]
    );
    assert_eq!(
        score(
            &Menu::new(),
            &[copies(e, 2), vec![e], vec![e], vec![e], vec![e], vec![e], vec![e], vec![e]]
        ),
        vec![8, 4, 4, 4, 4, 4, 4, 4]
    );
}

#[test]
fn fruit_by_kind() {
    let menu = Menu::from_cards(&[Card::Fruit(2, 0, 0)]);
    assert_eq!(score(&menu, &[vec![], vec![]]), vec![-6, -6]);
    assert_eq!(score(&menu, &[vec![Card::Fruit(1, 1, 0)], vec![]])[0], 0 + 0 - 2);
    assert_eq!(score(&menu, &[vec![Card::Fruit(2, 0, 0)], vec![]])[0], 1 - 2 - 2);
    assert_eq!(
        score(&menu, &[vec![Card::Fruit(2, 0, 0), Card::Fruit(1, 1, 0)], vec![]])[0],
        3 + 0 - 2
    );
    assert_eq!(
        score(
            &menu,
            &[vec![Card::Fruit(2, 0, 0), Card::Fruit(2, 0, 0), Card::Fruit(0, 1, 1)], vec![]]
        )[0],
        6 + 0 + 0
    );
    assert_eq!(
        score(
            &menu,
            &[
                vec![
                    Card::Fruit(2, 0, 0),
                    Card::Fruit(2, 0, 0),
                    Card::Fruit(1, 0, 1),
                    Card::Fruit(1, 0, 1),
                    Card::Fruit(0, 2, 0),
                ],
                vec![]
            ]
        )[0],
        10 + 1 + 1
    );
    assert_eq!(score(&Menu::new(), &[vec![Card::Fruit(2, 0, 0)], vec![]]), vec![0, 0]);
}

#[test]
fn cards_without_a_rule_score_nothing() {
    assert_eq!(
        score_one(vec![
            Card::Uramaki(5),
            Card::Uramaki(5),
            Card::SoySauce,
            Card::Tea,
            Card::Chopsticks(1),
            Card::Spoon(4),
            Card::Wasabi,
        ]),
        0
    );
}

#[test]
fn rules_add_up() {
    let menu = Menu::from_cards(&[Card::Temaki, Card::Pudding]);
    let piles = vec![
        vec![
            Card::Wasabi,
            Card::Nigiri(3),
            Card::Maki(2),
            Card::Dumpling,
            Card::Dumpling,
            Card::Eel,
            Card::Tempura,
            Card::Tempura,
            Card::MisoSoup,
            Card::Pudding,
        ],
        vec![Card::Maki(3), Card::Temaki, Card::Tofu, Card::Sashimi],
        vec![Card::Edamame, Card::Nigiri(1)],
    ];
    assert_eq!(
        score(&menu, &piles),
        vec![9 + 3 + 3 - 3 + 5 + 3 + 6 - 4, 6 + 4 + 2 - 6, 0 + 1 - 4 - 6]
    );
}

#[test]
fn apply_card_counts_for_one_seat() {
    let mut points = PointCalculator::with_capacity(3, 0);
    assert_eq!(points.seats(), 3);
    assert_eq!(points.apply_card(1, Card::Wasabi), Ok(()));
    assert_eq!(points.apply_card(1, Card::Nigiri(3)), Ok(()));
    assert_eq!(points.apply_card(2, Card::Nigiri(3)), Ok(()));
    assert_eq!(points.calculate_points(&Menu::new(), false), vec![0, 9, 3]);
}

#[test]
fn apply_cards_goes_as_far_as_seats_and_piles_go() {
    let mut points = PointCalculator::with_capacity(3, 0);
    assert_eq!(points.apply_cards(&[vec![Card::MisoSoup], vec![Card::MisoSoup; 2]]), Ok(()));
    assert_eq!(points.calculate_points(&Menu::new(), true), vec![3, 6, 0]);
    let mut narrow = PointCalculator::with_capacity(1, 0);
    assert_eq!(narrow.apply_cards(&[vec![Card::MisoSoup], vec![Card::MisoSoup; 2]]), Ok(()));
    assert_eq!(narrow.calculate_points(&Menu::new(), true), vec![3]);
}

#[test]
fn apply_cards_adds_to_what_was_counted() {
    let mut points = PointCalculator::with_capacity(2, 0);
    assert_eq!(points.apply_cards(&[vec![Card::Wasabi], vec![Card::Dumpling]]), Ok(()));
    assert_eq!(points.apply_cards(&[vec![Card::Nigiri(2)], vec![Card::Dumpling]]), Ok(()));
    assert_eq!(points.calculate_points(&Menu::new(), true), vec![6, 3]);
}

#[test]
fn cards_that_stand_for_a_choice_are_refused() {
    let mut points = PointCalculator::with_capacity(2, 0);
    assert_eq!(points.apply_card(0, Card::MisoSoup), Ok(()));
    assert_eq!(points.apply_card(0, Card::SpecialOrder), Err(GameError::InternalInvariantViolation));
    assert_eq!(points.apply_card(1, Card::Menu(7)), Err(GameError::InternalInvariantViolation));
    assert_eq!(
        points.apply_cards(&[vec![Card::MisoSoup], vec![Card::MisoSoup, Card::Menu(8)]]),
        Err(GameError::InternalInvariantViolation)
    );
    assert_eq!(
        points.apply_cards(&[vec![Card::SpecialOrder, Card::MisoSoup], vec![]]),
        Err(GameError::InternalInvariantViolation)
    );
    assert_eq!(points.calculate_points(&Menu::new(), true), vec![3, 0]);
}

#[test]
fn uramaki_scores_from_ten() {
    let mut points = PointCalculator::with_capacity(4, 0);
    assert_eq!(points.has_uramaki_scores(), 0);
    let piles = vec![
        vec![Card::Uramaki(5), Card::Uramaki(5)],
        vec![Card::Uramaki(5), Card::Uramaki(4)],
        vec![Card::Uramaki(3), Card::Uramaki(3), Card::Uramaki(4), Card::Uramaki(3)],
        vec![],
    ];
    assert_eq!(points.apply_cards(&piles), Ok(()));
    assert_eq!(points.has_uramaki_scores(), 2);
}

#[test]
fn one_seat_counts_its_cards() {
    let mut state = PointCalculatorPlayerState::new();
    assert_eq!(state.apply_card(Card::Wasabi), Ok(()));
    assert_eq!(state.apply_card(Card::Nigiri(2)), Ok(()));
    assert_eq!(state.apply_card(Card::Nigiri(1)), Ok(()));
    assert_eq!(state.nigiri_points(), 7);
    assert_eq!(state.apply_card(Card::Menu(9)), Err(GameError::InternalInvariantViolation));
    assert_eq!(
        state.apply_cards(&vec![Card::Maki(2), Card::SpecialOrder]),
        Err(GameError::InternalInvariantViolation)
    );
    assert_eq!(state.maki_score(), 0);
    assert_eq!(
        state.apply_cards(&vec![
            Card::Maki(2),
            Card::Maki(3),
            Card::Temaki,
            Card::Onigiri(true, true),
            Card::Onigiri(true, true),
            Card::Onigiri(false, true),
            Card::Fruit(1, 0, 1),
            Card::Fruit(0, 0, 2),
            Card::Uramaki(5),
            Card::Uramaki(4),
        ]),
        Ok(())
    );
    assert_eq!(state.maki_score(), 5);
    assert_eq!(state.temaki_count(), 1);
    assert_eq!(state.onigiri_shapes(), 2);
    assert_eq!(state.fruits_counts(), (1, 0, 3));
    assert!(!state.has_uramaki_score());
    assert_eq!(state.apply_card(Card::Uramaki(3)), Ok(()));
    assert!(state.has_uramaki_score());
}
