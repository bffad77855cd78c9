use sushi_sim::cards::{get_cards_per_player, has_fruit, Card, CardColor, Menu};
use sushi_sim::error::GameError;

#[test]
fn desserts_are_the_three_dessert_kinds() {
    assert!(Card::GreenTeaIceCream.is_dessert());
    assert!(Card::Pudding.is_dessert());
    assert!(Card::Fruit(1, 1, 0).is_dessert());
    assert!(!Card::Nigiri(1).is_dessert());
    assert!(!Card::Wasabi.is_dessert());
    assert!(!Card::Tea.is_dessert());
    assert!(!Card::SpecialOrder.is_dessert());
}

#[test]
fn colors_by_kind() {
    assert_eq!(Card::Nigiri(2).get_color(), CardColor::NigiriYellow);
    assert_eq!(Card::Wasabi.get_color(), CardColor::NigiriYellow);
    assert_eq!(Card::Maki(3).get_color(), CardColor::MakiRed);
    assert_eq!(Card::Temaki.get_color(), CardColor::TemakiPurple);
    assert_eq!(Card::Uramaki(4).get_color(), CardColor::UramakiGreen);
    assert_eq!(Card::Dumpling.get_color(), CardColor::DumplingBlue);
    assert_eq!(Card::Edamame.get_color(), CardColor::EdamamePurple);
    assert_eq!(Card::Eel.get_color(), CardColor::EelPurple);
    assert_eq!(Card::Onigiri(true, false).get_color(), CardColor::OnigiriPink);
    assert_eq!(Card::MisoSoup.get_color(), CardColor::MisoGreen);
    assert_eq!(Card::Sashimi.get_color(), CardColor::SashimiGreen);
    assert_eq!(Card::Tempura.get_color(), CardColor::TempuraPurple);
    assert_eq!(Card::Tofu.get_color(), CardColor::TofuGreen);
    assert_eq!(Card::Chopsticks(1).get_color(), CardColor::ChopsticksBlue);
    assert_eq!(Card::Menu(7).get_color(), CardColor::MenuYellow);
    assert_eq!(Card::SoySauce.get_color(), CardColor::SoySauceOrange);
    assert_eq!(Card::Spoon(4).get_color(), CardColor::SpoonGrey);
    assert_eq!(Card::SpecialOrder.get_color(), CardColor::SpecialOrderRainbow);
    assert_eq!(Card::TakeoutBox(10).get_color(), CardColor::TakeoutBoxBrown);
    assert_eq!(Card::Tea.get_color(), CardColor::TeaBrown);
    assert_eq!(Card::GreenTeaIceCream.get_color(), CardColor::IceCreamBlue);
    assert_eq!(Card::Fruit(2, 0, 0).get_color(), CardColor::FruitPink);
    assert_eq!(Card::Pudding.get_color(), CardColor::PuddingPink);
}

#[test]
fn print_counts_of_the_fixed_kinds() {
    for players in 2..=8 {
        for round in 1..=3 {
            assert_eq!(Card::Nigiri(1).get_count(players, round), Ok(4));
            assert_eq!(Card::Nigiri(2).get_count(players, round), Ok(5));
            assert_eq!(Card::Nigiri(3).get_count(players, round), Ok(3));
            assert_eq!(Card::Maki(1).get_count(players, round), Ok(4));
            assert_eq!(Card::Maki(2).get_count(players, round), Ok(5));
            assert_eq!(Card::Maki(3).get_count(players, round), Ok(3));
            assert_eq!(Card::Temaki.get_count(players, round), Ok(12));
            assert_eq!(Card::Uramaki(3).get_count(players, round), Ok(4));
            assert_eq!(Card::Uramaki(4).get_count(players, round), Ok(4));
            assert_eq!(Card::Uramaki(5).get_count(players, round), Ok(4));
            assert_eq!(Card::Dumpling.get_count(players, round), Ok(8));
            assert_eq!(Card::Edamame.get_count(players, round), Ok(8));
            assert_eq!(Card::Eel.get_count(players, round), Ok(8));
            assert_eq!(Card::MisoSoup.get_count(players, round), Ok(8));
            assert_eq!(Card::Sashimi.get_count(players, round), Ok(8));
            assert_eq!(Card::Tempura.get_count(players, round), Ok(8));
            assert_eq!(Card::Tofu.get_count(players, round), Ok(8));
            assert_eq!(Card::Onigiri(false, true).get_count(players, round), Ok(2));
            assert_eq!(Card::Chopsticks(2).get_count(players, round), Ok(1));
            assert_eq!(Card::Menu(8).get_count(players, round), Ok(1));
            assert_eq!(Card::Spoon(5).get_count(players, round), Ok(1));
            assert_eq!(Card::TakeoutBox(11).get_count(players, round), Ok(1));
            assert_eq!(Card::SoySauce.get_count(players, round), Ok(3));
            assert_eq!(Card::SpecialOrder.get_count(players, round), Ok(3));
            assert_eq!(Card::Tea.get_count(players, round), Ok(3));
            assert_eq!(Card::Wasabi.get_count(players, round), Ok(3));
            assert_eq!(Card::Fruit(1, 0, 1).get_count(players, round), Ok(0));
        }
    }
}

#[test]
fn print_counts_of_the_desserts_fall_with_the_round() {
    for players in 2..=5 {
        assert_eq!(Card::GreenTeaIceCream.get_count(players, 1), Ok(5));
        assert_eq!(Card::GreenTeaIceCream.get_count(players, 2), Ok(3));
        assert_eq!(Card::GreenTeaIceCream.get_count(players, 3), Ok(2));
        assert_eq!(Card::Pudding.get_count(players, 1), Ok(5));
        assert_eq!(Card::Pudding.get_count(players, 2), Ok(3));
        assert_eq!(Card::Pudding.get_count(players, 3), Ok(2));
    }
    for players in 6..=8 {
        assert_eq!(Card::GreenTeaIceCream.get_count(players, 1), Ok(7));
        assert_eq!(Card::GreenTeaIceCream.get_count(players, 2), Ok(5));
        assert_eq!(Card::GreenTeaIceCream.get_count(players, 3), Ok(3));
        assert_eq!(Card::Pudding.get_count(players, 1), Ok(7));
        assert_eq!(Card::Pudding.get_count(players, 2), Ok(5));
        assert_eq!(Card::Pudding.get_count(players, 3), Ok(3));
    }
}

#[test]
fn print_count_refuses_what_the_catalog_lacks() {
    assert_eq!(Card::Temaki.get_count(1, 1), Err(GameError::ConfigurationError));
    assert_eq!(Card::Temaki.get_count(9, 1), Err(GameError::ConfigurationError));
    assert_eq!(Card::Temaki.get_count(0, 2), Err(GameError::ConfigurationError));
    assert_eq!(Card::Temaki.get_count(4, 0), Err(GameError::ConfigurationError));
    assert_eq!(Card::Temaki.get_count(4, 4), Err(GameError::ConfigurationError));
    assert_eq!(Card::Pudding.get_count(4, 4), Err(GameError::ConfigurationError));
    assert_eq!(Card::Nigiri(0).get_count(4, 1), Err(GameError::ConfigurationError));
    assert_eq!(Card::Nigiri(4).get_count(4, 1), Err(GameError::ConfigurationError));
    assert_eq!(Card::Maki(0).get_count(4, 1), Err(GameError::ConfigurationError));
    assert_eq!(Card::Maki(4).get_count(4, 1), Err(GameError::ConfigurationError));
    assert_eq!(Card::Uramaki(2).get_count(4, 1), Err(GameError::ConfigurationError));
    assert_eq!(Card::Uramaki(6).get_count(4, 1), Err(GameError::ConfigurationError));
}

#[test]
fn cards_per_player_by_seat_count() {
    assert_eq!(get_cards_per_player(2), Ok(10));
    assert_eq!(get_cards_per_player(3), Ok(10));
    assert_eq!(get_cards_per_player(4), Ok(9));
    assert_eq!(get_cards_per_player(5), Ok(9));
    assert_eq!(get_cards_per_player(6), Ok(8));
    assert_eq!(get_cards_per_player(7), Ok(8));
    assert_eq!(get_cards_per_player(8), Ok(7));
}

#[test]
fn cards_per_player_refuses_other_seat_counts() {
    assert_eq!(get_cards_per_player(0), Err(GameError::ConfigurationError));
    assert_eq!(get_cards_per_player(1), Err(GameError::ConfigurationError));
    assert_eq!(get_cards_per_player(9), Err(GameError::ConfigurationError));
    assert_eq!(get_cards_per_player(usize::MAX), Err(GameError::ConfigurationError));
}

#[test]
fn menu_lists_each_card_once() {
    let menu = Menu::from_cards(&[Card::Tea, Card::Wasabi, Card::Tea, Card::Nigiri(1)]);
    assert_eq!(menu.len(), 3);
    assert_eq!(menu.card(0), Card::Tea);
    assert_eq!(menu.card(1), Card::Wasabi);
    assert_eq!(menu.card(2), Card::Nigiri(1));
    assert!(menu.contains(&Card::Tea));
    assert!(menu.contains(&Card::Nigiri(1)));
    assert!(!menu.contains(&Card::Nigiri(2)));
    assert!(!menu.contains(&Card::Pudding));
}

#[test]
fn menu_insert_says_whether_the_card_was_new() {
    let mut menu = Menu::new();
    assert_eq!(menu.len(), 0);
    assert!(!menu.contains(&Card::Eel));
    assert!(menu.insert(Card::Eel));
    assert!(menu.contains(&Card::Eel));
    assert!(!menu.insert(Card::Eel));
    assert_eq!(menu.len(), 1);
    assert!(menu.insert(Card::Tofu));
    assert_eq!(menu.len(), 2);
}

#[test]
fn has_fruit_looks_for_any_fruit_card() {
    assert!(!has_fruit(&Menu::new()));
    assert!(!has_fruit(&Menu::from_cards(&[Card::Pudding, Card::GreenTeaIceCream])));
    assert!(has_fruit(&Menu::from_cards(&[Card::Pudding, Card::Fruit(0, 0, 2)])));
    assert!(has_fruit(&Menu::from_cards(&[Card::Fruit(1, 1, 0)])));
}
