//! The card catalog: kinds, colours and print counts.

use vstd::prelude::*;
use crate::error::GameError;
pub use crate::card_set::{CardSet, CardVec};
pub use crate::menu::{has_fruit, Menu};

verus! {

/// The colour class printed on a card. Scoring does not read it.
#[derive(Clone, Copy, Debug, PartialEq, Eq, Hash, Structural)]
pub enum CardColor {
    NigiriYellow,
    MakiRed,
    TemakiPurple,
    UramakiGreen,
    DumplingBlue,
    EdamamePurple,
    EelPurple,
    OnigiriPink,
    MisoGreen,
    SashimiGreen,
    TempuraPurple,
    TofuGreen,
    ChopsticksBlue,
    MenuYellow,
    SoySauceOrange,
    SpoonGrey,
    SpecialOrderRainbow,
    TakeoutBoxBrown,
    TeaBrown,
    IceCreamBlue,
    FruitPink,
    PuddingPink,
}

/// A card, identified by its kind and payload: two copies of one card are
/// interchangeable.
#[derive(Clone, Copy, Debug, PartialEq, Eq, Hash, Structural)]
pub enum Card {
    /// Rank 1 is egg, 2 salmon, 3 squid.
    Nigiri(usize),
    /// The number of rolls shown, 1 to 3.
    Maki(usize),
    Temaki,
    /// The number of rolls shown, 3 to 5.
    Uramaki(usize),
    Dumpling,
    Edamame,
    Eel,
    /// One of four shapes, named by two flags.
    Onigiri(bool, bool),
    MisoSoup,
    Sashimi,
    Tempura,
    Tofu,
    Chopsticks(usize),
    Menu(usize),
    SoySauce,
    Spoon(usize),
    SpecialOrder,
    TakeoutBox(usize),
    Tea,
    Wasabi,
    GreenTeaIceCream,
    /// How many of each of the three fruits the card shows.
    Fruit(usize, usize, usize),
    Pudding,
}

/// Number of rounds in a game.
pub const ROUNDS_COUNT: usize = 3;

/// Whether the catalog provides for a game with `players` seats.
pub open spec fn valid_seat_count(players: int) -> bool {
    2 <= players <= 8
}

/// Whether `round` is one of the rounds of a game.
pub open spec fn valid_round(round: int) -> bool {
    1 <= round <= 3
}

/// Cards each seat is dealt at the start of a round.
pub open spec fn cards_per_player(players: int) -> int
    recommends
        valid_seat_count(players),
{
    if players <= 3 {
        10
    } else if players <= 5 {
        9
    } else if players <= 7 {
        8
    } else {
        7
    }
}

/// Copies of a dessert printed into the deck of `round`.
pub open spec fn dessert_count(players: int, round: int) -> int
    recommends
        valid_seat_count(players),
        valid_round(round),
{
    if players <= 5 {
        if round == 1 {
            5
        } else if round == 2 {
            3
        } else {
            2
        }
    } else {
        if round == 1 {
            7
        } else if round == 2 {
            5
        } else {
            3
        }
    }
}

impl Card {
    /// Desserts stay on the table until the game ends.
    pub open spec fn dessert(self) -> bool {
        self is GreenTeaIceCream || self is Fruit || self is Pudding
    }

    /// The colour class of each kind.
    pub open spec fn color(self) -> CardColor {
        match self {
            Card::Nigiri(_) | Card::Wasabi => CardColor::NigiriYellow,
            Card::Maki(_) => CardColor::MakiRed,
            Card::Temaki => CardColor::TemakiPurple,
            Card::Uramaki(_) => CardColor::UramakiGreen,
            Card::Dumpling => CardColor::DumplingBlue,
            Card::Edamame => CardColor::EdamamePurple,
            Card::Eel => CardColor::EelPurple,
            Card::Onigiri(_, _) => CardColor::OnigiriPink,
            Card::MisoSoup => CardColor::MisoGreen,
            Card::Sashimi => CardColor::SashimiGreen,
            Card::Tempura => CardColor::TempuraPurple,
            Card::Tofu => CardColor::TofuGreen,
            Card::Chopsticks(_) => CardColor::ChopsticksBlue,
            Card::Menu(_) => CardColor::MenuYellow,
            Card::SoySauce => CardColor::SoySauceOrange,
            Card::Spoon(_) => CardColor::SpoonGrey,
            Card::SpecialOrder => CardColor::SpecialOrderRainbow,
            Card::TakeoutBox(_) => CardColor::TakeoutBoxBrown,
            Card::Tea => CardColor::TeaBrown,
            Card::GreenTeaIceCream => CardColor::IceCreamBlue,
            Card::Fruit(_, _, _) => CardColor::FruitPink,
            Card::Pudding => CardColor::PuddingPink,
        }
    }

    /// Whether the catalog knows how many copies of this card to print.
    pub open spec fn priced(self) -> bool {
        match self {
            Card::Nigiri(rank) => 1 <= rank <= 3,
            Card::Maki(rolls) => 1 <= rolls <= 3,
            Card::Uramaki(rolls) => 3 <= rolls <= 5,
            _ => true,
        }
    }

    /// Copies of this card in the deck of `round` for `players` seats.
    pub open spec fn print_count(self, players: int, round: int) -> int
        recommends
            valid_seat_count(players),
            valid_round(round),
            self.priced(),
    {
        match self {
            Card::Nigiri(rank) => if rank == 1 {
                4
            } else if rank == 2 {
                5
            } else {
                3
            },
            Card::Maki(rolls) => if rolls == 1 {
                4
            } else if rolls == 2 {
                5
            } else {
                3
            },
            Card::Temaki => 12,
            Card::Uramaki(_) => 4,
            Card::Dumpling | Card::Edamame | Card::Eel | Card::MisoSoup | Card::Sashimi
            | Card::Tempura | Card::Tofu => 8,
            Card::Onigiri(_, _) => 2,
            Card::Chopsticks(_) | Card::Menu(_) | Card::Spoon(_) | Card::TakeoutBox(_) => 1,
            Card::SoySauce | Card::SpecialOrder | Card::Tea | Card::Wasabi => 3,
            Card::GreenTeaIceCream | Card::Pudding => dessert_count(players, round),
            Card::Fruit(_, _, _) => 0,
        }
    }

    pub fn is_dessert(self) -> (b: bool)
        ensures
            b == self.dessert(),
    {
        match self {
            Card::GreenTeaIceCream | Card::Fruit(_, _, _) | Card::Pudding => true,
            _ => false,
        }
    }

    pub fn get_color(self) -> (color: CardColor)
        ensures
            color == self.color(),
    {
        match self {
            Card::Nigiri(_) | Card::Wasabi => CardColor::NigiriYellow,
            Card::Maki(_) => CardColor::MakiRed,
            Card::Temaki => CardColor::TemakiPurple,
            Card::Uramaki(_) => CardColor::UramakiGreen,
            Card::Dumpling => CardColor::DumplingBlue,
            Card::Edamame => CardColor::EdamamePurple,
            Card::Eel => CardColor::EelPurple,
            Card::Onigiri(_, _) => CardColor::OnigiriPink,
            Card::MisoSoup => CardColor::MisoGreen,
            Card::Sashimi => CardColor::SashimiGreen,
            Card::Tempura => CardColor::TempuraPurple,
            Card::Tofu => CardColor::TofuGreen,
            Card::Chopsticks(_) => CardColor::ChopsticksBlue,
            Card::Menu(_) => CardColor::MenuYellow,
            Card::SoySauce => CardColor::SoySauceOrange,
            Card::Spoon(_) => CardColor::SpoonGrey,
            Card::SpecialOrder => CardColor::SpecialOrderRainbow,
            Card::TakeoutBox(_) => CardColor::TakeoutBoxBrown,
            Card::Tea => CardColor::TeaBrown,
            Card::GreenTeaIceCream => CardColor::IceCreamBlue,
            Card::Fruit(_, _, _) => CardColor::FruitPink,
            Card::Pudding => CardColor::PuddingPink,
        }
    }

    /// Copies of this card in the deck of `round` for `players` seats, or the
    /// configuration fault where the catalog has no such entry.
    pub fn get_count(self, players: usize, round: usize) -> (count: Result<usize, GameError>)
        ensures
            count is Ok <==> valid_seat_count(players as int) && valid_round(round as int)
                && self.priced(),
            count matches Ok(n) ==> n == self.print_count(players as int, round as int),
            count matches Err(e) ==> e == GameError::ConfigurationError,
    {
        if players < 2 || players > 8 || round < 1 || round > 3 {
            return Err(GameError::ConfigurationError);
        }
        let dessert_cards: usize = if players <= 5 {
            if round == 1 {
                5
            } else if round == 2 {
                3
            } else {
                2
            }
        } else {
            if round == 1 {
                7
            } else if round == 2 {
                5
            } else {
                3
            }
        };
        match self {
            Card::Nigiri(1) => Ok(4),
            Card::Nigiri(2) => Ok(5),
            Card::Nigiri(3) => Ok(3),
            Card::Maki(1) => Ok(4),
            Card::Maki(2) => Ok(5),
            Card::Maki(3) => Ok(3),
            Card::Temaki => Ok(12),
            Card::Uramaki(3) | Card::Uramaki(4) | Card::Uramaki(5) => Ok(4),
            Card::Dumpling | Card::Edamame | Card::Eel | Card::MisoSoup | Card::Sashimi
            | Card::Tempura | Card::Tofu => Ok(8),
            Card::Onigiri(_, _) => Ok(2),
            Card::Chopsticks(_) | Card::Menu(_) | Card::Spoon(_) | Card::TakeoutBox(_) => Ok(1),
            Card::SoySauce | Card::SpecialOrder | Card::Tea | Card::Wasabi => Ok(3),
            Card::GreenTeaIceCream | Card::Pudding => Ok(dessert_cards),
            Card::Fruit(_, _, _) => Ok(0),
            _ => Err(GameError::ConfigurationError),
        }
    }
}

/// Cards each seat is dealt at the start of a round, or the configuration
/// fault for a seat count outside 2 to 8.
pub fn get_cards_per_player(players: usize) -> (count: Result<usize, GameError>)
    ensures
        count is Ok <==> valid_seat_count(players as int),
        count matches Ok(n) ==> n == cards_per_player(players as int),
        count matches Err(e) ==> e == GameError::ConfigurationError,
{
    if players < 2 || players > 8 {
        Err(GameError::ConfigurationError)
    } else if players <= 3 {
        Ok(10)
    } else if players <= 5 {
        Ok(9)
    } else if players <= 7 {
        Ok(8)
    } else {
        Ok(7)
    }
}

} // verus!
