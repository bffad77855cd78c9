//! A rule and simulation engine for a hand-passing sushi card game: the card
//! catalog, the bag of cards a seat holds, the rotation of hands between
//! seats, the scoring rules and the round-by-round simulation, each with a
//! machine-checked contract.

pub mod error;
pub mod cards;
pub mod menu;
pub mod random;
pub mod card_set;
pub mod hands;
pub mod tally;
pub mod points;
pub mod players;
pub mod round;
pub mod simulation;
pub mod stats;
