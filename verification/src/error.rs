//! The faults a game can end with.

use vstd::prelude::*;

verus! {

/// Why a game could not be carried through. None of these is retried: a game
/// is one unit of work, and a fault ends it.
#[derive(Clone, Copy, Debug, PartialEq, Eq, Structural)]
pub enum GameError {
    /// The seat count, the round, the menu or the deck built from them is not
    /// one the catalog provides for.
    ConfigurationError,
    /// A strategy named a card that its hand does not hold, or named none.
    StrategyContractViolation,
    /// A card that only stands for a choice reached the table.
    InternalInvariantViolation,
}

} // verus!
