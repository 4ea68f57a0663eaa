use vstd::prelude::*;

verus! {

/// Most players that a table account has room for.
pub const MAX_PLAYERS: usize = 5;

/// Cards each player holds at the start of a round, and cards dealt per shuffle.
pub const CARDS_PER_PLAYER: u8 = 5;

/// Chambers of the revolver each player starts a game with.
pub const REVOLVER_CHAMBERS: u8 = 6;

/// Shapes (suits) of the deck: the rows of `LiarsTable::deck`.
pub const DECK_SHAPES: usize = 4;

/// Values per shape: the length of each deck row.
pub const DECK_VALUES: usize = 13;

} // verus!
