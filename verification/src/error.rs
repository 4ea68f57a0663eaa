use vstd::prelude::*;

verus! {

/// The ways an instruction of the game can be refused.
#[derive(Clone, Copy, Debug, PartialEq, Eq, Structural)]
pub enum LiarsBarsError {
    /// Table Already Initialized
    TableAlreadyInitialized,
    /// Table is full please join other table
    TableIsFull,
    /// Not your turn to shuffle
    NotYourTrunSuffle,
    /// Not your turn to play
    NotYourTrun,
    /// You are not eligible for this call
    NotEligible,
    /// Too few players at the table to start a round
    NeedTwoPlayer,
    /// Cards are played only once every player has been dealt
    ShuffleNotComplete,
}

} // verus!
