//! The rules of a Liar's Bar card table: seating, dealing from a 52-card deck, playing cards
//! face down, calling a lie, and the revolver that settles each call.

pub mod constant;
pub mod error;
pub mod helpers;
pub mod instructions;
pub mod state;
