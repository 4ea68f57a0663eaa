use vstd::prelude::*;

use crate::constant::{CARDS_PER_PLAYER, REVOLVER_CHAMBERS};
use crate::error::LiarsBarsError;
use crate::helpers::{repeat_u8, repeated};
use crate::state::LiarsTable;

verus! {

/// Starts the game at a table that has at least one player: the table closes to new players,
/// every seat gets a full revolver and five cards. The caller then resets the round with a
/// fresh random number (`helpers::reset_round`).
pub fn handler(table: &mut LiarsTable) -> (res: Result<(), LiarsBarsError>)
    ensures
        old(table).players.len() < 1 ==> res == Err::<(), LiarsBarsError>(LiarsBarsError::NeedTwoPlayer)
            && *final(table) == *old(table),
        old(table).players.len() >= 1 ==> {
            &&& res == Ok::<(), LiarsBarsError>(())
            &&& final(table).remaining_bullet@ == repeated(REVOLVER_CHAMBERS, old(table).players.len() as nat)
            &&& final(table).player_cards_left@ == repeated(CARDS_PER_PLAYER, old(table).players.len() as nat)
            &&& *final(table) == (LiarsTable {
                is_open: false,
                is_over: false,
                remaining_bullet: final(table).remaining_bullet,
                player_cards_left: final(table).player_cards_left,
                ..*old(table)
            })
        },
{
    if table.players.len() < 1 {
        return Err(LiarsBarsError::NeedTwoPlayer);
    }
    table.is_open = false;
    table.is_over = false;
    table.remaining_bullet = repeat_u8(REVOLVER_CHAMBERS, table.players.len());
    table.player_cards_left = repeat_u8(CARDS_PER_PLAYER, table.players.len());
    Ok(())
}

} // verus!
