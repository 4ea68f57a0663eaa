use vstd::prelude::*;

use crate::constant::MAX_PLAYERS;
use crate::error::LiarsBarsError;
use crate::state::{LiarsTable, Player, PlayerKey};

verus! {

/// The game at the table has started: the table is closed to joining and the revolvers have
/// been handed out. A table that was never opened has no revolvers yet.
pub open spec fn game_started(table: LiarsTable) -> bool {
    !table.is_open && table.remaining_bullet.len() > 0
}

/// Seats `player` at the table. A full table refuses with `TableIsFull`; a table whose game
/// has started refuses with `NotEligible`.
pub fn join_table_handler(table: &mut LiarsTable, player: PlayerKey) -> (res: Result<(), LiarsBarsError>)
    ensures
        old(table).players.len() >= MAX_PLAYERS ==> res == Err::<(), LiarsBarsError>(
            LiarsBarsError::TableIsFull,
        ) && *final(table) == *old(table),
        old(table).players.len() < MAX_PLAYERS && game_started(*old(table)) ==> res == Err::<
            (),
            LiarsBarsError,
        >(LiarsBarsError::NotEligible) && *final(table) == *old(table),
        old(table).players.len() < MAX_PLAYERS && !game_started(*old(table)) ==> {
            &&& res == Ok::<(), LiarsBarsError>(())
            &&& final(table).players@ == old(table).players@.push(player)
            &&& *final(table) == (LiarsTable { players: final(table).players, ..*old(table) })
        },
        old(table).players.len() <= MAX_PLAYERS ==> final(table).players.len() <= MAX_PLAYERS,
{
    if table.players.len() >= MAX_PLAYERS {
        return Err(LiarsBarsError::TableIsFull);
    }
    if !table.is_open && table.remaining_bullet.len() > 0 {
        return Err(LiarsBarsError::NotEligible);
    }
    table.players.push(player);
    Ok(())
}

/// Joins the table `table_id` as `signer` under the name `character_id`: the signer is seated
/// as by `join_table_handler`, and on success the player's account takes the name and the
/// table and starts with an empty hand. A refused join changes neither account.
pub fn handler(
    table: &mut LiarsTable,
    player: &mut Player,
    signer: PlayerKey,
    table_id: u128,
    character_id: String,
) -> (res: Result<(), LiarsBarsError>)
    ensures
        old(table).players.len() >= MAX_PLAYERS ==> res == Err::<(), LiarsBarsError>(
            LiarsBarsError::TableIsFull,
        ),
        old(table).players.len() < MAX_PLAYERS && game_started(*old(table)) ==> res == Err::<
            (),
            LiarsBarsError,
        >(LiarsBarsError::NotEligible),
        res is Err ==> *final(table) == *old(table) && *final(player) == *old(player),
        res is Ok ==> {
            &&& old(table).players.len() < MAX_PLAYERS && !game_started(*old(table))
            &&& final(table).players@ == old(table).players@.push(signer)
            &&& *final(table) == (LiarsTable { players: final(table).players, ..*old(table) })
            &&& final(player).character_id@ == character_id@
            &&& final(player).cards@ == Seq::<crate::state::Card>::empty()
            &&& *final(player) == (Player {
                character_id: final(player).character_id,
                table_id: table_id,
                cards: final(player).cards,
                ..*old(player)
            })
        },
{
    join_table_handler(table, signer)?;
    player.character_id = character_id;
    player.table_id = table_id;
    player.cards = Vec::new();
    Ok(())
}

} // verus!
