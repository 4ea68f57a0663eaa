use vstd::prelude::*;

use crate::state::{GameRoom, PlayerKey};

verus! {

/// Sets up a newly created room: it takes its number, opens, has not started, and seats its
/// creator.
pub fn handler(room: &mut GameRoom, room_id: u64, signer: PlayerKey)
    ensures
        final(room).players@ == old(room).players@.push(signer),
        *final(room) == (GameRoom {
            room_id: room_id,
            is_open: true,
            startgame: false,
            players: final(room).players,
        }),
{
    room.room_id = room_id;
    room.is_open = true;
    room.startgame = false;
    room.players.push(signer);
}

} // verus!
