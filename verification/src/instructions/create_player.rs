use vstd::prelude::*;

use crate::state::Player;

verus! {

/// Sets up a player's account for the table `table_id`: the player is in the game and has
/// five more places for cards, none of them used.
pub fn create_player_handler(player: &mut Player, table_id: u64)
    ensures
        final(player).placed_cards@ == old(player).placed_cards@ + seq![false, false, false, false, false],
        *final(player) == (Player {
            table_id: table_id as u128,
            is_eliminated: false,
            placed_cards: final(player).placed_cards,
            ..*old(player)
        }),
{
    player.table_id = table_id as u128;
    player.is_eliminated = false;
    let ghost before = player.placed_cards@;
    let ghost p0 = *player;
    let mut i: usize = 0;
    while i < 5
        invariant
            i <= 5,
            player.placed_cards@ == before + Seq::new(i as nat, |k: int| false),
            *player == (Player { placed_cards: player.placed_cards, ..p0 }),
        decreases 5 - i,
    {
        player.placed_cards.push(false);
        i = i + 1;
        assert(player.placed_cards@ =~= before + Seq::new(i as nat, |k: int| false));
    }
    assert(Seq::new(5, |k: int| false) =~= seq![false, false, false, false, false]);
}

} // verus!
