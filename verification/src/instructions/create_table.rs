use vstd::prelude::*;

use crate::state::LiarsTable;

verus! {

/// Sets up a newly created table: it takes its number, opens to players, and both the turn to
/// play and the turn to be dealt start at the first seat.
pub fn handler(table: &mut LiarsTable, table_id: u128)
    ensures
        *final(table) == (LiarsTable {
            table_id: table_id,
            is_open: true,
            trun_to_play: 0,
            suffle_trun: 0,
            ..*old(table)
        }),
{
    table.table_id = table_id;
    table.is_open = true;
    table.trun_to_play = 0;
    table.suffle_trun = 0;
}

} // verus!
