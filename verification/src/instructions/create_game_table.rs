use vstd::prelude::*;

use crate::constant::REVOLVER_CHAMBERS;
use crate::state::GameTable;

verus! {

/// The first empty chamber that `random` picks.
pub open spec fn first_empty(random: nat) -> int {
    (random % 6) as int
}

/// The second empty chamber that `random` picks: from `random / 10`, moved one chamber on when
/// it is the first one. When both picks are the last chamber this names a chamber past the
/// cylinder, so only one chamber is empty.
pub open spec fn second_empty(random: nat) -> int {
    let e1 = random % 6;
    let e2 = (random / 10) % 6;
    if e1 == e2 {
        (e1 + 1) as int
    } else {
        e2 as int
    }
}

/// Whether chamber `i` of the revolver that `random` sets up holds a round.
pub open spec fn chamber_loaded(random: nat, i: int) -> bool {
    i != first_empty(random) && i != second_empty(random)
}

/// The revolver that `random` sets up has its first picked chamber empty and no other empty
/// chamber but the second pick; that pick differs from the first, and is a chamber of the
/// cylinder (so two chambers are empty) unless both picks were the last chamber.
pub proof fn lemma_revolver(random: nat)
    ensures
        0 <= first_empty(random) < 6,
        0 <= second_empty(random) <= 6,
        second_empty(random) == 6 <==> (random % 6 == 5 && (random / 10) % 6 == 5),
        first_empty(random) != second_empty(random),
        !chamber_loaded(random, first_empty(random)),
        second_empty(random) < 6 ==> !chamber_loaded(random, second_empty(random)),
        forall|i: int| 0 <= i < 6 && !chamber_loaded(random, i) ==> i == first_empty(random) || i
            == second_empty(random),
{
}

/// Sets up a newly created table with a revolver: it takes its number, the revolver starts
/// at chamber 0, and the chambers to be loaded are returned, one per chamber, for the caller
/// to encrypt into `bullet`.
pub fn create_table_handler(table: &mut GameTable, table_id: u64, random: u128) -> (chambers: Vec<bool>)
    ensures
        chambers@ == Seq::new(REVOLVER_CHAMBERS as nat, |i: int| chamber_loaded(random as nat, i)),
        *final(table) == (GameTable { table_id: table_id, bullet_index: 0, ..*old(table) }),
{
    table.table_id = table_id;
    table.bullet_index = 0;
    let empty_bullet1 = random % 6;
    let rest = random / 10;
    let mut empty_bullet2 = rest % 6;
    if empty_bullet1 == empty_bullet2 {
        empty_bullet2 = empty_bullet1 + 1;
    }
    let mut chambers: Vec<bool> = Vec::with_capacity(6);
    let mut i: u128 = 0;
    while i < 6
        invariant
            i <= 6,
            empty_bullet1 == first_empty(random as nat),
            empty_bullet2 == second_empty(random as nat),
            chambers@ == Seq::new(i as nat, |k: int| chamber_loaded(random as nat, k)),
        decreases 6 - i,
    {
        if i == empty_bullet1 {
            chambers.push(false);
        } else if i == empty_bullet2 {
            chambers.push(false);
        } else {
            chambers.push(true);
        }
        i = i + 1;
        assert(chambers@ =~= Seq::new(i as nat, |k: int| chamber_loaded(random as nat, k)));
    }
    chambers
}

/// Loads the revolver with the encrypted chambers, in chamber order.
pub fn load_chambers(table: &mut GameTable, chambers: Vec<u128>)
    ensures
        final(table).bullet@ == old(table).bullet@ + chambers@,
        *final(table) == (GameTable { bullet: final(table).bullet, ..*old(table) }),
{
    let ghost t0 = *table;
    let mut i: usize = 0;
    while i < chambers.len()
        invariant
            i <= chambers.len(),
            table.bullet@ == t0.bullet@ + chambers@.take(i as int),
            *table == (GameTable { bullet: table.bullet, ..t0 }),
        decreases chambers.len() - i,
    {
        table.bullet.push(chambers[i]);
        i = i + 1;
        assert(table.bullet@ =~= t0.bullet@ + chambers@.take(i as int));
    }
    assert(chambers@.take(i as int) =~= chambers@);
}

} // verus!
