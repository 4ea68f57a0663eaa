use vstd::prelude::*;

use crate::error::LiarsBarsError;
use crate::helpers::{is_reset_of, reset_round};
use crate::state::{find_player, key_position, lemma_key_position, swap_removed, Card, LiarsTable, PlayerKey};

verus! {

/// Whether every card on the table shows the claimed shape, that is, whether the last play
/// told the truth.
pub open spec fn all_match(cards: Seq<Card>, table_card: u8) -> bool {
    forall|i: int| 0 <= i < cards.len() ==> #[trigger] cards[i].shape == table_card as u128
}

/// The seat that faces the revolver when the player in seat `pos` calls: the caller's own
/// seat when the last play told the truth, else the seat before it.
pub open spec fn target_seat(table: LiarsTable, pos: int) -> int {
    if all_match(table.cards_on_table@, table.table_card) {
        pos
    } else {
        pos - 1
    }
}

/// Who faces the revolver: when any card on the table shows a shape other than the claimed
/// one, the play was a lie and the seat before the caller is the target; only when every
/// card shows the claimed shape is the caller the target.
pub proof fn lemma_call_targets_the_liar(table: LiarsTable, pos: int)
    ensures
        (exists|i: int| 0 <= i < table.cards_on_table.len() && #[trigger] table.cards_on_table@[i].shape
            != table.table_card as u128) ==> target_seat(table, pos) == pos - 1,
        (forall|i: int| 0 <= i < table.cards_on_table.len() ==> #[trigger] table.cards_on_table@[i].shape
            == table.table_card as u128) ==> target_seat(table, pos) == pos,
{
}

/// The seat is at the table and has a revolver entry.
pub open spec fn seat_has_revolver(table: LiarsTable, seat: int) -> bool {
    &&& 0 <= seat
    &&& seat < table.players.len()
    &&& seat < table.remaining_bullet.len()
}

/// What a call decides.
pub enum CallOutcome {
    /// The player at the target seat has one chamber left and is out: the caller draws a
    /// random number for the new round and calls `eliminate`.
    Eliminated { target: usize, player: PlayerKey },
    /// The trigger is pulled at `target`: the caller draws a random number for the shot and
    /// one for the new round, and calls `fire`.
    PullTrigger { target: usize },
}

/// What one pull of the trigger did.
pub enum ShotOutcome {
    /// The chamber was loaded: the player is out.
    Eliminated { player: PlayerKey },
    /// The chamber was empty.
    EmptyChamber { player: PlayerKey },
}

/// The seated player `signer` calls the last play a lie; this decides who faces the revolver.
///
/// The target is the caller when every card on the table shows the claimed shape, else the
/// seat before the caller. A target with one chamber left is out at once; otherwise the
/// trigger is pulled. A signer who is not seated is refused with `NotEligible`.
pub fn handler(table: &LiarsTable, signer: &PlayerKey) -> (res: Result<CallOutcome, LiarsBarsError>)
    requires
        key_position(table.players@, *signer) < table.players.len() ==> {
            &&& 0 <= target_seat(*table, key_position(table.players@, *signer))
            &&& target_seat(*table, key_position(table.players@, *signer)) < table.remaining_bullet.len()
        },
    ensures
        ({
            let pos = key_position(table.players@, *signer);
            let t = target_seat(*table, pos);
            if pos >= table.players.len() {
                res == Err::<CallOutcome, LiarsBarsError>(LiarsBarsError::NotEligible)
            } else if table.remaining_bullet@[t] == 1 {
                res == Ok::<CallOutcome, LiarsBarsError>(
                    CallOutcome::Eliminated { target: t as usize, player: table.players@[t] },
                )
            } else {
                res == Ok::<CallOutcome, LiarsBarsError>(CallOutcome::PullTrigger { target: t as usize })
            }
        }),
{
    let pos = find_player(&table.players, signer);
    proof {
        lemma_key_position(table.players@, *signer);
    }
    if pos >= table.players.len() {
        return Err(LiarsBarsError::NotEligible);
    }
    let number_of_cards = table.cards_on_table.len();
    let mut match_count: usize = 0;
    let mut i: usize = 0;
    while i < number_of_cards
        invariant
            number_of_cards == table.cards_on_table.len(),
            i <= number_of_cards,
            match_count <= i,
            match_count == i <==> all_match(table.cards_on_table@.take(i as int), table.table_card),
        decreases number_of_cards - i,
    {
        let ghost before = table.cards_on_table@.take(i as int);
        let ghost after = table.cards_on_table@.take(i + 1);
        assert(forall|j: int| 0 <= j < i ==> before[j] == after[j]);
        if table.cards_on_table[i].shape == table.table_card as u128 {
            match_count = match_count + 1;
        } else {
            assert(after[i as int].shape != table.table_card as u128);
        }
        i = i + 1;
    }
    assert(table.cards_on_table@.take(number_of_cards as int) =~= table.cards_on_table@);
    let target = if number_of_cards != match_count {
        pos - 1
    } else {
        pos
    };
    if table.remaining_bullet[target] == 1 {
        return Ok(CallOutcome::Eliminated { target, player: table.players[target] });
    }
    Ok(CallOutcome::PullTrigger { target })
}

/// The player at seat `target` is out: the seat leaves the players and the revolvers alike
/// (the last seat takes its place), and a new round starts from `reset_random`, which gives
/// every remaining seat a fresh count of cards.
pub fn eliminate(table: &mut LiarsTable, target: usize, reset_random: u128)
    requires
        seat_has_revolver(*old(table), target as int),
    ensures
        final(table).players@ == swap_removed(old(table).players@, target as int),
        final(table).remaining_bullet@ == swap_removed(old(table).remaining_bullet@, target as int),
        is_reset_of(
            (LiarsTable {
                players: final(table).players,
                remaining_bullet: final(table).remaining_bullet,
                ..*old(table)
            }),
            *final(table),
            reset_random,
        ),
{
    table.players.swap_remove(target);
    table.remaining_bullet.swap_remove(target);
    reset_round(table, reset_random);
}

/// Pulls the trigger at seat `target`. The chamber is loaded when `random_number` is odd: the
/// player is out, as by `eliminate`. Otherwise nobody is hurt and the revolvers stay as they
/// were. Either way a new round then starts from `reset_random`.
pub fn fire(table: &mut LiarsTable, target: usize, random_number: u128, reset_random: u128) -> (res:
    ShotOutcome)
    requires
        seat_has_revolver(*old(table), target as int),
    ensures
        random_number % 2 == 1 ==> {
            &&& res == (ShotOutcome::Eliminated { player: old(table).players@[target as int] })
            &&& final(table).players@ == swap_removed(old(table).players@, target as int)
            &&& final(table).remaining_bullet@ == swap_removed(old(table).remaining_bullet@, target as int)
        },
        random_number % 2 == 0 ==> {
            &&& res == (ShotOutcome::EmptyChamber { player: old(table).players@[target as int] })
            &&& final(table).players@ == old(table).players@
            &&& final(table).remaining_bullet@ == old(table).remaining_bullet@
        },
        is_reset_of(
            (LiarsTable {
                players: final(table).players,
                remaining_bullet: final(table).remaining_bullet,
                ..*old(table)
            }),
            *final(table),
            reset_random,
        ),
{
    let player = table.players[target];
    if random_number % 2 == 1 {
        eliminate(table, target, reset_random);
        ShotOutcome::Eliminated { player }
    } else {
        reset_round(table, reset_random);
        ShotOutcome::EmptyChamber { player }
    }
}

} // verus!
