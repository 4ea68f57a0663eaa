use vstd::prelude::*;

use crate::constant::{CARDS_PER_PLAYER, DECK_SHAPES, DECK_VALUES};
use crate::state::{DeckRow, LiarsTable};

verus! {

/// A deck of 4 rows of 13 values with every card in it.
pub open spec fn is_fresh_deck(deck: Seq<DeckRow>) -> bool {
    &&& deck.len() == 4
    &&& forall|s: int| 0 <= s < 4 ==> #[trigger] deck[s].values@ == Seq::new(13, |v: int| false)
}

/// `n` copies of `x`.
pub open spec fn repeated(x: u8, n: nat) -> Seq<u8> {
    Seq::new(n, |i: int| x)
}

/// `n` copies of `x`.
pub fn repeat_u8(x: u8, n: usize) -> (v: Vec<u8>)
    ensures
        v@ == repeated(x, n as nat),
{
    let mut v: Vec<u8> = Vec::with_capacity(n);
    let mut i: usize = 0;
    while i < n
        invariant
            i <= n,
            v@ == repeated(x, i as nat),
        decreases n - i,
    {
        v.push(x);
        i = i + 1;
        assert(v@ =~= repeated(x, i as nat));
    }
    v
}

/// A deck with all 52 cards in it.
pub fn fresh_deck() -> (deck: Vec<DeckRow>)
    ensures
        is_fresh_deck(deck@),
{
    let mut deck: Vec<DeckRow> = Vec::with_capacity(DECK_SHAPES);
    let mut s: usize = 0;
    while s < DECK_SHAPES
        invariant
            s <= DECK_SHAPES,
            deck@.len() == s,
            forall|t: int| 0 <= t < s ==> #[trigger] deck@[t].values@ == Seq::new(13, |v: int| false),
        decreases DECK_SHAPES - s,
    {
        let mut row: Vec<bool> = Vec::with_capacity(DECK_VALUES);
        let mut v: usize = 0;
        while v < DECK_VALUES
            invariant
                v <= DECK_VALUES,
                row@ == Seq::new(v as nat, |w: int| false),
            decreases DECK_VALUES - v,
        {
            row.push(false);
            v = v + 1;
            assert(row@ =~= Seq::new(v as nat, |w: int| false));
        }
        deck.push(DeckRow { values: row });
        s = s + 1;
    }
    deck
}

/// `after` is `before` reset for a new round with `random_number`: every seat holds five
/// cards again, the deck is whole, the table is bare, dealing starts again at the first
/// seat, and the claimed shape becomes `random_number % 4`; nothing else changes.
pub open spec fn is_reset_of(before: LiarsTable, after: LiarsTable, random_number: u128) -> bool {
    &&& after.player_cards_left@ == repeated(CARDS_PER_PLAYER, before.players.len() as nat)
    &&& is_fresh_deck(after.deck@)
    &&& after.table_card < 4
    &&& after.cards_on_table@ == Seq::<crate::state::Card>::empty()
    &&& after == (LiarsTable {
        player_cards_left: after.player_cards_left,
        deck: after.deck,
        cards_on_table: after.cards_on_table,
        suffle_trun: 0,
        table_card: (random_number % 4) as u8,
        ..before
    })
}

/// Resets the table for a new round (see `is_reset_of`). The start of a round and the end of
/// a liar's call both come here.
pub fn reset_round(table: &mut LiarsTable, random_number: u128)
    ensures
        is_reset_of(*old(table), *final(table), random_number),
{
    table.player_cards_left = repeat_u8(CARDS_PER_PLAYER, table.players.len());
    table.deck = fresh_deck();
    table.cards_on_table.clear();
    table.suffle_trun = 0;
    table.table_card = (random_number % 4) as u8;
}

} // verus!
