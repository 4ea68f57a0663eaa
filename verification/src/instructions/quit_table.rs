use vstd::prelude::*;

use crate::state::{find_player, key_position, lemma_key_position, swap_removed, Card, DeckRow, LiarsTable, Player, PlayerKey};

verus! {

/// Whether one of `cards` names the deck place (`shape`, `value`).
pub open spec fn names_place(cards: Seq<Card>, shape: int, value: int) -> bool {
    exists|i: int| 0 <= i < cards.len() && #[trigger] cards[i].shape as usize == shape && cards[i].value as usize == value
}

/// Every card of `cards` names a place of the deck.
pub open spec fn cards_fit_deck(deck: Seq<DeckRow>, cards: Seq<Card>) -> bool {
    forall|i: int| 0 <= i < cards.len() ==> {
        &&& (#[trigger] cards[i].shape as usize) < deck.len()
        &&& (cards[i].value as usize) < deck[cards[i].shape as usize as int].values@.len()
    }
}

/// `new` is the deck `old` with each card of `cards` back in it, and nothing else changed.
pub open spec fn deck_after_return(old: Seq<DeckRow>, new: Seq<DeckRow>, cards: Seq<Card>) -> bool {
    &&& new.len() == old.len()
    &&& forall|s: int| 0 <= s < old.len() ==> #[trigger] new[s].values@.len() == old[s].values@.len()
    &&& forall|s: int, v: int|
        0 <= s < old.len() && 0 <= v < old[s].values@.len() ==> #[trigger] new[s].values@[v] == (
        old[s].values@[v] && !names_place(cards, s, v))
}

/// After a quit, the deck place of every card of the leaving hand is free, however long the
/// hand; every place that no card of the hand names keeps its state.
pub proof fn lemma_quit_frees_every_card(old: Seq<DeckRow>, new: Seq<DeckRow>, cards: Seq<Card>)
    requires
        cards_fit_deck(old, cards),
        deck_after_return(old, new, cards),
    ensures
        forall|i: int| 0 <= i < cards.len() ==> !new[cards[i].shape as usize as int].values@[
            #[trigger] cards[i].value as usize as int],
        forall|s: int, v: int|
            0 <= s < old.len() && 0 <= v < old[s].values@.len() && (forall|i: int| 0 <= i < cards.len()
                ==> !(#[trigger] cards[i].shape as usize == s && cards[i].value as usize == v)) ==> #[trigger] new[s].values@[v]
                == old[s].values@[v],
{
    assert forall|i: int| 0 <= i < cards.len() implies !new[cards[i].shape as usize as int].values@[
        #[trigger] cards[i].value as usize as int] by {
        let s = cards[i].shape as usize as int;
        let v = cards[i].value as usize as int;
        assert((cards[i].shape as usize) < old.len());
        assert(names_place(cards, s, v));
    }
    assert forall|s: int, v: int|
        0 <= s < old.len() && 0 <= v < old[s].values@.len() && (forall|i: int| 0 <= i < cards.len()
            ==> !(#[trigger] cards[i].shape as usize == s && cards[i].value as usize == v)) implies #[trigger] new[s].values@[v]
            == old[s].values@[v] by {
        if names_place(cards, s, v) {
            let i = choose|i: int| 0 <= i < cards.len() && #[trigger] cards[i].shape as usize == s && cards[i].value as usize == v;
            assert(!(cards[i].shape as usize == s && cards[i].value as usize == v));
        }
    }
}

/// The player `player_key`, whose account is `player`, leaves the table: the cards go back into the deck,
/// and the player's seat, revolver and count of cards leave the table, the last seat taking
/// the freed place.
pub fn handler(table: &mut LiarsTable, player: &Player, player_key: &PlayerKey)
    requires
        cards_fit_deck(old(table).deck@, player.cards@),
        old(table).players@.contains(*player_key),
        key_position(old(table).players@, *player_key) < old(table).remaining_bullet.len(),
        key_position(old(table).players@, *player_key) < old(table).player_cards_left.len(),
    ensures
        ({
            let pos = key_position(old(table).players@, *player_key);
            &&& deck_after_return(old(table).deck@, final(table).deck@, player.cards@)
            &&& final(table).players@ == swap_removed(old(table).players@, pos)
            &&& final(table).remaining_bullet@ == swap_removed(old(table).remaining_bullet@, pos)
            &&& final(table).player_cards_left@ == swap_removed(old(table).player_cards_left@, pos)
            &&& *final(table) == (LiarsTable {
                deck: final(table).deck,
                players: final(table).players,
                remaining_bullet: final(table).remaining_bullet,
                player_cards_left: final(table).player_cards_left,
                ..*old(table)
            })
        }),
{
    let ghost t0 = *table;
    let mut i: usize = 0;
    while i < player.cards.len()
        invariant
            i <= player.cards.len(),
            cards_fit_deck(t0.deck@, player.cards@),
            deck_after_return(t0.deck@, table.deck@, player.cards@.take(i as int)),
            *table == (LiarsTable { deck: table.deck, ..t0 }),
        decreases player.cards.len() - i,
    {
        let ghost prev = table.deck@;
        let card = player.cards[i];
        assert(player.cards@[i as int] == card);
        let s = card.shape as usize;
        let v = card.value as usize;
        table.deck[s].values.set(v, false);
        i = i + 1;
        proof {
            let done = player.cards@.take(i as int);
            assert forall|a: int, b: int|
                0 <= a < t0.deck@.len() && 0 <= b < t0.deck@[a].values@.len() implies #[trigger] table.deck@[a].values@[b]
                == (t0.deck@[a].values@[b] && !names_place(done, a, b)) by {
                assert(prev[a].values@[b] == (t0.deck@[a].values@[b] && !names_place(player.cards@.take(i - 1), a, b)));
                if names_place(player.cards@.take(i - 1), a, b) {
                    let k = choose|k: int| 0 <= k < i - 1 && #[trigger] player.cards@.take(i - 1)[k].shape as usize == a
                        && player.cards@.take(i - 1)[k].value as usize == b;
                    assert(done[k] == player.cards@.take(i - 1)[k]);
                }
                if a == s && b == v {
                    assert(done[i - 1] == card);
                } else if names_place(done, a, b) {
                    let k = choose|k: int| 0 <= k < i && #[trigger] done[k].shape as usize == a && done[k].value as usize == b;
                    assert(k != i - 1);
                    assert(player.cards@.take(i - 1)[k] == done[k]);
                }
            }
        }
    }
    assert(player.cards@.take(i as int) =~= player.cards@);
    let pos = find_player(&table.players, player_key);
    proof {
        lemma_key_position(table.players@, *player_key);
    }
    table.players.swap_remove(pos);
    table.remaining_bullet.swap_remove(pos);
    table.player_cards_left.swap_remove(pos);
}

} // verus!
