use vstd::prelude::*;

use crate::state::{Card, Player};

verus! {

/// The handles of a hand, card by card: the shape's handle, then the value's.
pub open spec fn card_handles(cards: Seq<Card>) -> Seq<u128>
    decreases cards.len(),
{
    if cards.len() == 0 {
        seq![]
    } else {
        card_handles(cards.drop_last()) + seq![cards.last().shape, cards.last().value]
    }
}

/// How many of `handles` handles the `accounts` allowance accounts cover.
pub open spec fn granted_count(handles: int, accounts: int) -> int {
    if accounts < handles {
        accounts
    } else {
        handles
    }
}

proof fn lemma_card_handles_len(cards: Seq<Card>)
    ensures
        card_handles(cards).len() == 2 * cards.len(),
    decreases cards.len(),
{
    if cards.len() > 0 {
        lemma_card_handles_len(cards.drop_last());
    }
}

proof fn lemma_card_handles_at(cards: Seq<Card>)
    ensures
        card_handles(cards).len() == 2 * cards.len(),
        forall|i: int| 0 <= i < 2 * cards.len() ==> #[trigger] card_handles(cards)[i] == if i % 2 == 0 {
            cards[i / 2].shape
        } else {
            cards[i / 2].value
        },
    decreases cards.len(),
{
    if cards.len() > 0 {
        let prev = cards.drop_last();
        lemma_card_handles_at(prev);
        assert forall|i: int| 0 <= i < 2 * cards.len() implies #[trigger] card_handles(cards)[i] == if i
            % 2 == 0 {
            cards[i / 2].shape
        } else {
            cards[i / 2].value
        } by {
            if i < 2 * prev.len() {
                assert(card_handles(cards)[i] == card_handles(prev)[i]);
                assert(prev[i / 2] == cards[i / 2]);
            }
        }
    }
}

/// Access is granted for as many handles as there are accounts, up to both handles of every
/// card: `min(2 * cards, accounts)` of them, and the `i`-th is the shape of card `i / 2` when
/// `i` is even and its value when `i` is odd. With `2 * cards` accounts or more, every handle of
/// every card is granted.
pub proof fn lemma_access_covers_the_hand(cards: Seq<Card>, accounts: int)
    requires
        accounts >= 0,
    ensures
        ({
            let g = card_handles(cards).take(granted_count(2 * cards.len() as int, accounts));
            &&& g.len() == if accounts < 2 * cards.len() { accounts } else { 2 * cards.len() as int }
            &&& forall|i: int| 0 <= i < g.len() ==> #[trigger] g[i] == if i % 2 == 0 {
                cards[i / 2].shape
            } else {
                cards[i / 2].value
            }
        }),
{
    lemma_card_handles_at(cards);
}

/// The handles of `cards` in the order they are paired with the `accounts` allowance accounts:
/// card by card, shape before value, until the accounts run out.
pub fn access_order(cards: &Vec<Card>, accounts: usize) -> (grants: Vec<u128>)
    ensures
        grants@ == card_handles(cards@).take(granted_count(2 * cards.len(), accounts as int)),
{
    let mut grants: Vec<u128> = Vec::new();
    let mut remaining_idx: usize = 0;
    let mut i: usize = 0;
    while i < cards.len()
        invariant
            i <= cards.len(),
            remaining_idx == granted_count(2 * i, accounts as int),
            grants@ == card_handles(cards@.take(i as int)).take(remaining_idx as int),
        decreases cards.len() - i,
    {
        let ghost before = cards@.take(i as int);
        let ghost after = cards@.take(i + 1);
        proof {
            assert(after.drop_last() =~= before);
            lemma_card_handles_len(before);
            lemma_card_handles_len(after);
            assert(card_handles(after) == card_handles(before) + seq![cards@[i as int].shape, cards@[i as int].value]);
        }
        let card = cards[i];
        if remaining_idx < accounts {
            grants.push(card.shape);
            remaining_idx = remaining_idx + 1;
        }
        if remaining_idx < accounts {
            grants.push(card.value);
            remaining_idx = remaining_idx + 1;
        }
        i = i + 1;
        assert(grants@ =~= card_handles(after).take(remaining_idx as int));
    }
    assert(cards@.take(i as int) =~= cards@);
    grants
}

/// The handles that the player is given access to, in order: the `i`-th goes with the
/// `i`-th of the `accounts` allowance accounts, card by card, shape before value, until the
/// accounts run out.
pub fn handler(player: &Player, accounts: usize) -> (grants: Vec<u128>)
    ensures
        grants@ == card_handles(player.cards@).take(
            granted_count(2 * player.cards.len(), accounts as int),
        ),
{
    access_order(&player.cards, accounts)
}

} // verus!
