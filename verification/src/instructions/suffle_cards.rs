use vstd::prelude::*;

use crate::error::LiarsBarsError;
use crate::helpers::is_fresh_deck;
use crate::state::{find_player, key_position, lemma_key_position, swap_removed, Card, DeckRow, LiarsTable, Player, PlayerKey};

verus! {

/// The free cards among the first `n` values of one deck row, in value order.
pub open spec fn free_in_row(row: Seq<bool>, shape: int, n: nat) -> Seq<(u128, u128)>
    decreases n,
{
    if n == 0 {
        seq![]
    } else {
        free_in_row(row, shape, (n - 1) as nat) + if !row[n - 1] {
            seq![(shape as u128, (n - 1) as u128)]
        } else {
            Seq::<(u128, u128)>::empty()
        }
    }
}

/// The free cards among the first `m` rows of the deck, row by row.
pub open spec fn free_in_rows(deck: Seq<DeckRow>, m: nat) -> Seq<(u128, u128)>
    decreases m,
{
    if m == 0 {
        seq![]
    } else {
        free_in_rows(deck, (m - 1) as nat) + free_in_row(deck[m - 1].values@, m - 1, 13)
    }
}

/// The cards still in the deck, listed by shape and then by value: the dealer's pile.
pub open spec fn free_cards(deck: Seq<DeckRow>) -> Seq<(u128, u128)> {
    free_in_rows(deck, 4)
}

/// The deck has its 4 rows of 13 values (it may hold more, which no card reaches).
pub open spec fn deck_is_full_size(deck: Seq<DeckRow>) -> bool {
    &&& deck.len() >= 4
    &&& forall|s: int| 0 <= s < 4 ==> #[trigger] deck[s].values@.len() >= 13
}

/// The card `c` is one of the 52 and is still in the deck.
pub open spec fn is_free(deck: Seq<DeckRow>, c: (u128, u128)) -> bool {
    c.0 < 4 && c.1 < 13 && !deck[c.0 as int].values@[c.1 as int]
}

/// The cards that dealing takes from the pile `pile`: at most `rounds` of them; each round
/// picks the card at `random % pile size`, puts the last card of the pile in its place, and
/// divides `random` by 52.
pub open spec fn deal(pile: Seq<(u128, u128)>, random: nat, rounds: nat) -> Seq<(u128, u128)>
    decreases rounds,
{
    if rounds == 0 || pile.len() == 0 {
        seq![]
    } else {
        let i = (random % pile.len()) as int;
        seq![pile[i]] + deal(swap_removed(pile, i), random / 52, (rounds - 1) as nat)
    }
}

/// `new` is the deck `old` with each card of `dealt` taken out, and nothing else changed.
pub open spec fn deck_after_dealing(old: Seq<DeckRow>, new: Seq<DeckRow>, dealt: Seq<(u128, u128)>) -> bool {
    &&& new.len() == old.len()
    &&& forall|s: int| 0 <= s < old.len() ==> #[trigger] new[s].values@.len() == old[s].values@.len()
    &&& forall|s: int, v: int|
        0 <= s < old.len() && 0 <= v < old[s].values@.len() ==> #[trigger] new[s].values@[v] == (
        old[s].values@[v] || dealt.contains((s as u128, v as u128)))
}

proof fn lemma_free_in_row(row: Seq<bool>, shape: int, n: nat)
    requires
        0 <= shape < 4,
        n <= row.len(),
        n <= 13,
    ensures
        free_in_row(row, shape, n).no_duplicates(),
        forall|x: (u128, u128)| #[trigger] free_in_row(row, shape, n).contains(x) <==> (x.0 == shape
            && x.1 < n && !row[x.1 as int]),
    decreases n,
{
    if n > 0 {
        let prev = free_in_row(row, shape, (n - 1) as nat);
        lemma_free_in_row(row, shape, (n - 1) as nat);
        let tail = if !row[n - 1] {
            seq![(shape as u128, (n - 1) as u128)]
        } else {
            Seq::<(u128, u128)>::empty()
        };
        let all = prev + tail;
        assert(all == free_in_row(row, shape, n));
        assert forall|x: (u128, u128)| #[trigger] all.contains(x) <==> (x.0 == shape && x.1 < n
            && !row[x.1 as int]) by {
            if all.contains(x) {
                let k = choose|k: int| 0 <= k < all.len() && all[k] == x;
                if k < prev.len() {
                    assert(prev.contains(x));
                }
            }
            if x.0 == shape && x.1 < n && !row[x.1 as int] {
                if x.1 < n - 1 {
                    assert(prev.contains(x));
                    let k = choose|k: int| 0 <= k < prev.len() && prev[k] == x;
                    assert(all[k] == x);
                } else {
                    assert(all[all.len() - 1] == x);
                }
            }
        }
        assert forall|i: int, j: int| 0 <= i < all.len() && 0 <= j < all.len() && i != j implies all[i]
            != all[j] by {
            if i < prev.len() && j < prev.len() {
            } else if i < prev.len() {
                assert(prev.contains(all[i]));
            } else if j < prev.len() {
                assert(prev.contains(all[j]));
            }
        }
    }
}

proof fn lemma_free_in_rows(deck: Seq<DeckRow>, m: nat)
    requires
        deck_is_full_size(deck),
        m <= 4,
    ensures
        free_in_rows(deck, m).no_duplicates(),
        forall|x: (u128, u128)| #[trigger] free_in_rows(deck, m).contains(x) <==> (x.0 < m
            && is_free(deck, x)),
    decreases m,
{
    if m > 0 {
        let prev = free_in_rows(deck, (m - 1) as nat);
        let row = free_in_row(deck[m - 1].values@, m - 1, 13);
        lemma_free_in_rows(deck, (m - 1) as nat);
        lemma_free_in_row(deck[m - 1].values@, m - 1, 13);
        let all = prev + row;
        assert forall|x: (u128, u128)| #[trigger] all.contains(x) <==> (x.0 < m && is_free(deck, x))
            by {
            if all.contains(x) {
                let k = choose|k: int| 0 <= k < all.len() && all[k] == x;
                if k < prev.len() {
                    assert(prev.contains(x));
                } else {
                    assert(row[k - prev.len()] == x);
                    assert(row.contains(x));
                }
            }
            if x.0 < m && is_free(deck, x) {
                if x.0 < m - 1 {
                    assert(prev.contains(x));
                    let k = choose|k: int| 0 <= k < prev.len() && prev[k] == x;
                    assert(all[k] == x);
                } else {
                    assert(row.contains(x));
                    let k = choose|k: int| 0 <= k < row.len() && row[k] == x;
                    assert(all[prev.len() + k] == x);
                }
            }
        }
        assert forall|i: int, j: int| 0 <= i < all.len() && 0 <= j < all.len() && i != j implies all[i]
            != all[j] by {
            if i < prev.len() && j < prev.len() {
            } else if i >= prev.len() && j >= prev.len() {
                assert(all[i] == row[i - prev.len()]);
                assert(all[j] == row[j - prev.len()]);
            } else if i < prev.len() {
                assert(prev.contains(all[i]));
                assert(all[j] == row[j - prev.len()]);
                assert(row.contains(all[j]));
            } else {
                assert(prev.contains(all[j]));
                assert(all[i] == row[i - prev.len()]);
                assert(row.contains(all[i]));
            }
        }
    }
}

/// The pile lists each free card of the deck exactly once, and nothing else.
pub proof fn lemma_free_cards(deck: Seq<DeckRow>)
    requires
        deck_is_full_size(deck),
    ensures
        free_cards(deck).no_duplicates(),
        forall|x: (u128, u128)| #[trigger] free_cards(deck).contains(x) <==> is_free(deck, x),
{
    lemma_free_in_rows(deck, 4);
}

proof fn lemma_swap_removed(s: Seq<(u128, u128)>, i: int)
    requires
        0 <= i < s.len(),
        s.no_duplicates(),
    ensures
        swap_removed(s, i).len() == s.len() - 1,
        swap_removed(s, i).no_duplicates(),
        forall|x: (u128, u128)| #[trigger] swap_removed(s, i).contains(x) <==> (s.contains(x) && x
            != s[i]),
{
    let r = swap_removed(s, i);
    let last = s.len() - 1;
    assert forall|x: (u128, u128)| #[trigger] r.contains(x) <==> (s.contains(x) && x != s[i]) by {
        if r.contains(x) {
            let k = choose|k: int| 0 <= k < r.len() && r[k] == x;
            if k == i {
                assert(s[last] == x);
            } else {
                assert(s[k] == x);
            }
        }
        if s.contains(x) && x != s[i] {
            let k = choose|k: int| 0 <= k < s.len() && s[k] == x;
            if k == last {
                assert(r[i] == x);
            } else {
                assert(r[k] == x);
            }
        }
    }
    assert forall|a: int, b: int| 0 <= a < r.len() && 0 <= b < r.len() && a != b implies r[a] != r[b] by {
        let sa = if a == i { last } else { a };
        let sb = if b == i { last } else { b };
        assert(r[a] == s[sa]);
        assert(r[b] == s[sb]);
    }
}

/// Each round of dealing takes the card at `random % pile size`, for every `random`: the first
/// card dealt is that one, and the rest are dealt from the pile with that card taken out (the
/// last card moved into its place) driven by `random / 52`, one round fewer.
pub proof fn lemma_deal_takes_random_index(pile: Seq<(u128, u128)>, random: nat, rounds: nat)
    requires
        rounds > 0,
        pile.len() > 0,
    ensures
        deal(pile, random, rounds).len() >= 1,
        deal(pile, random, rounds)[0] == pile[(random % pile.len()) as int],
        deal(pile, random, rounds).drop_first() == deal(
            pile.update((random % pile.len()) as int, pile[pile.len() - 1]).drop_last(),
            random / 52,
            (rounds - 1) as nat,
        ),
{
    let i = (random % pile.len()) as int;
    let rest = deal(swap_removed(pile, i), random / 52, (rounds - 1) as nat);
    assert((seq![pile[i]] + rest).drop_first() =~= rest);
}

/// Dealing from a pile without repeats gives distinct cards, all from the pile, as many as
/// the rounds allow and the pile holds.
pub proof fn lemma_deal(pile: Seq<(u128, u128)>, random: nat, rounds: nat)
    requires
        pile.no_duplicates(),
    ensures
        deal(pile, random, rounds).no_duplicates(),
        deal(pile, random, rounds).len() == if rounds < pile.len() { rounds as int } else { pile.len() as int },
        forall|x: (u128, u128)| #[trigger] deal(pile, random, rounds).contains(x) ==> pile.contains(x),
    decreases rounds,
{
    if rounds > 0 && pile.len() > 0 {
        let i = (random % pile.len()) as int;
        let rest = swap_removed(pile, i);
        lemma_swap_removed(pile, i);
        lemma_deal(rest, random / 52, (rounds - 1) as nat);
        let tail = deal(rest, random / 52, (rounds - 1) as nat);
        let all = seq![pile[i]] + tail;
        assert forall|x: (u128, u128)| #[trigger] all.contains(x) implies pile.contains(x) by {
            let k = choose|k: int| 0 <= k < all.len() && all[k] == x;
            if k > 0 {
                assert(tail[k - 1] == x);
                assert(tail.contains(x));
            }
        }
        assert forall|a: int, b: int| 0 <= a < all.len() && 0 <= b < all.len() && a != b implies all[a]
            != all[b] by {
            if a > 0 && b > 0 {
                assert(all[a] == tail[a - 1]);
                assert(all[b] == tail[b - 1]);
            } else if a == 0 {
                assert(all[b] == tail[b - 1]);
                assert(tail.contains(all[b]));
            } else {
                assert(all[a] == tail[a - 1]);
                assert(tail.contains(all[a]));
            }
        }
    }
}

/// A shuffle deals only cards that are in the deck, never the same card twice, five cards
/// unless fewer are left (then all of them), and each card dealt is out of the deck
/// afterwards while every other card stays where it was.
pub proof fn lemma_shuffle_deals_free_distinct_cards(
    deck: Seq<DeckRow>,
    after: Seq<DeckRow>,
    random: nat,
)
    requires
        deck_is_full_size(deck),
        deck_after_dealing(deck, after, deal(free_cards(deck), random, 5)),
    ensures
        ({
            let dealt = deal(free_cards(deck), random, 5);
            &&& dealt.no_duplicates()
            &&& forall|x: (u128, u128)| #[trigger] dealt.contains(x) ==> is_free(deck, x)
            &&& forall|x: (u128, u128)| #[trigger] dealt.contains(x) ==> !is_free(after, x)
            &&& forall|x: (u128, u128)| is_free(deck, x) && !dealt.contains(x) ==> #[trigger] is_free(after, x)
            &&& dealt.len() == if free_cards(deck).len() < 5 { free_cards(deck).len() as int } else { 5 }
        }),
{
    let dealt = deal(free_cards(deck), random, 5);
    lemma_free_cards(deck);
    lemma_deal(free_cards(deck), random, 5);
    assert forall|x: (u128, u128)| #[trigger] dealt.contains(x) implies !is_free(after, x) by {
        assert(free_cards(deck).contains(x));
        assert(after[x.0 as int].values@[x.1 as int]);
    }
    assert forall|x: (u128, u128)| is_free(deck, x) && !dealt.contains(x) implies #[trigger] is_free(after, x) by {
        assert(after[x.0 as int].values@[x.1 as int] == (deck[x.0 as int].values@[x.1 as int] || dealt.contains((x.0 as int as u128, x.1 as int as u128))));
    }
}

proof fn lemma_fresh_row(row: Seq<bool>, shape: int, n: nat)
    requires
        n <= row.len(),
        forall|v: int| 0 <= v < row.len() ==> !#[trigger] row[v],
    ensures
        free_in_row(row, shape, n).len() == n,
    decreases n,
{
    if n > 0 {
        lemma_fresh_row(row, shape, (n - 1) as nat);
    }
}

proof fn lemma_fresh_rows(deck: Seq<DeckRow>, m: nat)
    requires
        m <= 4,
        is_fresh_deck(deck),
    ensures
        free_in_rows(deck, m).len() == 13 * m,
    decreases m,
{
    if m > 0 {
        lemma_fresh_rows(deck, (m - 1) as nat);
        assert(deck[m - 1].values@ == Seq::new(13, |v: int| false));
        lemma_fresh_row(deck[m - 1].values@, m - 1, 13);
    }
}

/// After a reset, the deck is whole: all 52 cards are in the pile, and the first player to be
/// dealt gets five distinct cards.
pub proof fn lemma_reset_deck_deals_five(deck: Seq<DeckRow>, random: nat)
    requires
        is_fresh_deck(deck),
    ensures
        deck_is_full_size(deck),
        free_cards(deck).len() == 52,
        deal(free_cards(deck), random, 5).len() == 5,
        deal(free_cards(deck), random, 5).no_duplicates(),
{
    assert forall|s: int| 0 <= s < 4 implies #[trigger] deck[s].values@.len() >= 13 by {
        assert(deck[s].values@ == Seq::new(13, |v: int| false));
    }
    lemma_fresh_rows(deck, 4);
    lemma_free_cards(deck);
    lemma_deal(free_cards(deck), random, 5);
}

/// The dealer's pile of the deck, in the order `free_cards` gives.
pub fn list_free_cards(deck: &Vec<DeckRow>) -> (pile: Vec<(u128, u128)>)
    requires
        deck_is_full_size(deck@),
    ensures
        pile@ == free_cards(deck@),
{
    let mut pile: Vec<(u128, u128)> = Vec::with_capacity(52);
    let mut shape: usize = 0;
    while shape < 4
        invariant
            shape <= 4,
            deck_is_full_size(deck@),
            pile@ == free_in_rows(deck@, shape as nat),
        decreases 4 - shape,
    {
        let ghost before = pile@;
        let mut value: usize = 0;
        while value < 13
            invariant
                shape < 4,
                value <= 13,
                deck_is_full_size(deck@),
                pile@ == before + free_in_row(deck@[shape as int].values@, shape as int, value as nat),
            decreases 13 - value,
        {
            assert(deck@[shape as int].values@.len() >= 13);
            if !deck[shape].values[value] {
                pile.push((shape as u128, value as u128));
            }
            value = value + 1;
            assert(pile@ == before + free_in_row(deck@[shape as int].values@, shape as int, value as nat));
        }
        shape = shape + 1;
    }
    pile
}

/// Deals up to five cards from the deck, driven by `random_number`, and takes them out of it.
pub fn deal_cards(deck: &mut Vec<DeckRow>, random_number: u128) -> (dealt: Vec<(u128, u128)>)
    requires
        deck_is_full_size(old(deck)@),
    ensures
        dealt@ == deal(free_cards(old(deck)@), random_number as nat, 5),
        deck_after_dealing(old(deck)@, final(deck)@, dealt@),
{
    let ghost d0 = deck@;
    let mut available = list_free_cards(deck);
    let ghost pile0 = available@;
    proof {
        lemma_free_cards(deck@);
    }
    let mut random = random_number;
    let mut dealt: Vec<(u128, u128)> = Vec::new();
    let mut k: usize = 0;
    while k < 5 && available.len() > 0
        invariant
            k <= 5,
            available@.no_duplicates(),
            forall|x: (u128, u128)| #[trigger] available@.contains(x) ==> is_free(deck@, x),
            deck_is_full_size(deck@),
            deck_after_dealing(d0, deck@, dealt@),
            dealt@ + deal(available@, random as nat, (5 - k) as nat) == deal(pile0, random_number as nat, 5),
        decreases 5 - k,
    {
        let ghost prev = available@;
        let ghost prev_deck = deck@;
        let ghost prev_dealt = dealt@;
        let card_idx = (random % (available.len() as u128)) as usize;
        proof {
            lemma_swap_removed(prev, card_idx as int);
            assert(prev.contains(prev[card_idx as int]));
        }
        random = random / 52;
        let card = available.swap_remove(card_idx);
        deck[card.0 as usize].values.set(card.1 as usize, true);
        dealt.push(card);
        k = k + 1;
        proof {
            assert forall|x: (u128, u128)| #[trigger] available@.contains(x) implies is_free(deck@, x) by {
                assert(prev.contains(x) && x != card);
            }
            assert forall|s: int, v: int|
                0 <= s < d0.len() && 0 <= v < d0[s].values@.len() implies #[trigger] deck@[s].values@[v] == (
                d0[s].values@[v] || dealt@.contains((s as u128, v as u128))) by {
                assert(s < deck.len() && deck.len() <= usize::MAX);
                assert(v < deck@[s].values.len() && deck@[s].values.len() <= usize::MAX);
                assert(prev_deck[s].values@[v] == (d0[s].values@[v] || prev_dealt.contains((s as u128, v as u128))));
                if s == card.0 as int && v == card.1 as int {
                    assert(dealt@[prev_dealt.len() as int] == card);
                    assert(deck@[s].values@[v]);
                } else {
                    assert(deck@[s].values@[v] == prev_deck[s].values@[v]);
                }
                if dealt@.contains((s as u128, v as u128)) && !prev_dealt.contains((s as u128, v as u128)) {
                    let j = choose|j: int| 0 <= j < dealt@.len() && dealt@[j] == (s as u128, v as u128);
                    assert(j == prev_dealt.len());
                }
                if prev_dealt.contains((s as u128, v as u128)) {
                    let j = choose|j: int| 0 <= j < prev_dealt.len() && prev_dealt[j] == (s as u128, v as u128);
                    assert(dealt@[j] == prev_dealt[j]);
                }
            }
            assert(prev_dealt + (seq![card] + deal(available@, random as nat, (5 - k) as nat)) =~= dealt@
                + deal(available@, random as nat, (5 - k) as nat));
        }
    }
    dealt
}

/// What a shuffle hands back: the cards dealt to the caller, in dealing order, as
/// (shape, value) pairs, and the player announced as the next to be dealt.
pub struct ShuffleOutcome {
    pub dealt: Vec<(u128, u128)>,
    pub next: PlayerKey,
}

/// It is `signer`'s turn to be dealt: the signer is seated, in seat `suffle_trun`.
pub open spec fn is_shuffle_turn(table: LiarsTable, signer: PlayerKey) -> bool {
    &&& key_position(table.players@, signer) < table.players.len()
    &&& key_position(table.players@, signer) == table.suffle_trun
}

/// Refuses with `NotYourTrunSuffle` unless it is `signer`'s turn to be dealt.
pub fn check_turn(table: &LiarsTable, signer: &PlayerKey) -> (res: Result<(), LiarsBarsError>)
    ensures
        is_shuffle_turn(*table, *signer) ==> res == Ok::<(), LiarsBarsError>(()),
        !is_shuffle_turn(*table, *signer) ==> res == Err::<(), LiarsBarsError>(
            LiarsBarsError::NotYourTrunSuffle,
        ),
{
    let pos = find_player(&table.players, signer);
    if pos < table.players.len() && pos == table.suffle_trun as usize {
        Ok(())
    } else {
        Err(LiarsBarsError::NotYourTrunSuffle)
    }
}

/// Deals the signer up to five cards from the deck, if it is the signer's turn to be dealt.
///
/// The signer must be seated, in seat `suffle_trun`; otherwise the shuffle is refused with
/// `NotYourTrunSuffle` and nothing changes. Then up to five free cards are dealt by `deal`,
/// driven by `random_number`, they leave the deck, and the turn to be dealt passes to the
/// next seat.
pub fn handler(table: &mut LiarsTable, signer: &PlayerKey, random_number: u128) -> (res: Result<
    ShuffleOutcome,
    LiarsBarsError,
>)
    requires
        key_position(old(table).players@, *signer) <= 255,
        is_shuffle_turn(*old(table), *signer) ==> old(table).suffle_trun < 255 && deck_is_full_size(
            old(table).deck@,
        ),
    ensures
        !is_shuffle_turn(*old(table), *signer) ==> res == Err::<ShuffleOutcome, LiarsBarsError>(
            LiarsBarsError::NotYourTrunSuffle,
        ) && *final(table) == *old(table),
        is_shuffle_turn(*old(table), *signer) ==> match res {
            Ok(out) => {
                &&& out.dealt@ == deal(free_cards(old(table).deck@), random_number as nat, 5)
                &&& deck_after_dealing(old(table).deck@, final(table).deck@, out.dealt@)
                &&& out.next == old(table).players@[(key_position(old(table).players@, *signer) + 1)
                    % old(table).players.len() as int]
                &&& *final(table) == (LiarsTable {
                    deck: final(table).deck,
                    suffle_trun: (old(table).suffle_trun + 1) as u8,
                    ..*old(table)
                })
            },
            Err(_) => false,
        },
{
    let pos = find_player(&table.players, signer);
    proof {
        lemma_key_position(table.players@, *signer);
    }
    if pos >= table.players.len() || pos != table.suffle_trun as usize {
        return Err(LiarsBarsError::NotYourTrunSuffle);
    }
    let dealt = deal_cards(&mut table.deck, random_number);
    table.suffle_trun = table.suffle_trun + 1;
    let next = table.players[(pos + 1) % table.players.len()];
    Ok(ShuffleOutcome { dealt, next })
}

/// Puts the dealt cards, as encrypted handles, into the player's hand, in dealing order.
pub fn receive_cards(player: &mut Player, cards: Vec<Card>)
    ensures
        final(player).cards@ == old(player).cards@ + cards@,
        *final(player) == (Player { cards: final(player).cards, ..*old(player) }),
{
    let ghost p0 = *player;
    let mut i: usize = 0;
    while i < cards.len()
        invariant
            i <= cards.len(),
            player.cards@ == p0.cards@ + cards@.take(i as int),
            *player == (Player { cards: player.cards, ..p0 }),
        decreases cards.len() - i,
    {
        player.cards.push(cards[i]);
        i = i + 1;
        assert(player.cards@ =~= p0.cards@ + cards@.take(i as int));
    }
    assert(cards@.take(i as int) =~= cards@);
}

} // verus!
