use vstd::prelude::*;

use crate::error::LiarsBarsError;
use crate::state::{find_player, key_position, lemma_key_position, Card, LiarsTable, Player, PlayerKey};

verus! {

/// `digits` read as a number in base 100, the first digit the most significant.
pub open spec fn pack_base100(digits: Seq<u128>) -> int
    decreases digits.len(),
{
    if digits.len() == 0 {
        0
    } else {
        pack_base100(digits.drop_last()) * 100 + digits.last()
    }
}

/// The value handles of `cards`, in order.
pub open spec fn values_of(cards: Seq<Card>) -> Seq<u128> {
    cards.map_values(|c: Card| c.value)
}

/// The shape handles of `cards`, in order.
pub open spec fn shapes_of(cards: Seq<Card>) -> Seq<u128> {
    cards.map_values(|c: Card| c.shape)
}

/// Whether the index `i` of the hand is among the picks.
pub open spec fn is_picked(picked: Seq<u8>, i: int) -> bool {
    exists|j: int| 0 <= j < picked.len() && picked[j] as int == i
}

/// The cards among the first `k` of the hand that are not picked, in hand order.
pub open spec fn kept_upto(cards: Seq<Card>, picked: Seq<u8>, k: nat) -> Seq<Card>
    decreases k,
{
    if k == 0 {
        seq![]
    } else {
        kept_upto(cards, picked, (k - 1) as nat) + if is_picked(picked, k - 1) {
            Seq::<Card>::empty()
        } else {
            seq![cards[k - 1]]
        }
    }
}

/// The picked cards among the first `k` of the hand, the highest index first: the order in
/// which they are taken out of the hand.
pub open spec fn laid_upto(cards: Seq<Card>, picked: Seq<u8>, k: nat) -> Seq<Card>
    decreases k,
{
    if k == 0 {
        seq![]
    } else {
        (if is_picked(picked, k - 1) {
            seq![cards[k - 1]]
        } else {
            Seq::<Card>::empty()
        }) + laid_upto(cards, picked, (k - 1) as nat)
    }
}

/// The hand after the play: the cards not picked, in their order.
pub open spec fn kept_cards(cards: Seq<Card>, picked: Seq<u8>) -> Seq<Card> {
    kept_upto(cards, picked, cards.len())
}

/// The cards laid on the table by the play: the picked cards, the highest index first.
pub open spec fn laid_cards(cards: Seq<Card>, picked: Seq<u8>) -> Seq<Card> {
    laid_upto(cards, picked, cards.len())
}

proof fn lemma_split_upto(cards: Seq<Card>, picked: Seq<u8>, k: nat)
    requires
        k <= cards.len(),
    ensures
        (kept_upto(cards, picked, k) + laid_upto(cards, picked, k)).to_multiset()
            == cards.take(k as int).to_multiset(),
    decreases k,
{
    broadcast use vstd::multiset::group_multiset_axioms;
    if k > 0 {
        let kp = kept_upto(cards, picked, (k - 1) as nat);
        let lp = laid_upto(cards, picked, (k - 1) as nat);
        lemma_split_upto(cards, picked, (k - 1) as nat);
        let c = cards[k - 1];
        assert(cards.take(k as int) =~= cards.take(k - 1).push(c));
        vstd::seq_lib::to_multiset_build(cards.take(k - 1), c);
        vstd::seq_lib::lemma_multiset_commutative(kp, lp);
        if is_picked(picked, k - 1) {
            let l = seq![c] + lp;
            vstd::seq_lib::lemma_multiset_commutative(kp, l);
            vstd::seq_lib::lemma_seq_union_to_multiset_commutative(seq![c], lp);
            assert(lp + seq![c] =~= lp.push(c));
            vstd::seq_lib::to_multiset_build(lp, c);
            assert(kept_upto(cards, picked, k) =~= kp);
            assert((kp + l).to_multiset() =~= (kp + lp).to_multiset().insert(c));
        } else {
            let kk = kp + seq![c];
            assert(kk =~= kp.push(c));
            vstd::seq_lib::to_multiset_build(kp, c);
            vstd::seq_lib::lemma_multiset_commutative(kk, lp);
            assert((kk + lp).to_multiset() =~= (kp + lp).to_multiset().insert(c));
        }
    } else {
        assert(cards.take(0) =~= Seq::<Card>::empty());
        assert(kept_upto(cards, picked, 0) + laid_upto(cards, picked, 0) =~= Seq::<Card>::empty());
    }
}

/// A play splits the hand: the cards kept and the cards laid together are the old hand,
/// each card as often as before.
pub proof fn lemma_play_splits_hand(cards: Seq<Card>, picked: Seq<u8>)
    ensures
        (kept_cards(cards, picked) + laid_cards(cards, picked)).to_multiset() == cards.to_multiset(),
{
    lemma_split_upto(cards, picked, cards.len());
    assert(cards.take(cards.len() as int) =~= cards);
}

/// The places `0..n` of the hand that some pick names, in order.
pub open spec fn named_places(picked: Seq<u8>, n: nat) -> Seq<int> {
    Seq::new(n, |i: int| i).filter(|i: int| exists|j: int| 0 <= j < picked.len() && picked[j] as int == i)
}

proof fn lemma_play_upto(cards: Seq<Card>, picked: Seq<u8>, k: nat)
    requires
        k <= cards.len(),
    ensures
        laid_upto(cards, picked, k).len() == named_places(picked, k).len(),
        kept_upto(cards, picked, k).len() == k - named_places(picked, k).len(),
        forall|j: int|
            0 <= j < picked.len() && (#[trigger] picked[j] as int) < k ==> laid_upto(cards, picked, k).contains(
                cards[picked[j] as int],
            ),
        forall|i: int|
            0 <= i < k && (forall|j: int| 0 <= j < picked.len() ==> #[trigger] picked[j] as int != i)
                ==> kept_upto(cards, picked, k).contains(#[trigger] cards[i]),
    decreases k,
{
    let p = |i: int| exists|j: int| 0 <= j < picked.len() && picked[j] as int == i;
    if k == 0 {
        assert(Seq::new(0, |i: int| i).filter(p) =~= Seq::<int>::empty());
    } else {
        let m = (k - 1) as nat;
        lemma_play_upto(cards, picked, m);
        assert(Seq::new(k, |i: int| i) =~= Seq::new(m, |i: int| i).push(m as int));
        Seq::new(m, |i: int| i).lemma_filter_len_push(p, m as int);
        let lp = laid_upto(cards, picked, m);
        let kp = kept_upto(cards, picked, m);
        let c = cards[m as int];
        if is_picked(picked, m as int) {
            assert(p(m as int));
            assert(laid_upto(cards, picked, k) == seq![c] + lp);
            assert(kept_upto(cards, picked, k) =~= kp);
        } else {
            assert(!p(m as int));
            assert(laid_upto(cards, picked, k) =~= lp);
            assert(kept_upto(cards, picked, k) == kp + seq![c]);
        }
        let lk = laid_upto(cards, picked, k);
        let kk = kept_upto(cards, picked, k);
        assert forall|j: int|
            0 <= j < picked.len() && (#[trigger] picked[j] as int) < k implies lk.contains(
                cards[picked[j] as int],
            ) by {
            if (picked[j] as int) < m {
                let w = choose|w: int| 0 <= w < lp.len() && lp[w] == cards[picked[j] as int];
                if is_picked(picked, m as int) {
                    assert(lk[w + 1] == lp[w]);
                } else {
                    assert(lk[w] == lp[w]);
                }
            } else {
                assert(is_picked(picked, m as int));
                assert(lk[0] == c);
            }
        }
        assert forall|i: int|
            0 <= i < k && (forall|j: int| 0 <= j < picked.len() ==> #[trigger] picked[j] as int != i)
                implies kk.contains(#[trigger] cards[i]) by {
            if i < m {
                let w = choose|w: int| 0 <= w < kp.len() && kp[w] == cards[i];
                assert(kk[w] == kp[w]);
            } else {
                assert(!is_picked(picked, m as int));
                assert(kk[kk.len() - 1] == c);
            }
        }
    }
}

/// A play lays every card that a pick names inside the hand and keeps every card that no
/// pick names: as many cards are laid as there are places of the hand named by picks, and the
/// hand shrinks by exactly that many.
pub proof fn lemma_play_lays_every_picked_card(cards: Seq<Card>, picked: Seq<u8>)
    ensures
        forall|j: int|
            0 <= j < picked.len() && (#[trigger] picked[j] as int) < cards.len() ==> laid_cards(cards, picked).contains(
                cards[picked[j] as int],
            ),
        forall|i: int|
            0 <= i < cards.len() && (forall|j: int| 0 <= j < picked.len() ==> #[trigger] picked[j] as int != i)
                ==> kept_cards(cards, picked).contains(#[trigger] cards[i]),
        laid_cards(cards, picked).len() == named_places(picked, cards.len()).len(),
        kept_cards(cards, picked).len() == cards.len() - named_places(picked, cards.len()).len(),
{
    lemma_play_upto(cards, picked, cards.len());
}

/// The number of picked cards as the count that is taken from the first seat's cards.
pub open spec fn picked_count(picked: Seq<u8>) -> int {
    picked.len() as int % 256
}

/// The step at which the search for the next seat to play stops, starting from step `j`:
/// the first step `j < n` whose seat `(st + j) % n` has cards left or lies outside
/// `cards_left`, or `n` when every other seat has run out of cards.
pub open spec fn scan_stop(cards_left: Seq<u8>, n: int, st: int, j: int) -> int
    decreases n - j,
{
    if j >= n {
        n
    } else {
        let seat = (st + j) % n;
        if seat >= cards_left.len() || cards_left[seat] != 0 {
            j
        } else {
            scan_stop(cards_left, n, st, j + 1)
        }
    }
}

/// The search from seat `st` stops on a seat that it can read.
pub open spec fn scan_in_bounds(cards_left: Seq<u8>, n: int, st: int) -> bool {
    let stop = scan_stop(cards_left, n, st, 1);
    stop == n || (st + stop) % n < cards_left.len()
}

/// The seat that plays next after seat `st`.
pub open spec fn next_seat(cards_left: Seq<u8>, n: int, st: int) -> int {
    (st + scan_stop(cards_left, n, st, 1)) % n
}

/// What a play hands back.
pub struct PlaceOutcome {
    /// When the player held cards: the shapes and the values of the cards kept, each packed
    /// in base 100, to be encrypted and stored as the player's `card_values`.
    pub packed: Option<(u128, u128)>,
    /// Whether no other seat has cards left, so that a new round must start.
    pub round_over: bool,
    /// The player named in the announcement of the turn.
    pub announced: PlayerKey,
}

proof fn lemma_pack_prefix(digits: Seq<u128>, i: int)
    requires
        0 <= i <= digits.len(),
    ensures
        0 <= pack_base100(digits.take(i)) <= pack_base100(digits),
    decreases digits.len() - i,
{
    if i < digits.len() {
        lemma_pack_prefix(digits, i + 1);
        lemma_pack_nonneg(digits.take(i));
        assert(digits.take(i + 1).drop_last() =~= digits.take(i));
    } else {
        assert(digits.take(i) =~= digits);
    }
    lemma_pack_nonneg(digits);
}

proof fn lemma_pack_nonneg(digits: Seq<u128>)
    ensures
        pack_base100(digits) >= 0,
    decreases digits.len(),
{
    if digits.len() > 0 {
        lemma_pack_nonneg(digits.drop_last());
    }
}

proof fn lemma_seat_step(st: int, j: int, n: int)
    requires
        0 <= st < n,
        1 <= j < n,
    ensures
        ((st + j) % n + 1) % n == (st + j + 1) % n,
        (st + j) % n != st,
        0 <= (st + j) % n < n,
{
    if st + j < n {
        vstd::arithmetic::div_mod::lemma_small_mod((st + j) as nat, n as nat);
    } else {
        vstd::arithmetic::div_mod::lemma_small_mod((st + j - n) as nat, n as nat);
        vstd::arithmetic::div_mod::lemma_mod_add_multiples_vanish(st + j - n, n);
    }
    if st + j + 1 < n {
        vstd::arithmetic::div_mod::lemma_small_mod((st + j + 1) as nat, n as nat);
    } else {
        vstd::arithmetic::div_mod::lemma_small_mod((st + j + 1 - n) as nat, n as nat);
        vstd::arithmetic::div_mod::lemma_mod_add_multiples_vanish(st + j + 1 - n, n);
    }
    let s = (st + j) % n;
    if s + 1 < n {
        vstd::arithmetic::div_mod::lemma_small_mod((s + 1) as nat, n as nat);
    } else {
        vstd::arithmetic::div_mod::lemma_mod_self_0(n);
    }
}

proof fn lemma_seat_full_turn(st: int, n: int)
    requires
        0 <= st < n,
    ensures
        (st + n) % n == st,
        (st + 1) % n == if st + 1 == n { 0 } else { st + 1 },
{
    vstd::arithmetic::div_mod::lemma_small_mod(st as nat, n as nat);
    vstd::arithmetic::div_mod::lemma_mod_add_multiples_vanish(st, n);
    if st + 1 < n {
        vstd::arithmetic::div_mod::lemma_small_mod((st + 1) as nat, n as nat);
    } else {
        vstd::arithmetic::div_mod::lemma_mod_self_0(n);
    }
}

/// Whether the index `i` is among `picked`.
fn picks(picked: &Vec<u8>, i: usize) -> (res: bool)
    ensures
        res == is_picked(picked@, i as int),
{
    let mut j: usize = 0;
    while j < picked.len()
        invariant
            j <= picked.len(),
            forall|k: int| 0 <= k < j ==> picked@[k] as int != i,
        decreases picked.len() - j,
    {
        if picked[j] as usize == i {
            return true;
        }
        j = j + 1;
    }
    false
}

/// The hand split by the play: the kept cards and the laid cards.
pub fn split_hand(cards: &Vec<Card>, picked: &Vec<u8>) -> (res: (Vec<Card>, Vec<Card>))
    ensures
        res.0@ == kept_cards(cards@, picked@),
        res.1@ == laid_cards(cards@, picked@),
{
    let mut kept: Vec<Card> = Vec::new();
    let mut laid: Vec<Card> = Vec::new();
    let mut i: usize = 0;
    while i < cards.len()
        invariant
            i <= cards.len(),
            kept@ == kept_upto(cards@, picked@, i as nat),
            laid@ == laid_upto(cards@, picked@, i as nat),
        decreases cards.len() - i,
    {
        if picks(picked, i) {
            laid.insert(0, cards[i]);
        } else {
            kept.push(cards[i]);
        }
        i = i + 1;
        assert(kept@ =~= kept_upto(cards@, picked@, i as nat));
        assert(laid@ =~= laid_upto(cards@, picked@, i as nat));
    }
    (kept, laid)
}

/// The shapes and the values of `cards`, each packed in base 100, when both fit in 128 bits.
pub fn pack_cards(cards: &Vec<Card>) -> (packed: Option<(u128, u128)>)
    ensures
        packed is Some <==> (pack_base100(shapes_of(cards@)) <= u128::MAX && pack_base100(
            values_of(cards@),
        ) <= u128::MAX),
        packed matches Some(p) ==> p.0 == pack_base100(shapes_of(cards@)) && p.1 == pack_base100(
            values_of(cards@),
        ),
{
    let ghost all_shapes = shapes_of(cards@);
    let ghost all_values = values_of(cards@);
    let mut shapes: u128 = 0;
    let mut values: u128 = 0;
    let mut i: usize = 0;
    while i < cards.len()
        invariant
            i <= cards.len(),
            all_shapes == shapes_of(cards@),
            all_values == values_of(cards@),
            shapes == pack_base100(all_shapes.take(i as int)),
            values == pack_base100(all_values.take(i as int)),
        decreases cards.len() - i,
    {
        proof {
            lemma_pack_prefix(all_shapes, i + 1);
            lemma_pack_prefix(all_values, i + 1);
            assert(all_shapes.take(i + 1).drop_last() =~= all_shapes.take(i as int));
            assert(all_values.take(i + 1).drop_last() =~= all_values.take(i as int));
            assert(all_shapes.take(i + 1).last() == cards@[i as int].shape);
            assert(all_values.take(i + 1).last() == cards@[i as int].value);
        }
        let next_shapes = match shapes.checked_mul(100) {
            Some(x) => x.checked_add(cards[i].shape),
            None => None,
        };
        let next_values = match values.checked_mul(100) {
            Some(x) => x.checked_add(cards[i].value),
            None => None,
        };
        match (next_shapes, next_values) {
            (Some(a), Some(b)) => {
                shapes = a;
                values = b;
            },
            _ => {
                return None;
            },
        }
        i = i + 1;
    }
    assert(all_shapes.take(i as int) =~= all_shapes);
    assert(all_values.take(i as int) =~= all_values);
    Some((shapes, values))
}

/// The turn passes to the first seat after `st`, going round, that still holds cards; when no
/// other seat holds cards, the round is over and the turn stays with `st`.
pub proof fn lemma_next_seat(cards_left: Seq<u8>, n: int, st: int)
    requires
        0 <= st < n,
        n <= cards_left.len(),
    ensures
        ({
            let stop = scan_stop(cards_left, n, st, 1);
            let next = next_seat(cards_left, n, st);
            &&& 0 <= next < n
            &&& stop < n ==> next != st && cards_left[next] != 0
            &&& forall|j: int| 1 <= j < stop ==> #[trigger] cards_left[(st + j) % n] == 0
            &&& stop == n ==> next == st && forall|s: int| 0 <= s < n && s != st ==> #[trigger] cards_left[s] == 0
        }),
{
    lemma_scan_stop(cards_left, n, st, 1);
    let stop = scan_stop(cards_left, n, st, 1);
    if stop < n {
        lemma_seat_step(st, stop, n);
    } else {
        lemma_seat_full_turn(st, n);
        assert forall|s: int| 0 <= s < n && s != st implies #[trigger] cards_left[s] == 0 by {
            let j = if s > st { s - st } else { s - st + n };
            lemma_seat_step(st, j, n);
            if s > st {
                vstd::arithmetic::div_mod::lemma_small_mod(s as nat, n as nat);
            } else {
                vstd::arithmetic::div_mod::lemma_small_mod(s as nat, n as nat);
                vstd::arithmetic::div_mod::lemma_mod_add_multiples_vanish(s, n);
            }
            assert(cards_left[(st + j) % n] == 0);
        }
    }
}

proof fn lemma_scan_stop(cards_left: Seq<u8>, n: int, st: int, from: int)
    requires
        0 <= st < n,
        1 <= from <= n,
        n <= cards_left.len(),
    ensures
        from <= scan_stop(cards_left, n, st, from) <= n,
        forall|j: int| from <= j < scan_stop(cards_left, n, st, from) ==> #[trigger] cards_left[(st + j) % n] == 0,
        scan_stop(cards_left, n, st, from) < n ==> cards_left[(st + scan_stop(cards_left, n, st, from)) % n] != 0,
    decreases n - from,
{
    if from < n {
        lemma_seat_step(st, from, n);
        let seat = (st + from) % n;
        if cards_left[seat] == 0 {
            lemma_scan_stop(cards_left, n, st, from + 1);
        }
    }
}

/// The seat that plays after seat `st` among `n` seats, and whether every other seat has
/// run out of cards; nothing when the search would read a seat that `cards_left` lacks.
fn find_next_seat(cards_left: &Vec<u8>, n: usize, st: usize) -> (res: Option<(usize, bool)>)
    requires
        st < n,
    ensures
        res is Some <==> scan_in_bounds(cards_left@, n as int, st as int),
        res matches Some(r) ==> r.0 == next_seat(cards_left@, n as int, st as int) && r.1 == (
        scan_stop(cards_left@, n as int, st as int, 1) == n),
{
    let ghost stop = scan_stop(cards_left@, n as int, st as int, 1);
    let mut idx = (st + 1) % n;
    let ghost mut j: int = 1;
    proof {
        if n == 1 {
            lemma_seat_full_turn(st as int, n as int);
        } else {
            lemma_seat_step(st as int, 1, n as int);
        }
    }
    while idx != st
        invariant
            st < n,
            1 <= j <= n,
            idx == (st + j) % (n as int),
            j == n <==> idx == st,
            stop == scan_stop(cards_left@, n as int, st as int, 1),
            stop == scan_stop(cards_left@, n as int, st as int, j),
        decreases n - j,
    {
        proof {
            lemma_seat_step(st as int, j, n as int);
        }
        if idx >= cards_left.len() {
            assert(stop == j);
            return None;
        }
        if cards_left[idx] != 0 {
            assert(stop == j);
            return Some((idx, false));
        }
        idx = (idx + 1) % n;
        proof {
            j = j + 1;
            if j == n {
                lemma_seat_full_turn(st as int, n as int);
            } else {
                lemma_seat_step(st as int, j, n as int);
            }
        }
    }
    Some((idx, true))
}

/// The cards left per seat after a play: when the player held cards, the count of the first
/// seat (whoever plays) drops by the number of picks.
pub open spec fn cards_left_after(table: LiarsTable, cards: Seq<Card>, picked: Seq<u8>) -> Seq<u8> {
    if cards.len() != 0 {
        table.player_cards_left@.update(0, (table.player_cards_left@[0] - picked_count(picked)) as u8)
    } else {
        table.player_cards_left@
    }
}

/// The play runs to its end without a fault: when it gets past the turn checks with a hand,
/// the packed kept cards fit in 128 bits and the first seat has a count of cards left; and
/// when it is not refused, the search for the next seat reads only seats that have a count.
pub open spec fn play_is_defined(table: LiarsTable, cards: Seq<Card>, user: PlayerKey, picked: Seq<u8>) -> bool {
    let pos = key_position(table.players@, user);
    let n = table.players.len();
    let proceeds = pos < n && pos == table.trun_to_play && table.suffle_trun >= n;
    &&& proceeds && cards.len() != 0 ==> {
        &&& pack_base100(shapes_of(kept_cards(cards, picked))) <= u128::MAX
        &&& pack_base100(values_of(kept_cards(cards, picked))) <= u128::MAX
        &&& table.player_cards_left.len() > 0
    }
    &&& proceeds && !(cards.len() != 0 && table.player_cards_left@[0] < picked_count(picked))
        ==> scan_in_bounds(cards_left_after(table, cards, picked), n as int, pos)
}

/// Whether `handler` can run on these inputs: `play_is_defined`. A caller tests it first,
/// since the play faults otherwise.
pub fn can_play(table: &LiarsTable, player: &Player, user: &PlayerKey, picked_indexs: &Vec<u8>) -> (ok: bool)
    ensures
        ok == play_is_defined(*table, player.cards@, *user, picked_indexs@),
{
    let pos = find_player(&table.players, user);
    let n = table.players.len();
    if !(pos < n && pos == table.trun_to_play as usize && table.suffle_trun as usize >= n) {
        return true;
    }
    if player.cards.len() == 0 {
        return find_next_seat(&table.player_cards_left, n, pos).is_some();
    }
    if table.player_cards_left.len() == 0 {
        return false;
    }
    let (kept, _laid) = split_hand(&player.cards, picked_indexs);
    if pack_cards(&kept).is_none() {
        return false;
    }
    let count = (picked_indexs.len() % 256) as u8;
    let first = table.player_cards_left[0];
    if first < count {
        return true;
    }
    let mut left = table.player_cards_left.clone();
    assert(left@ =~= table.player_cards_left@);
    left.set(0, first - count);
    find_next_seat(&left, n, pos).is_some()
}

/// Plays the cards at `picked_indexs` from the hand of `user`, if it is that player's turn,
/// and passes the turn on.
///
/// A user who is not seated is refused with `NotEligible`, one whose seat is not
/// `trun_to_play` with `NotYourTrun`, and a play before every seat has been dealt with
/// `ShuffleNotComplete`. When the hand is not empty, the picked cards replace the cards on the
/// table (`laid_cards`; picks past the hand or repeated name no further card), the hand
/// keeps the others in order (`kept_cards`), the kept shapes
/// and values are packed, and the number of picks is taken from the first seat's count of
/// cards left, which is refused with `NotEligible` when it would go below zero. The turn then
/// passes to `next_seat`; when no other seat has cards left the round is over and the turn
/// stays. A refused play changes nothing.
pub fn handler(
    table: &mut LiarsTable,
    player: &mut Player,
    user: &PlayerKey,
    picked_indexs: Vec<u8>,
) -> (res: Result<PlaceOutcome, LiarsBarsError>)
    requires
        play_is_defined(*old(table), old(player).cards@, *user, picked_indexs@),
    ensures
        ({
            let pos = key_position(old(table).players@, *user);
            let cards = old(player).cards@;
            let n = old(table).players.len();
            let left = cards_left_after(*old(table), cards, picked_indexs@);
            let unchanged = *final(table) == *old(table) && *final(player) == *old(player);
            if pos >= n {
                res == Err::<PlaceOutcome, LiarsBarsError>(LiarsBarsError::NotEligible) && unchanged
            } else if pos != old(table).trun_to_play {
                res == Err::<PlaceOutcome, LiarsBarsError>(LiarsBarsError::NotYourTrun) && unchanged
            } else if old(table).suffle_trun < n {
                res == Err::<PlaceOutcome, LiarsBarsError>(LiarsBarsError::ShuffleNotComplete) && unchanged
            } else if cards.len() != 0 && old(table).player_cards_left@[0] < picked_count(picked_indexs@) {
                res == Err::<PlaceOutcome, LiarsBarsError>(LiarsBarsError::NotEligible) && unchanged
            } else {
                match res {
                    Ok(out) => {
                        let next = next_seat(left, n as int, pos);
                        &&& out.packed == if cards.len() != 0 {
                            Some(
                                (
                                    pack_base100(shapes_of(kept_cards(cards, picked_indexs@))) as u128,
                                    pack_base100(values_of(kept_cards(cards, picked_indexs@))) as u128,
                                ),
                            )
                        } else {
                            None
                        }
                        &&& final(player).cards@ == if cards.len() != 0 {
                            kept_cards(cards, picked_indexs@)
                        } else {
                            cards
                        }
                        &&& *final(player) == (Player { cards: final(player).cards, ..*old(player) })
                        &&& final(table).cards_on_table@ == if cards.len() != 0 {
                            laid_cards(cards, picked_indexs@)
                        } else {
                            old(table).cards_on_table@
                        }
                        &&& final(table).player_cards_left@ == left
                        &&& *final(table) == (LiarsTable {
                            cards_on_table: final(table).cards_on_table,
                            player_cards_left: final(table).player_cards_left,
                            trun_to_play: next as u8,
                            ..*old(table)
                        })
                        &&& out.round_over == (scan_stop(left, n as int, pos, 1) == n)
                        &&& out.announced == old(table).players@[(next + 1) % (n as int)]
                    },
                    Err(_) => false,
                }
            }
        }),
{
    let pos = find_player(&table.players, user);
    proof {
        lemma_key_position(table.players@, *user);
    }
    if pos >= table.players.len() {
        return Err(LiarsBarsError::NotEligible);
    }
    if pos != table.trun_to_play as usize {
        return Err(LiarsBarsError::NotYourTrun);
    }
    if (table.suffle_trun as usize) < table.players.len() {
        return Err(LiarsBarsError::ShuffleNotComplete);
    }
    let n = table.players.len();
    let mut packed: Option<(u128, u128)> = None;
    if player.cards.len() != 0 {
        let picked_count = picked_indexs.len();
        let (kept, laid) = split_hand(&player.cards, &picked_indexs);
        let shapes_values = pack_cards(&kept).unwrap();
        let left = table.player_cards_left[0];
        let count = (picked_count % 256) as u8;
        if left < count {
            return Err(LiarsBarsError::NotEligible);
        }
        table.cards_on_table = laid;
        player.cards = kept;
        table.player_cards_left.set(0, left - count);
        packed = Some(shapes_values);
    }
    let (next, round_over) = find_next_seat(&table.player_cards_left, n, pos).unwrap();
    table.trun_to_play = next as u8;
    let announced = table.players[(next + 1) % n];
    Ok(PlaceOutcome { packed, round_over, announced })
}

/// Stores the encrypted packed shapes and values of the kept cards as the player's
/// `card_values`.
pub fn record_card_values(player: &mut Player, packed: Card)
    ensures
        *final(player) == (Player { card_values: packed, ..*old(player) }),
{
    player.card_values = packed;
}

} // verus!

