use vstd::prelude::*;

verus! {

/// A player's 32-byte account address, held as its two 128-bit halves.
#[derive(Clone, Copy, Debug, PartialEq, Eq, Structural)]
pub struct PlayerKey {
    pub hi: u128,
    pub lo: u128,
}

/// A card as the game stores it: the handle of its shape and the handle of its value.
#[derive(Clone, Copy, Debug, PartialEq, Eq, Structural)]
pub struct Card {
    pub shape: u128,
    pub value: u128,
}

/// One shape's row of the deck: `values[v]` is true once the card of value `v` is out of the deck.
#[derive(Clone, Debug, PartialEq, Eq)]
pub struct DeckRow {
    pub values: Vec<bool>,
}

/// The shared state of one table.
#[derive(Clone, Debug, PartialEq, Eq)]
pub struct LiarsTable {
    /// The number that names the table.
    pub table_id: u128,
    /// The shape that players claim to lay down this round.
    pub table_card: u8,
    /// The cards laid down by the last play.
    pub cards_on_table: Vec<Card>,
    /// For each player, the chambers left in their revolver.
    pub remaining_bullet: Vec<u8>,
    /// Whether players may still join.
    pub is_open: bool,
    pub is_over: bool,
    /// The players, in seating order.
    pub players: Vec<PlayerKey>,
    /// Which cards of the 4 x 13 deck are out of the deck.
    pub deck: Vec<DeckRow>,
    /// The seat whose turn it is to play.
    pub trun_to_play: u8,
    /// The seat whose turn it is to be dealt.
    pub suffle_trun: u8,
    /// For each seat, the cards that player still holds.
    pub player_cards_left: Vec<u8>,
}

/// The state of one player at one table.
#[derive(Clone, Debug, PartialEq, Eq)]
pub struct Player {
    pub character_id: String,
    pub table_id: u128,
    /// The cards in the player's hand.
    pub cards: Vec<Card>,
    /// The packed shapes and values of the cards the player kept at the last play.
    pub card_values: Card,
    pub is_eliminated: bool,
    pub placed_cards: Vec<bool>,
}

/// A lobby that players gather in.
#[derive(Clone, Debug, PartialEq, Eq)]
pub struct GameRoom {
    pub room_id: u64,
    pub is_open: bool,
    pub startgame: bool,
    pub players: Vec<PlayerKey>,
}

/// A table with a shared revolver.
#[derive(Clone, Debug, PartialEq, Eq)]
pub struct GameTable {
    pub table_id: u64,
    pub bullet_index: u8,
    /// The handles of the chambers: each says whether the chamber is loaded.
    pub bullet: Vec<u128>,
}

/// The seat of the first occurrence of `key` among `players`, or the number of players
/// when `key` is not seated.
pub open spec fn key_position(players: Seq<PlayerKey>, key: PlayerKey) -> int
    decreases players.len(),
{
    if players.len() == 0 {
        0
    } else {
        let p = key_position(players.drop_last(), key);
        if p < players.len() - 1 {
            p
        } else if players.last() == key {
            players.len() - 1
        } else {
            players.len() as int
        }
    }
}

/// `s` after `Vec::swap_remove(i)`: the last item takes the place of item `i`.
pub open spec fn swap_removed<T>(s: Seq<T>, i: int) -> Seq<T> {
    s.update(i, s.last()).drop_last()
}

/// What `key_position` is: no earlier seat holds the key, and the seat found holds it.
pub proof fn lemma_key_position(players: Seq<PlayerKey>, key: PlayerKey)
    ensures
        0 <= key_position(players, key) <= players.len(),
        forall|j: int| 0 <= j < key_position(players, key) ==> players[j] != key,
        key_position(players, key) < players.len() ==> players[key_position(players, key)] == key,
        key_position(players, key) < players.len() <==> players.contains(key),
    decreases players.len(),
{
    if players.len() > 0 {
        let prev = players.drop_last();
        lemma_key_position(prev, key);
        let p = key_position(players, key);
        assert forall|j: int| 0 <= j < p implies players[j] != key by {
            if j < players.len() - 1 {
                assert(players[j] == prev[j]);
            }
        }
        if players.contains(key) {
            let k = choose|k: int| 0 <= k < players.len() && players[k] == key;
            if k < players.len() - 1 {
                assert(prev[k] == key);
            }
        }
    }
}

/// Removing seat `i` the way `Vec::swap_remove` does takes exactly that one entry out: the
/// other entries stay, each as often as before.
pub proof fn lemma_swap_removed_multiset<T>(s: Seq<T>, i: int)
    requires
        0 <= i < s.len(),
    ensures
        swap_removed(s, i).to_multiset() == s.to_multiset().remove(s[i]),
        swap_removed(s, i).len() == s.len() - 1,
{
    broadcast use vstd::multiset::group_multiset_axioms;
    let u = s.update(i, s.last());
    vstd::seq_lib::to_multiset_update(s, i, s.last());
    vstd::seq_lib::to_multiset_remove(u, u.len() - 1);
    assert(u.remove(u.len() - 1) =~= u.drop_last());
    assert(u[u.len() - 1] == s.last());
    assert(s.to_multiset().insert(s.last()).remove(s[i]).remove(s.last()) =~= s.to_multiset().remove(s[i]));
}

/// A player who leaves gives up exactly one seat: the seating loses one entry of that
/// player's key and keeps every other entry.
pub proof fn lemma_leaving_frees_one_seat(players: Seq<PlayerKey>, key: PlayerKey)
    requires
        players.contains(key),
    ensures
        swap_removed(players, key_position(players, key)).to_multiset() == players.to_multiset().remove(key),
{
    lemma_key_position(players, key);
    lemma_swap_removed_multiset(players, key_position(players, key));
}

/// The seat of `key` among `players`, or `players.len()` when it is not seated.
pub fn find_player(players: &Vec<PlayerKey>, key: &PlayerKey) -> (pos: usize)
    ensures
        pos == key_position(players@, *key),
{
    let mut i: usize = 0;
    while i < players.len()
        invariant
            i <= players.len(),
            forall|j: int| 0 <= j < i ==> players@[j] != *key,
        decreases players.len() - i,
    {
        if players[i] == *key {
            proof {
                lemma_key_position(players@, *key);
            }
            return i;
        }
        i = i + 1;
    }
    proof {
        lemma_key_position(players@, *key);
    }
    i
}

} // verus!
