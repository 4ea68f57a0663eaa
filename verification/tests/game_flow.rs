use liars_bars::constant::MAX_PLAYERS;
use liars_bars::error::LiarsBarsError;
use liars_bars::helpers::reset_round;
use liars_bars::instructions::{
    create_game_table, create_player, create_room, create_table, grant_card_access, join_table,
    liars_call, place_cards, quit_table, start_rounds, suffle_cards,
};
use liars_bars::state::{Card, DeckRow, GameRoom, GameTable, LiarsTable, Player, PlayerKey};

fn key(n: u128) -> PlayerKey {
    PlayerKey { hi: n, lo: n * 7 + 1 }
}

fn full_deck() -> Vec<DeckRow> {
    (0..4).map(|_| DeckRow { values: vec![false; 13] }).collect()
}

fn deck_with_free(free: &[(usize, usize)]) -> Vec<DeckRow> {
    let mut deck: Vec<DeckRow> = (0..4).map(|_| DeckRow { values: vec![true; 13] }).collect();
    for &(s, v) in free {
        deck[s].values[v] = false;
    }
    deck
}

fn table_with(players: &[u128]) -> LiarsTable {
    LiarsTable {
        table_id: 9,
        table_card: 0,
        cards_on_table: Vec::new(),
        remaining_bullet: vec![6; players.len()],
        is_open: false,
        is_over: false,
        players: players.iter().map(|&p| key(p)).collect(),
        deck: full_deck(),
        trun_to_play: 0,
        suffle_trun: 0,
        player_cards_left: vec![5; players.len()],
    }
}

fn card(shape: u128, value: u128) -> Card {
    Card { shape, value }
}

fn player_with(cards: Vec<Card>) -> Player {
    Player {
        character_id: String::from("rogue"),
        table_id: 9,
        cards,
        card_values: card(0, 0),
        is_eliminated: false,
        placed_cards: Vec::new(),
    }
}

#[test]
fn create_table_opens_and_numbers_the_table() {
    let mut table = table_with(&[]);
    table.is_open = false;
    table.trun_to_play = 3;
    table.suffle_trun = 2;
    create_table::handler(&mut table, 77);
    assert_eq!(table.table_id, 77);
    assert!(table.is_open);
    assert_eq!(table.trun_to_play, 0);
    assert_eq!(table.suffle_trun, 0);
    assert_eq!(table.remaining_bullet, Vec::<u8>::new());
}

#[test]
fn join_table_seats_until_full() {
    let mut table = table_with(&[]);
    table.is_open = true;
    for p in 0..MAX_PLAYERS as u128 {
        assert_eq!(join_table::join_table_handler(&mut table, key(p)), Ok(()));
    }
    assert_eq!(table.players.len(), MAX_PLAYERS);
    assert_eq!(table.players[4], key(4));
    let before = table.clone();
    assert_eq!(
        join_table::join_table_handler(&mut table, key(99)),
        Err(LiarsBarsError::TableIsFull)
    );
    assert_eq!(table, before);
}

#[test]
fn join_table_refuses_a_started_table() {
    let mut table = table_with(&[1, 2]);
    table.is_open = false;
    let before = table.clone();
    assert_eq!(
        join_table::join_table_handler(&mut table, key(3)),
        Err(LiarsBarsError::NotEligible)
    );
    assert_eq!(table, before);
}

#[test]
fn join_table_seats_at_a_fresh_table() {
    let mut table = table_with(&[]);
    table.is_open = false;
    assert_eq!(join_table::join_table_handler(&mut table, key(7)), Ok(()));
    assert_eq!(table.players, vec![key(7)]);
}

#[test]
fn join_table_full_is_full_whatever_the_open_flag() {
    let mut table = table_with(&[1, 2, 3, 4, 5]);
    table.is_open = false;
    assert_eq!(join_table::join_table_handler(&mut table, key(9)), Err(LiarsBarsError::TableIsFull));
    table.is_open = true;
    assert_eq!(join_table::join_table_handler(&mut table, key(9)), Err(LiarsBarsError::TableIsFull));
}

#[test]
fn join_sets_up_the_players_account() {
    let mut table = table_with(&[]);
    let mut player = player_with(vec![card(1, 1)]);
    player.table_id = 0;
    let r = join_table::handler(&mut table, &mut player, key(4), 31, String::from("ace"));
    assert_eq!(r, Ok(()));
    assert_eq!(table.players, vec![key(4)]);
    assert_eq!(player.character_id, "ace");
    assert_eq!(player.table_id, 31);
    assert!(player.cards.is_empty());

    let mut started = table_with(&[1]);
    let mut other = player_with(vec![card(2, 2)]);
    let before = other.clone();
    let r = join_table::handler(&mut started, &mut other, key(5), 9, String::from("bee"));
    assert_eq!(r, Err(LiarsBarsError::NotEligible));
    assert_eq!(other, before);
}

#[test]
fn start_round_needs_a_player() {
    let mut table = table_with(&[]);
    let before = table.clone();
    assert_eq!(start_rounds::handler(&mut table), Err(LiarsBarsError::NeedTwoPlayer));
    assert_eq!(table, before);
}

#[test]
fn start_round_closes_table_and_arms_everyone() {
    let mut table = table_with(&[1, 2, 3]);
    table.is_open = true;
    table.is_over = true;
    table.remaining_bullet = vec![1];
    table.player_cards_left = vec![];
    assert_eq!(start_rounds::handler(&mut table), Ok(()));
    assert!(!table.is_open);
    assert!(!table.is_over);
    assert_eq!(table.remaining_bullet, vec![6, 6, 6]);
    assert_eq!(table.player_cards_left, vec![5, 5, 5]);
}

#[test]
fn reset_round_restores_deck_hands_and_claim() {
    let mut table = table_with(&[1, 2]);
    table.deck = deck_with_free(&[(0, 1)]);
    table.cards_on_table = vec![card(1, 1), card(2, 2)];
    table.suffle_trun = 2;
    table.player_cards_left = vec![0, 3];
    table.trun_to_play = 1;
    reset_round(&mut table, 7);
    assert_eq!(table.table_card, 3);
    assert_eq!(table.deck, full_deck());
    assert!(table.cards_on_table.is_empty());
    assert_eq!(table.suffle_trun, 0);
    assert_eq!(table.player_cards_left, vec![5, 5]);
    assert_eq!(table.trun_to_play, 1);
    reset_round(&mut table, u128::MAX);
    assert_eq!(table.table_card, 3);
    reset_round(&mut table, 12);
    assert_eq!(table.table_card, 0);
}

#[test]
fn shuffle_refuses_out_of_turn() {
    let mut table = table_with(&[1, 2]);
    table.suffle_trun = 1;
    let before = table.clone();
    let res = suffle_cards::handler(&mut table, &key(1), 0);
    assert!(matches!(res, Err(LiarsBarsError::NotYourTrunSuffle)));
    assert_eq!(table, before);
    let res = suffle_cards::handler(&mut table, &key(42), 0);
    assert!(matches!(res, Err(LiarsBarsError::NotYourTrunSuffle)));
    assert_eq!(table, before);
}

#[test]
fn shuffle_refuses_a_stranger_once_every_seat_is_dealt() {
    let mut table = table_with(&[1, 2]);
    table.suffle_trun = 2;
    let before = table.clone();
    assert_eq!(suffle_cards::check_turn(&table, &key(42)), Err(LiarsBarsError::NotYourTrunSuffle));
    let res = suffle_cards::handler(&mut table, &key(42), 0);
    assert!(matches!(res, Err(LiarsBarsError::NotYourTrunSuffle)));
    assert_eq!(table, before);
    table.suffle_trun = 1;
    assert_eq!(suffle_cards::check_turn(&table, &key(2)), Ok(()));
}

#[test]
fn shuffle_deals_five_by_swap_removal() {
    let mut table = table_with(&[1, 2]);
    let out = suffle_cards::handler(&mut table, &key(1), 0).unwrap();
    assert_eq!(out.dealt, vec![(0, 0), (3, 12), (3, 11), (3, 10), (3, 9)]);
    assert_eq!(out.next, key(2));
    assert_eq!(table.suffle_trun, 1);
    for (s, v) in [(0usize, 0usize), (3, 12), (3, 11), (3, 10), (3, 9)] {
        assert!(table.deck[s].values[v]);
    }
    let taken: usize = table.deck.iter().map(|r| r.values.iter().filter(|b| **b).count()).sum();
    assert_eq!(taken, 5);
}

#[test]
fn shuffle_random_picks_follow_base_52() {
    let mut table = table_with(&[1, 2]);
    table.suffle_trun = 1;
    let out = suffle_cards::handler(&mut table, &key(2), 53).unwrap();
    assert_eq!(out.dealt, vec![(0, 1), (3, 12), (0, 0), (3, 10), (3, 9)]);
    assert_eq!(out.next, key(1));
    assert_eq!(table.suffle_trun, 2);

    let mut table = table_with(&[1, 2]);
    let out = suffle_cards::handler(&mut table, &key(1), 19518883).unwrap();
    assert_eq!(out.dealt, vec![(0, 7), (0, 3), (1, 5), (3, 1), (0, 2)]);
}

#[test]
fn shuffle_with_few_cards_left_deals_them_all() {
    let mut table = table_with(&[1]);
    table.deck = deck_with_free(&[(1, 4), (2, 0), (3, 7)]);
    let out = suffle_cards::handler(&mut table, &key(1), 2).unwrap();
    assert_eq!(out.dealt, vec![(3, 7), (1, 4), (2, 0)]);
    assert_eq!(out.next, key(1));
    assert!(table.deck.iter().all(|r| r.values.iter().all(|b| *b)));
    let again = suffle_cards::handler(&mut table, &key(1), 2);
    assert!(matches!(again, Err(LiarsBarsError::NotYourTrunSuffle)));
}

#[test]
fn shuffle_never_deals_a_card_twice() {
    let mut table = table_with(&[1, 2, 3]);
    let mut seen = Vec::new();
    for (seat, r) in [(1u128, 987654321u128), (2, 5), (3, u128::MAX)] {
        let out = suffle_cards::handler(&mut table, &key(seat), r).unwrap();
        for c in out.dealt {
            assert!(!seen.contains(&c));
            seen.push(c);
        }
    }
    assert_eq!(seen.len(), 15);
}

fn ready_table() -> LiarsTable {
    let mut table = table_with(&[1, 2, 3]);
    table.suffle_trun = 3;
    table
}

#[test]
fn place_refuses_strangers_and_out_of_turn_players() {
    let mut table = ready_table();
    let mut player = player_with(vec![card(1, 2)]);
    let before = (table.clone(), player.clone());
    let r = place_cards::handler(&mut table, &mut player, &key(8), vec![0]);
    assert!(matches!(r, Err(LiarsBarsError::NotEligible)));
    let r = place_cards::handler(&mut table, &mut player, &key(2), vec![0]);
    assert!(matches!(r, Err(LiarsBarsError::NotYourTrun)));
    table.suffle_trun = 2;
    let r = place_cards::handler(&mut table, &mut player, &key(1), vec![0]);
    assert!(matches!(r, Err(LiarsBarsError::ShuffleNotComplete)));
    table.suffle_trun = 3;
    assert_eq!((table, player), before);
}

#[test]
fn place_refuses_more_cards_than_left() {
    let mut table = ready_table();
    table.player_cards_left = vec![1, 5, 5];
    let mut player = player_with(vec![card(1, 2), card(0, 4)]);
    let before = (table.clone(), player.clone());
    let r = place_cards::handler(&mut table, &mut player, &key(1), vec![1, 0]);
    assert!(matches!(r, Err(LiarsBarsError::NotEligible)));
    assert_eq!((table, player), before);
}

#[test]
fn place_lays_the_picked_cards_and_packs_the_rest() {
    let mut table = ready_table();
    table.cards_on_table = vec![card(3, 3)];
    let mut player = player_with(vec![card(1, 12), card(0, 4), card(3, 7), card(2, 9)]);
    let out = place_cards::handler(&mut table, &mut player, &key(1), vec![0, 3]).unwrap();
    assert_eq!(out.packed, Some((3, 407)));
    assert_eq!(table.cards_on_table, vec![card(2, 9), card(1, 12)]);
    assert_eq!(player.cards, vec![card(0, 4), card(3, 7)]);
    assert_eq!(table.player_cards_left, vec![3, 5, 5]);
    assert!(!out.round_over);
    assert_eq!(table.trun_to_play, 1);
    assert_eq!(out.announced, key(3));
}

#[test]
fn place_keeps_the_unpicked_cards_in_order() {
    let mut table = table_with(&[1, 2]);
    table.suffle_trun = 2;
    let hand: Vec<Card> = (0..5u128).map(|i| card(i, 10 + i)).collect();
    let mut player = player_with(hand.clone());
    let out = place_cards::handler(&mut table, &mut player, &key(1), vec![1, 3]).unwrap();
    assert_eq!(player.cards, vec![hand[0], hand[2], hand[4]]);
    assert_eq!(table.cards_on_table, vec![hand[3], hand[1]]);
    assert_eq!(out.packed, Some((204, 101214)));
    assert_eq!(table.player_cards_left, vec![3, 5]);
    assert_eq!(table.trun_to_play, 1);
    let mut all = player.cards.clone();
    all.extend(table.cards_on_table.iter().copied());
    all.sort_by_key(|c| c.shape);
    assert_eq!(all, hand);
}

#[test]
fn place_takes_the_count_from_the_first_seat() {
    let mut table = ready_table();
    table.trun_to_play = 1;
    let mut player = player_with(vec![card(1, 2), card(0, 3)]);
    let out = place_cards::handler(&mut table, &mut player, &key(2), vec![1]).unwrap();
    assert_eq!(table.player_cards_left, vec![4, 5, 5]);
    assert_eq!(table.cards_on_table, vec![card(0, 3)]);
    assert_eq!(out.packed, Some((1, 2)));
    assert_eq!(table.trun_to_play, 2);
}

#[test]
fn place_by_a_seat_with_no_count_left_still_lays() {
    let mut table = ready_table();
    table.trun_to_play = 1;
    table.player_cards_left = vec![1, 0, 5];
    let mut player = player_with(vec![card(1, 2), card(0, 3)]);
    let out = place_cards::handler(&mut table, &mut player, &key(2), vec![1]).unwrap();
    assert_eq!(table.cards_on_table, vec![card(0, 3)]);
    assert_eq!(player.cards, vec![card(1, 2)]);
    assert_eq!(table.player_cards_left, vec![0, 0, 5]);
    assert_eq!(table.trun_to_play, 2);
    assert!(!out.round_over);
}

#[test]
fn place_with_a_pick_past_the_hand_lays_nothing_but_counts_it() {
    let mut table = ready_table();
    table.cards_on_table = vec![card(3, 3)];
    let mut player = player_with(vec![card(2, 7)]);
    let out = place_cards::handler(&mut table, &mut player, &key(1), vec![3]).unwrap();
    assert_eq!(out.packed, Some((2, 7)));
    assert!(table.cards_on_table.is_empty());
    assert_eq!(player.cards, vec![card(2, 7)]);
    assert_eq!(table.player_cards_left, vec![4, 5, 5]);
    assert_eq!(table.trun_to_play, 1);
}

#[test]
fn place_with_a_repeated_pick_lays_the_card_once() {
    let mut table = ready_table();
    let mut player = player_with(vec![card(1, 1), card(2, 2)]);
    place_cards::handler(&mut table, &mut player, &key(1), vec![0, 0]).unwrap();
    assert_eq!(table.cards_on_table, vec![card(1, 1)]);
    assert_eq!(player.cards, vec![card(2, 2)]);
    assert_eq!(table.player_cards_left, vec![3, 5, 5]);
}

#[test]
fn place_with_no_picks_lays_nothing() {
    let mut table = ready_table();
    table.cards_on_table = vec![card(3, 3)];
    let mut player = player_with(vec![card(1, 12), card(0, 4)]);
    let out = place_cards::handler(&mut table, &mut player, &key(1), vec![]).unwrap();
    assert_eq!(out.packed, Some((100, 1204)));
    assert!(table.cards_on_table.is_empty());
    assert_eq!(player.cards.len(), 2);
    assert_eq!(table.player_cards_left, vec![5, 5, 5]);
}

#[test]
fn place_with_empty_hand_only_passes_the_turn() {
    let mut table = ready_table();
    table.trun_to_play = 1;
    table.cards_on_table = vec![card(3, 3)];
    table.player_cards_left = vec![5, 0, 0];
    let mut player = player_with(vec![]);
    let out = place_cards::handler(&mut table, &mut player, &key(2), vec![]).unwrap();
    assert_eq!(out.packed, None);
    assert_eq!(table.cards_on_table, vec![card(3, 3)]);
    assert_eq!(table.player_cards_left, vec![5, 0, 0]);
    assert!(!out.round_over);
    assert_eq!(table.trun_to_play, 0);
    assert_eq!(out.announced, key(2));
}

#[test]
fn place_skips_seats_without_cards() {
    let mut table = ready_table();
    table.trun_to_play = 1;
    table.player_cards_left = vec![5, 5, 0];
    let mut player = player_with(vec![]);
    let out = place_cards::handler(&mut table, &mut player, &key(2), vec![]).unwrap();
    assert_eq!(table.trun_to_play, 0);
    assert!(!out.round_over);
}

#[test]
fn place_ends_the_round_when_nobody_else_has_cards() {
    let mut table = ready_table();
    table.player_cards_left = vec![1, 0, 0];
    let mut player = player_with(vec![card(2, 5)]);
    let out = place_cards::handler(&mut table, &mut player, &key(1), vec![0]).unwrap();
    assert_eq!(out.packed, Some((0, 0)));
    assert!(player.cards.is_empty());
    assert_eq!(table.cards_on_table, vec![card(2, 5)]);
    assert_eq!(table.player_cards_left, vec![0, 0, 0]);
    assert!(out.round_over);
    assert_eq!(table.trun_to_play, 0);
    assert_eq!(out.announced, key(2));
}

#[test]
fn liars_call_refuses_strangers() {
    let table = ready_table();
    let r = liars_call::handler(&table, &key(5));
    assert!(matches!(r, Err(LiarsBarsError::NotEligible)));
}

#[test]
fn liars_call_on_a_truthful_play_targets_the_caller() {
    let mut table = ready_table();
    table.table_card = 2;
    table.cards_on_table = vec![card(2, 1), card(2, 9)];
    match liars_call::handler(&table, &key(2)) {
        Ok(liars_call::CallOutcome::PullTrigger { target }) => assert_eq!(target, 1),
        _ => panic!("expected the trigger to be pulled"),
    }
}

#[test]
fn liars_call_on_a_lie_targets_the_seat_before() {
    let mut table = ready_table();
    table.table_card = 2;
    table.cards_on_table = vec![card(2, 1), card(0, 9)];
    match liars_call::handler(&table, &key(3)) {
        Ok(liars_call::CallOutcome::PullTrigger { target }) => assert_eq!(target, 1),
        _ => panic!("expected the trigger to be pulled"),
    }
}

fn assert_new_round(table: &LiarsTable, seats: usize, claim: u8) {
    assert_eq!(table.player_cards_left, vec![5; seats]);
    assert_eq!(table.deck, full_deck());
    assert!(table.cards_on_table.is_empty());
    assert_eq!(table.suffle_trun, 0);
    assert_eq!(table.table_card, claim);
}

#[test]
fn liars_call_with_last_chamber_eliminates_and_starts_a_round() {
    let mut table = ready_table();
    table.table_card = 1;
    table.cards_on_table = vec![card(3, 1)];
    table.remaining_bullet = vec![6, 1, 4];
    table.player_cards_left = vec![2, 0, 3];
    match liars_call::handler(&table, &key(3)) {
        Ok(liars_call::CallOutcome::Eliminated { target, player }) => {
            assert_eq!(target, 1);
            assert_eq!(player, key(2));
            liars_call::eliminate(&mut table, target, 6);
        }
        _ => panic!("expected an elimination"),
    }
    assert_eq!(table.players, vec![key(1), key(3)]);
    assert_eq!(table.remaining_bullet, vec![6, 4]);
    assert_new_round(&table, 2, 2);
}

#[test]
fn fire_odd_random_is_loaded() {
    let mut table = ready_table();
    table.remaining_bullet = vec![6, 5, 4];
    table.cards_on_table = vec![card(1, 1)];
    match liars_call::fire(&mut table, 0, 7, 1) {
        liars_call::ShotOutcome::Eliminated { player } => assert_eq!(player, key(1)),
        _ => panic!("expected a loaded chamber"),
    }
    assert_eq!(table.players, vec![key(3), key(2)]);
    assert_eq!(table.remaining_bullet, vec![4, 5]);
    assert_new_round(&table, 2, 1);
}

#[test]
fn fire_even_random_hurts_nobody() {
    let mut table = ready_table();
    table.remaining_bullet = vec![6, 5, 4];
    table.cards_on_table = vec![card(1, 1)];
    match liars_call::fire(&mut table, 1, 10, 3) {
        liars_call::ShotOutcome::EmptyChamber { player } => assert_eq!(player, key(2)),
        _ => panic!("expected an empty chamber"),
    }
    assert_eq!(table.players, vec![key(1), key(2), key(3)]);
    assert_eq!(table.remaining_bullet, vec![6, 5, 4]);
    assert_new_round(&table, 3, 3);
}

#[test]
fn liars_call_on_a_table_without_counts_still_resolves() {
    let mut table = ready_table();
    table.table_card = 0;
    table.remaining_bullet = vec![1, 6, 6];
    table.player_cards_left = vec![];
    match liars_call::handler(&table, &key(1)) {
        Ok(liars_call::CallOutcome::Eliminated { target, player }) => {
            assert_eq!(target, 0);
            assert_eq!(player, key(1));
            liars_call::eliminate(&mut table, target, 0);
        }
        _ => panic!("expected an elimination"),
    }
    assert_eq!(table.players, vec![key(3), key(2)]);
    assert_eq!(table.remaining_bullet, vec![6, 6]);
    assert_new_round(&table, 2, 0);
}

#[test]
fn quit_returns_cards_and_frees_the_seat() {
    let mut table = table_with(&[1, 2, 3, 4]);
    table.deck = deck_with_free(&[]);
    table.remaining_bullet = vec![6, 5, 4, 3];
    table.player_cards_left = vec![5, 4, 3, 2];
    let player = player_with(vec![card(0, 0), card(3, 12)]);
    quit_table::handler(&mut table, &player, &key(2));
    assert_eq!(table.players, vec![key(1), key(4), key(3)]);
    assert_eq!(table.remaining_bullet, vec![6, 3, 4]);
    assert_eq!(table.player_cards_left, vec![5, 2, 3]);
    assert!(!table.deck[0].values[0]);
    assert!(!table.deck[3].values[12]);
    let taken: usize = table.deck.iter().map(|r| r.values.iter().filter(|b| **b).count()).sum();
    assert_eq!(taken, 50);
}

#[test]
fn quit_of_the_last_seat_just_drops_it() {
    let mut table = table_with(&[1, 2]);
    let player = player_with(vec![]);
    quit_table::handler(&mut table, &player, &key(2));
    assert_eq!(table.players, vec![key(1)]);
    assert_eq!(table.remaining_bullet, vec![6]);
    assert_eq!(table.deck, full_deck());
}

#[test]
fn grant_access_covers_handles_in_order_until_accounts_run_out() {
    let player = player_with(vec![card(11, 12), card(21, 22), card(31, 32)]);
    assert_eq!(grant_card_access::handler(&player, 4), vec![11, 12, 21, 22]);
    assert_eq!(grant_card_access::handler(&player, 3), vec![11, 12, 21]);
    assert_eq!(grant_card_access::handler(&player, 10), vec![11, 12, 21, 22, 31, 32]);
    assert_eq!(grant_card_access::handler(&player, 0), Vec::<u128>::new());
    assert_eq!(grant_card_access::access_order(&vec![card(5, 6)], 1), vec![5]);
    assert_eq!(grant_card_access::access_order(&vec![card(5, 6)], 2), vec![5, 6]);
}

#[test]
fn create_player_sets_table_and_card_places() {
    let mut player = player_with(vec![card(1, 1)]);
    player.is_eliminated = true;
    create_player::create_player_handler(&mut player, 44);
    assert_eq!(player.table_id, 44);
    assert!(!player.is_eliminated);
    assert_eq!(player.placed_cards, vec![false; 5]);
    assert_eq!(player.cards, vec![card(1, 1)]);
}

#[test]
fn create_room_seats_its_creator() {
    let mut room = GameRoom { room_id: 0, is_open: false, startgame: true, players: vec![] };
    create_room::handler(&mut room, 12, key(3));
    assert_eq!(room.room_id, 12);
    assert!(room.is_open);
    assert!(!room.startgame);
    assert_eq!(room.players, vec![key(3)]);
}

#[test]
fn revolver_has_two_empty_chambers() {
    let mut t = GameTable { table_id: 0, bullet_index: 3, bullet: vec![] };
    let chambers = create_game_table::create_table_handler(&mut t, 5, 55);
    assert_eq!(chambers, vec![true, false, true, true, true, false]);
    assert_eq!(t.table_id, 5);
    assert_eq!(t.bullet_index, 0);
}

#[test]
fn revolver_equal_picks_move_one_chamber_on() {
    let mut t = GameTable { table_id: 0, bullet_index: 0, bullet: vec![] };
    let chambers = create_game_table::create_table_handler(&mut t, 1, 0);
    assert_eq!(chambers, vec![false, false, true, true, true, true]);
}

#[test]
fn revolver_with_both_picks_on_the_last_chamber_has_one_empty() {
    let mut t = GameTable { table_id: 0, bullet_index: 0, bullet: vec![] };
    let chambers = create_game_table::create_table_handler(&mut t, 1, 59);
    assert_eq!(chambers, vec![true, true, true, true, true, false]);
    assert_eq!(chambers.iter().filter(|c| !**c).count(), 1);
}

#[test]
fn after_a_reset_the_first_seat_is_dealt_five_cards() {
    let mut table = table_with(&[1, 2]);
    table.deck = deck_with_free(&[]);
    table.suffle_trun = 2;
    reset_round(&mut table, 1);
    let out = suffle_cards::handler(&mut table, &key(1), 123456789).unwrap();
    assert_eq!(out.dealt.len(), 5);
    let taken: usize = table.deck.iter().map(|r| r.values.iter().filter(|b| **b).count()).sum();
    assert_eq!(taken, 5);
}
