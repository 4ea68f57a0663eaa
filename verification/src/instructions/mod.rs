pub mod create_game_table;
pub mod create_player;
pub mod create_room;
pub mod create_table;
pub mod grant_card_access;
pub mod join_table;
pub mod liars_call;
pub mod place_cards;
pub mod quit_table;
pub mod start_rounds;
pub mod suffle_cards;
