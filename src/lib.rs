//! A card-bidding tournament: a shuffled deck is dealt into a kitty and one hand per player,
//! each round the kitty reveals a prize card, every player bids a card chosen by its strategy,
//! and the highest offer takes the prize's value. Games and the tournament go to the best totals.

pub mod deck;
pub mod game;
pub mod player;
pub mod strategy;
pub mod table;

pub use deck::build_deck;
pub use game::{
    deal_deck, deal_to_table, determine_game_winner, determine_round_winner,
    determine_tourney_winner, get_bids, get_bids_with_picks, play_dealt_game, play_game,
    play_round, play_round_with_picks, play_tourney, update_game_winner, update_round_winner,
    RoundReport,
};
pub use player::{Bid, Player, PlayerStats};
pub use strategy::{
    hybrid_card, max_card, min_card, nearest_card, next_card, parse_pick, validate_pick, Hand,
    Strategy,
};
pub use table::{Config, Table};
