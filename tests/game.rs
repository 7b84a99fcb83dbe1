use tourney::{
    build_deck, deal_deck, deal_to_table, determine_game_winner, determine_round_winner,
    determine_tourney_winner, get_bids, get_bids_with_picks, play_dealt_game, play_game,
    play_round, play_round_with_picks, play_tourney, update_game_winner, update_round_winner, Bid,
    Config, Hand, Player, Strategy, Table,
};

#[test]
fn test_determine_round_winner_basic() {
    let prize_card = 18;
    let bid1 = Bid { bidder: String::from("mozart"), offer: 10, prize_card: prize_card };
    let bid2 = Bid { bidder: String::from("beethoven"), offer: 14, prize_card: prize_card };
    let bid3 = Bid { bidder: String::from("liszt"), offer: 7, prize_card: prize_card };
    let bids = vec![bid1, bid2, bid3];

    // test
    let result = determine_round_winner(&bids);

    assert_eq!(result.bidder, "beethoven");
}

#[test]
fn test_determine_game_winner_basic() {
    let p1 = Player { name: String::from("mozart"), ..Player::new() };
    let mut p2 = Player { name: String::from("beethoven"), ..Player::new() };
    let p3 = Player { name: String::from("liszt"), ..Player::new() };
    p2.wins_round(10);
    let players = vec![p1, p2, p3];

    // test
    let result = determine_game_winner(&players);

    assert_eq!(result.name, "beethoven");
}

#[test]
fn test_determine_tourney_winner_basic() {
    let p1 = Player { name: String::from("mozart"), ..Player::new() };
    let mut p2 = Player { name: String::from("beethoven"), ..Player::new() };
    let mut p3 = Player { name: String::from("liszt"), ..Player::new() };
    p2.wins_game();
    p3.wins_game();
    p3.wins_game();
    let players = vec![p1, p2, p3];

    // test
    let result = determine_tourney_winner(&players);

    assert_eq!(result.name, "liszt");
}

#[test]
fn test_build_deck_basic() {
    let num_cards = 5;

    // test
    let result = build_deck(num_cards);

    let num_cards_result = u32::try_from(result.len()).unwrap();
    assert_eq!(num_cards_result, num_cards);
    for i in 1..num_cards + 1 {
        assert!(result.iter().any(|&x| x == i));
    }
}

#[test]
fn test_deal_to_table_basic() {
    let p1 = Player { name: String::from("mozart"), ..Player::new() };
    let p2 = Player { name: String::from("beethoven"), ..Player::new() };
    let players: Vec<Player> = vec![p1, p2];
    let num_players = u32::try_from(players.len()).unwrap();
    let mut table = Table { players: players, ..Table::new() };

    const NUM_GAMES: u32 = 1;
    const NUM_CARDS: u32 = 12;
    let num_cards_per_hand = NUM_CARDS / (num_players + 1);
    let config = Config {
        num_players: num_players,
        num_games: NUM_GAMES,
        num_cards: NUM_CARDS,
        num_cards_per_hand: num_cards_per_hand,
    };

    // test
    deal_to_table(&config, &mut table);

    let num_cards_kitty = u32::try_from(table.kitty.cards.len()).unwrap();
    assert_eq!(num_cards_kitty, num_cards_per_hand);
    for p in table.players {
        let num_cards_player = u32::try_from(p.hand.cards.len()).unwrap();
        assert_eq!(num_cards_player, num_cards_per_hand);
    }
}

#[test]
fn test_get_bids_basic() {
    let prize_card = 20;
    let max_card = 20;
    let hand1 = Hand { cards: vec![10, 11, 12] };
    let hand2 = Hand { cards: vec![15, 16, 17] };
    let p1 = Player { name: String::from("mozart"), hand: hand1, ..Player::new() };
    let p2 = Player { name: String::from("beethoven"), hand: hand2, ..Player::new() };
    let mut players: Vec<Player> = vec![p1, p2];

    // test
    let bids = get_bids(prize_card, max_card, &mut players);

    assert_eq!(2, bids.len());
    let bid1 = &bids[0];
    assert_eq!(10, bid1.offer);
    assert_eq!(20, bid1.prize_card);
    assert_eq!("mozart", bid1.bidder);
    assert_eq!(2, players[0].hand.cards.len());
    let bid2 = &bids[1];
    assert_eq!(15, bid2.offer);
    assert_eq!(20, bid2.prize_card);
    assert_eq!("beethoven", bid2.bidder);
    assert_eq!(2, players[1].hand.cards.len());
}

#[test]
fn test_play_round_basic() {
    let max_card = 12;
    let kitty = Hand { cards: vec![10, 11, 12] };

    let hand1 = Hand { cards: vec![1, 2, 3] };
    let hand2 = Hand { cards: vec![4, 5, 6] };
    let hand3 = Hand { cards: vec![7, 8, 9] };
    let p1 = Player { name: String::from("mozart"), hand: hand1, ..Player::new() };
    let p2 = Player { name: String::from("beethoven"), hand: hand2, ..Player::new() };
    let p3 = Player { name: String::from("chopin"), hand: hand3, ..Player::new() };
    let players: Vec<Player> = vec![p1, p2, p3];

    let mut table = Table { players: players, kitty: kitty, ..Table::new() };

    // test
    let (prize_card, winner_name) = play_round(&mut table, max_card);

    assert_eq!("chopin", winner_name);
    assert_eq!(12, prize_card);
}

#[test]
fn test_update_round_winner_basic() {
    let kitty = Hand { cards: vec![10, 11, 12] };

    let hand1 = Hand { cards: vec![1, 2, 3] };
    let hand2 = Hand { cards: vec![4, 5, 6] };
    let hand3 = Hand { cards: vec![7, 8, 9] };
    let p1 = Player { name: String::from("mozart"), hand: hand1, ..Player::new() };
    let p2 = Player { name: String::from("beethoven"), hand: hand2, ..Player::new() };
    let p3 = Player { name: String::from("chopin"), hand: hand3, ..Player::new() };
    let players: Vec<Player> = vec![p1, p2, p3];

    let mut table = Table { players: players, kitty: kitty, ..Table::new() };
    let prize_card = 12;
    let winner_name = String::from("chopin");

    // test
    update_round_winner(&mut table, prize_card, winner_name);

    let winner = &table.players[2];
    assert_eq!(0, winner.player_stats.num_games_won);
    assert_eq!(1, winner.player_stats.num_rounds_won);
    assert_eq!(12, winner.player_stats.total_for_game);
}

fn named(name: &str, strategy: &str, cards: Vec<u32>) -> Player {
    let mut p = Player::new_from_json(name, strategy);
    p.hand = Hand { cards: cards };
    p
}

#[test]
fn build_deck_is_a_permutation() {
    for num_cards in [0u32, 1, 2, 7, 52] {
        let mut deck = build_deck(num_cards);
        assert_eq!(deck.len(), num_cards as usize);
        deck.sort();
        let expected: Vec<u32> = (1..=num_cards).collect();
        assert_eq!(deck, expected);
    }
}

#[test]
fn build_deck_shuffles() {
    let ordered: Vec<u32> = (1..=40).collect();
    let mut differs = false;
    for _ in 0..3 {
        if build_deck(40) != ordered {
            differs = true;
        }
    }
    assert!(differs);
}

#[test]
fn round_winner_tie_goes_to_the_earliest_bid() {
    let bids = vec![
        Bid { bidder: String::from("a"), offer: 9, prize_card: 3 },
        Bid { bidder: String::from("b"), offer: 11, prize_card: 3 },
        Bid { bidder: String::from("c"), offer: 11, prize_card: 3 },
    ];
    assert_eq!(determine_round_winner(&bids).bidder, "b");
    let single = vec![Bid { bidder: String::from("solo"), offer: 0, prize_card: 3 }];
    assert_eq!(determine_round_winner(&single).bidder, "solo");
}

#[test]
fn game_and_tourney_ties_go_to_the_earliest_player() {
    let players = vec![named("a", "next_card", vec![]), named("b", "next_card", vec![])];
    assert_eq!(determine_game_winner(&players).name, "a");
    assert_eq!(determine_tourney_winner(&players).name, "a");
    let mut players = players;
    players[1].wins_round(4);
    players[0].wins_round(4);
    assert_eq!(determine_game_winner(&players).name, "a");
}

#[test]
fn deal_deck_gives_chunks_in_order_and_drops_the_rest() {
    let mut table = Table {
        players: vec![named("a", "next_card", vec![99]), named("b", "next_card", vec![])],
        ..Table::new()
    };
    let deck: Vec<u32> = vec![5, 3, 8, 1, 7, 2, 6, 4, 9, 10, 11];
    deal_deck(&deck, 3, &mut table);
    assert_eq!(table.kitty.cards, vec![5, 3, 8]);
    assert_eq!(table.players[0].hand.cards, vec![1, 7, 2]);
    assert_eq!(table.players[1].hand.cards, vec![6, 4, 9]);
}

#[test]
fn deal_to_table_keeps_cards_apart() {
    let mut table = Table {
        players: vec![
            named("a", "next_card", vec![]),
            named("b", "next_card", vec![]),
            named("c", "next_card", vec![]),
        ],
        ..Table::new()
    };
    let config = Config::new(3, 1, 14);
    assert_eq!(config.num_cards_per_hand, 3);
    deal_to_table(&config, &mut table);
    let mut all: Vec<u32> = table.kitty.cards.clone();
    assert_eq!(table.kitty.cards.len(), 3);
    for p in &table.players {
        assert_eq!(p.hand.cards.len(), 3);
        all.extend(p.hand.cards.iter());
    }
    let count = all.len();
    all.sort();
    all.dedup();
    assert_eq!(all.len(), count);
    assert!(all.iter().all(|&c| 1 <= c && c <= 14));
}

#[test]
fn config_shares_the_deck_evenly() {
    let c = Config::new(2, 3, 12);
    assert_eq!(c.num_cards_per_hand, 4);
    assert_eq!(c.num_games, 3);
    let c = Config::new(4, 1, 12);
    assert_eq!(c.num_cards_per_hand, 2);
    let c = Config::new(u32::MAX, 1, 12);
    assert_eq!(c.num_cards_per_hand, 0);
}

#[test]
fn bids_with_picks_use_the_console_choice() {
    let mut players = vec![
        named("a", "console", vec![4, 9, 2]),
        named("b", "min_card", vec![6, 5, 8]),
    ];
    let picks = vec![9, 0];
    let bids = get_bids_with_picks(7, 12, &mut players, &picks);
    assert_eq!(bids[0].offer, 9);
    assert_eq!(bids[1].offer, 5);
    assert_eq!(players[0].hand.cards, vec![4, 2]);
    assert_eq!(players[1].hand.cards, vec![6, 8]);
}

#[test]
fn round_with_picks_reports_prize_bids_and_winner() {
    let mut table = Table {
        players: vec![
            named("a", "console", vec![4, 9, 2]),
            named("b", "max_card", vec![6, 5, 8]),
        ],
        kitty: Hand { cards: vec![1, 3, 10] },
        ..Table::new()
    };
    let report = play_round_with_picks(&mut table, 12, &vec![9, 0]);
    assert_eq!(report.prize_card, 10);
    assert_eq!(report.bids.len(), 2);
    assert_eq!(report.bids[0].offer, 9);
    assert_eq!(report.bids[1].offer, 8);
    assert_eq!(report.winner, "a");
    assert_eq!(table.kitty.cards, vec![1, 3]);
    assert_eq!(table.players[0].player_stats.total_for_game, 0);
}

#[test]
fn round_strategies_against_each_other() {
    let mut table = Table {
        players: vec![
            named("near", "nearest_card", vec![1, 6, 9, 10]),
            named("hyb", "hybrid_card", vec![4, 2, 6, 8]),
            named("min", "min_card", vec![3, 5, 7, 11]),
        ],
        kitty: Hand { cards: vec![12, 7] },
        ..Table::new()
    };
    let (prize, winner) = play_round(&mut table, 12);
    assert_eq!(prize, 7);
    // nearest offers 6, hybrid offers 8 (7 > 6), min offers 3.
    assert_eq!(winner, "hyb");
    assert_eq!(table.players[0].hand.cards, vec![1, 9, 10]);
    assert_eq!(table.players[1].hand.cards, vec![4, 2, 6]);
    assert_eq!(table.players[2].hand.cards, vec![5, 7, 11]);
    update_round_winner(&mut table, prize, winner);
    assert_eq!(table.players[1].player_stats.total_for_game, 7);
    assert_eq!(table.players[1].player_stats.num_rounds_won, 1);
    assert_eq!(table.players[0].player_stats.total_for_game, 0);
}

#[test]
fn every_bid_takes_one_card_even_with_a_low_top_card() {
    let mut players = vec![named("near", "nearest_card", vec![10])];
    let bids = get_bids(20, 1, &mut players);
    assert_eq!(bids[0].offer, 10);
    assert!(players[0].hand.cards.is_empty());

    let mut table = Table {
        players: vec![named("near", "nearest_card", vec![10, 3])],
        kitty: Hand { cards: vec![5] },
        ..Table::new()
    };
    let (prize, winner) = play_round(&mut table, 1);
    assert_eq!(prize, 5);
    assert_eq!(winner, "near");
    assert_eq!(table.players[0].hand.cards, vec![10]);
}

#[test]
fn update_game_winner_resets_everyone() {
    let mut table = Table {
        players: vec![named("a", "next_card", vec![]), named("b", "next_card", vec![])],
        ..Table::new()
    };
    table.players[0].wins_round(5);
    table.players[1].wins_round(8);
    update_game_winner(&mut table, String::from("b"));
    assert_eq!(table.players[0].player_stats.total_for_game, 0);
    assert_eq!(table.players[0].player_stats.num_games_won, 0);
    assert_eq!(table.players[1].player_stats.total_for_game, 0);
    assert_eq!(table.players[1].player_stats.num_rounds_won, 0);
    assert_eq!(table.players[1].player_stats.num_games_won, 1);
}

#[test]
fn dealt_game_plays_every_round() {
    let mut table = Table {
        players: vec![
            named("a", "max_card", vec![1, 2, 3]),
            named("b", "min_card", vec![4, 5, 6]),
        ],
        kitty: Hand { cards: vec![7, 8, 9] },
        ..Table::new()
    };
    let winner = play_dealt_game(&mut table, 3, 9);
    // Prizes 9, 8, 7: a offers 3, 2, 1 and b offers 4, 5, 6, so b wins all three.
    assert_eq!(winner, "b");
    assert_eq!(table.players[1].player_stats.total_for_game, 24);
    assert_eq!(table.players[1].player_stats.num_rounds_won, 3);
    assert!(table.kitty.cards.is_empty());
    assert!(table.players[0].hand.cards.is_empty());
    assert!(table.players[1].hand.cards.is_empty());
}

#[test]
fn play_game_uses_up_the_hands() {
    let mut table = Table {
        players: vec![named("a", "nearest_card", vec![]), named("b", "hybrid_card", vec![])],
        ..Table::new()
    };
    let config = Config::new(2, 1, 13);
    let winner = play_game(&config, &mut table);
    assert!(table.kitty.cards.is_empty());
    assert!(table.players.iter().all(|p| p.hand.cards.is_empty()));
    let rounds: u32 = table.players.iter().map(|p| p.player_stats.num_rounds_won).sum();
    assert_eq!(rounds, 4);
    let best = table.players.iter().map(|p| p.player_stats.total_for_game).max().unwrap();
    let first_best = table.players.iter().find(|p| p.player_stats.total_for_game == best).unwrap();
    assert_eq!(winner, first_best.name);
}

#[test]
fn two_player_tourney_of_one_game() {
    let mut table = Table {
        players: vec![named("mozart", "max_card", vec![]), named("beethoven", "min_card", vec![])],
        ..Table::new()
    };
    let config = Config::new(2, 1, 12);
    assert_eq!(config.num_cards_per_hand, 4);
    let winner = play_tourney(&config, &mut table);
    assert!(table.kitty.cards.is_empty());
    assert!(table.players.iter().all(|p| p.hand.cards.is_empty()));
    let won: Vec<u32> = table.players.iter().map(|p| p.player_stats.num_games_won).collect();
    assert_eq!(won.iter().sum::<u32>(), 1);
    let champion = table.players.iter().find(|p| p.name == winner).unwrap();
    assert_eq!(champion.player_stats.num_games_won, 1);
    assert!(table.players.iter().all(|p| p.player_stats.total_for_game == 0));
    assert!(table.players.iter().all(|p| p.player_stats.num_rounds_won == 0));
}

#[test]
fn deal_then_four_rounds_in_a_two_player_game() {
    let mut table = Table {
        players: vec![named("mozart", "nearest_card", vec![]), named("beethoven", "next_card", vec![])],
        ..Table::new()
    };
    let config = Config::new(2, 1, 12);
    deal_to_table(&config, &mut table);
    assert_eq!(table.kitty.cards.len(), 4);
    assert!(table.players.iter().all(|p| p.hand.cards.len() == 4));
    for round in 0..4 {
        let (prize, winner) = play_round(&mut table, config.num_cards);
        assert!(1 <= prize && prize <= 12);
        update_round_winner(&mut table, prize, winner);
        assert_eq!(table.kitty.cards.len(), 3 - round);
        assert!(table.players.iter().all(|p| p.hand.cards.len() == 3 - round));
    }
    let rounds: u32 = table.players.iter().map(|p| p.player_stats.num_rounds_won).sum();
    assert_eq!(rounds, 4);
    let winner = determine_game_winner(&table.players).name.clone();
    update_game_winner(&mut table, winner.clone());
    let champion = table.players.iter().find(|p| p.name == winner).unwrap();
    assert_eq!(champion.player_stats.num_games_won, 1);
    assert_eq!(Strategy::from_name("nearest_card"), table.players[0].strategy);
}
