use vstd::prelude::*;
use crate::deck::{build_deck, chunk, is_deck, lemma_deck_cards};
use crate::player::{lemma_bid_takes_one_card, lemma_offer_takes_one_card, Bid, Player, PlayerView};
use crate::strategy::Hand;
use crate::table::{
    credit_game, credit_round, first_max_index, games_won_of, lemma_game_credits_one_player, lemma_automatic_bids, lemma_deal_keeps_cards_apart,
    lemma_first_max_index, lemma_round_keeps_ready, lemma_rounds_keep_players, offers_of,
    totals_of, views, Config, Table, TableView,
};

verus! {

/// The bid with the highest offer, the earliest one on a tie.
pub fn determine_round_winner(bids: &Vec<Bid>) -> (r: &Bid)
    requires
        bids@.len() > 0,
    ensures
        *r == bids@[first_max_index(offers_of(bids@))],
{
    let ghost s = offers_of(bids@);
    let mut best: usize = 0;
    let mut i: usize = 1;
    while i < bids.len()
        invariant
            1 <= i <= bids@.len(),
            best < i,
            s == offers_of(bids@),
            best == first_max_index(s.take(i as int)),
        decreases bids@.len() - i,
    {
        assert(s.take(i + 1).drop_last() == s.take(i as int));
        proof {
            lemma_first_max_index(s.take(i as int));
        }
        if bids[i].offer > bids[best].offer {
            best = i;
        }
        i = i + 1;
    }
    assert(s.take(i as int) == s);
    &bids[best]
}

/// The player with the highest game total, the earliest one on a tie.
pub fn determine_game_winner(players: &Vec<Player>) -> (r: &Player)
    requires
        players@.len() > 0,
    ensures
        *r == players@[first_max_index(totals_of(views(players@)))],
{
    let ghost s = totals_of(views(players@));
    let mut best: usize = 0;
    let mut i: usize = 1;
    while i < players.len()
        invariant
            1 <= i <= players@.len(),
            best < i,
            s == totals_of(views(players@)),
            best == first_max_index(s.take(i as int)),
        decreases players@.len() - i,
    {
        assert(s.take(i + 1).drop_last() == s.take(i as int));
        proof {
            lemma_first_max_index(s.take(i as int));
        }
        if players[i].player_stats.total_for_game > players[best].player_stats.total_for_game {
            best = i;
        }
        i = i + 1;
    }
    assert(s.take(i as int) == s);
    &players[best]
}

/// The player with the most games won, the earliest one on a tie.
pub fn determine_tourney_winner(players: &Vec<Player>) -> (r: &Player)
    requires
        players@.len() > 0,
    ensures
        *r == players@[first_max_index(games_won_of(views(players@)))],
{
    let ghost s = games_won_of(views(players@));
    let mut best: usize = 0;
    let mut i: usize = 1;
    while i < players.len()
        invariant
            1 <= i <= players@.len(),
            best < i,
            s == games_won_of(views(players@)),
            best == first_max_index(s.take(i as int)),
        decreases players@.len() - i,
    {
        assert(s.take(i + 1).drop_last() == s.take(i as int));
        proof {
            lemma_first_max_index(s.take(i as int));
        }
        if players[i].player_stats.num_games_won > players[best].player_stats.num_games_won {
            best = i;
        }
        i = i + 1;
    }
    assert(s.take(i as int) == s);
    &players[best]
}

/// Every player bids for `prize_card` in turn: a player who picks by itself offers its
/// strategy's card, a player asked at the console offers its entry of `picks`. The bids come in
/// player order.
pub fn get_bids_with_picks(
    prize_card: u32,
    max_card: u32,
    players: &mut Vec<Player>,
    picks: &Vec<u32>,
) -> (bids: Vec<Bid>)
    requires
        forall|i: int|
            0 <= i < old(players)@.len() ==> if (#[trigger] old(players)@[i]).strategy.is_automatic() {
                old(players)@[i]@.hand.len() > 0
            } else {
                i < picks@.len() && old(players)@[i]@.hand.contains(picks@[i])
            },
    ensures
        views(final(players)@) == views(old(players)@).map(
            |i: int, p: PlayerView| p.after_offer(p.offer_given(picks@[i], prize_card, max_card)),
        ),
        bids@.len() == old(players)@.len(),
        forall|i: int|
            0 <= i < bids@.len() ==> {
                &&& (#[trigger] bids@[i]).offer == old(players)@[i]@.offer_given(
                    picks@[i],
                    prize_card,
                    max_card,
                )
                &&& bids@[i].prize_card == prize_card
                &&& bids@[i].bidder@ == old(players)@[i]@.name
                &&& old(players)@[i]@.hand.contains(bids@[i].offer)
                &&& final(players)@[i]@.hand.len() == old(players)@[i]@.hand.len() - 1
            },
{
    let ghost start = players@;
    let mut bids: Vec<Bid> = Vec::new();
    let mut i: usize = 0;
    while i < players.len()
        invariant
            i <= players@.len(),
            players@.len() == start.len(),
            bids@.len() == i,
            forall|k: int| i <= k < start.len() ==> #[trigger] players@[k] == start[k],
            forall|k: int|
                0 <= k < i ==> (#[trigger] players@[k])@ == start[k]@.after_offer(
                    start[k]@.offer_given(picks@[k], prize_card, max_card),
                ),
            forall|k: int|
                0 <= k < start.len() ==> if (#[trigger] start[k]).strategy.is_automatic() {
                    start[k]@.hand.len() > 0
                } else {
                    k < picks@.len() && start[k]@.hand.contains(picks@[k])
                },
            forall|k: int|
                0 <= k < i ==> {
                    &&& (#[trigger] bids@[k]).offer == start[k]@.offer_given(
                        picks@[k],
                        prize_card,
                        max_card,
                    )
                    &&& bids@[k].prize_card == prize_card
                    &&& bids@[k].bidder@ == start[k]@.name
                },
        decreases start.len() - i,
    {
        let bid = if players[i].strategy.is_interactive() {
            players[i].place_bid(prize_card, picks[i])
        } else {
            players[i].get_bid(prize_card, max_card)
        };
        bids.push(bid);
        i = i + 1;
    }
    assert(views(players@) == views(start).map(
        |i: int, p: PlayerView| p.after_offer(p.offer_given(picks@[i], prize_card, max_card)),
    ));
    assert forall|i: int| 0 <= i < bids@.len() implies {
        &&& start[i]@.hand.contains((#[trigger] bids@[i]).offer)
        &&& players@[i]@.hand.len() == start[i]@.hand.len() - 1
    } by {
        if start[i].strategy.is_automatic() {
            lemma_bid_takes_one_card(start[i]@, prize_card, max_card);
        } else {
            lemma_offer_takes_one_card(start[i]@, picks@[i]);
        }
    }
    bids
}

/// Every player bids for `prize_card` in turn with the card its strategy picks; the bids come in
/// player order.
pub fn get_bids(prize_card: u32, max_card: u32, players: &mut Vec<Player>) -> (bids: Vec<Bid>)
    requires
        forall|i: int|
            0 <= i < old(players)@.len() ==> {
                &&& (#[trigger] old(players)@[i])@.hand.len() > 0
                &&& old(players)@[i].strategy.is_automatic()
            },
    ensures
        views(final(players)@) == views(old(players)@).map_values(
            |p: PlayerView| p.after_bid(prize_card, max_card),
        ),
        bids@.len() == old(players)@.len(),
        forall|i: int|
            0 <= i < bids@.len() ==> {
                &&& (#[trigger] bids@[i]).offer == old(players)@[i]@.offer(prize_card, max_card)
                &&& bids@[i].prize_card == prize_card
                &&& bids@[i].bidder@ == old(players)@[i]@.name
                &&& old(players)@[i]@.hand.contains(bids@[i].offer)
                &&& final(players)@[i]@.hand.len() == old(players)@[i]@.hand.len() - 1
            },
{
    let ghost start = players@;
    let no_picks: Vec<u32> = Vec::new();
    let bids = get_bids_with_picks(prize_card, max_card, players, &no_picks);
    assert(views(players@) == views(start).map_values(|p: PlayerView| p.after_bid(prize_card, max_card)));
    assert forall|i: int| 0 <= i < bids@.len() implies {
        &&& start[i]@.hand.contains((#[trigger] bids@[i]).offer)
        &&& players@[i]@.hand.len() == start[i]@.hand.len() - 1
    } by {
        lemma_bid_takes_one_card(start[i]@, prize_card, max_card);
        assert(views(players@)[i] == players@[i]@);
    }
    bids
}

/// Credits the round worth `prize_card` to the players named `round_winner_name`.
pub fn update_round_winner(table: &mut Table, prize_card: u32, round_winner_name: String)
    requires
        forall|i: int|
            0 <= i < old(table)@.players.len() && (#[trigger] old(table)@.players[i]).name
                == round_winner_name@ ==> old(table)@.players[i].stats.can_win_round(prize_card),
    ensures
        final(table)@ == (TableView {
            players: credit_round(old(table)@.players, round_winner_name@, prize_card),
            ..old(table)@
        }),
{
    let ghost start = table@;
    let mut i: usize = 0;
    while i < table.players.len()
        invariant
            i <= table@.players.len(),
            table@.players.len() == start.players.len(),
            table@.prize_card == start.prize_card,
            table@.kitty == start.kitty,
            forall|k: int| i <= k < start.players.len() ==> (#[trigger] table.players@[k])@ == start.players[k],
            forall|k: int|
                0 <= k < i ==> (#[trigger] table.players@[k])@ == credit_round(
                    start.players,
                    round_winner_name@,
                    prize_card,
                )[k],
            forall|k: int|
                0 <= k < start.players.len() && (#[trigger] start.players[k]).name == round_winner_name@
                    ==> start.players[k].stats.can_win_round(prize_card),
        decreases start.players.len() - i,
    {
        assert(start.players[i as int] == table.players@[i as int]@);
        if table.players[i].name == round_winner_name {
            table.players[i].wins_round(prize_card);
        }
        i = i + 1;
    }
    assert(table@.players == credit_round(start.players, round_winner_name@, prize_card));
}

/// Ends a game: the players named `game_winner_name` win it, the others lose it.
pub fn update_game_winner(table: &mut Table, game_winner_name: String)
    requires
        forall|i: int|
            0 <= i < old(table)@.players.len() && (#[trigger] old(table)@.players[i]).name
                == game_winner_name@ ==> old(table)@.players[i].stats.num_games_won < u32::MAX,
    ensures
        final(table)@ == (TableView {
            players: credit_game(old(table)@.players, game_winner_name@),
            ..old(table)@
        }),
{
    let ghost start = table@;
    let mut i: usize = 0;
    while i < table.players.len()
        invariant
            i <= table@.players.len(),
            table@.players.len() == start.players.len(),
            table@.prize_card == start.prize_card,
            table@.kitty == start.kitty,
            forall|k: int| i <= k < start.players.len() ==> (#[trigger] table.players@[k])@ == start.players[k],
            forall|k: int|
                0 <= k < i ==> (#[trigger] table.players@[k])@ == credit_game(start.players, game_winner_name@)[k],
            forall|k: int|
                0 <= k < start.players.len() && (#[trigger] start.players[k]).name == game_winner_name@
                    ==> start.players[k].stats.num_games_won < u32::MAX,
        decreases start.players.len() - i,
    {
        assert(start.players[i as int] == table.players@[i as int]@);
        if table.players[i].name == game_winner_name {
            table.players[i].wins_game();
        } else {
            table.players[i].loses_game();
        }
        i = i + 1;
    }
    assert(table@.players == credit_game(start.players, game_winner_name@));
}

/// What a round showed: its prize, the bids in player order, and the winner's name.
#[derive(Debug)]
pub struct RoundReport {
    pub prize_card: u32,
    pub bids: Vec<Bid>,
    pub winner: String,
}

/// Plays one round in which the players asked at the console offer their entries of `picks`:
/// the last kitty card is the prize, every player bids, and the highest offer wins, the earliest
/// on a tie. Nobody is credited yet.
pub fn play_round_with_picks(table: &mut Table, max_card: u32, picks: &Vec<u32>) -> (r: RoundReport)
    requires
        old(table)@.kitty.len() > 0,
        old(table)@.players.len() > 0,
        forall|i: int|
            0 <= i < old(table)@.players.len() ==> if (#[trigger] old(table)@.players[i]).strategy.is_automatic() {
                old(table)@.players[i].hand.len() > 0
            } else {
                i < picks@.len() && old(table)@.players[i].hand.contains(picks@[i])
            },
    ensures
        final(table)@ == old(table)@.after_bids_given(picks@, max_card),
        r.prize_card == old(table)@.prize(),
        r.winner@ == old(table)@.round_winner_given(picks@, max_card),
        r.bids@.len() == old(table)@.players.len(),
        forall|i: int|
            0 <= i < r.bids@.len() ==> {
                &&& (#[trigger] r.bids@[i]).offer == old(table)@.offers_given(picks@, max_card)[i]
                &&& r.bids@[i].prize_card == r.prize_card
                &&& r.bids@[i].bidder@ == old(table)@.players[i].name
                &&& old(table)@.players[i].hand.contains(r.bids@[i].offer)
                &&& final(table)@.players[i].hand.len() == old(table)@.players[i].hand.len() - 1
            },
{
    let ghost start = table@;
    let prize_card = table.kitty.cards.pop().unwrap();
    assert forall|i: int| 0 <= i < table.players@.len() implies if (#[trigger] table.players@[i]).strategy.is_automatic() {
        table.players@[i]@.hand.len() > 0
    } else {
        i < picks@.len() && table.players@[i]@.hand.contains(picks@[i])
    } by {
        assert(start.players[i] == table.players@[i]@);
    }
    let bids = get_bids_with_picks(prize_card, max_card, &mut table.players, picks);
    assert(offers_of(bids@) == start.offers_given(picks@, max_card));
    assert(table@.players == start.after_bids_given(picks@, max_card).players);
    let winner = determine_round_winner(&bids).bidder.clone();
    proof {
        lemma_first_max_index(offers_of(bids@));
    }
    RoundReport { prize_card: prize_card, bids: bids, winner: winner }
}

/// Plays one round: the last kitty card is the prize, every player bids with the card its
/// strategy picks, and the highest offer wins, the earliest on a tie. Returns the prize card and
/// the winner's name; nobody is credited yet.
pub fn play_round(table: &mut Table, max_card: u32) -> (r: (u32, String))
    requires
        old(table)@.kitty.len() > 0,
        old(table)@.players.len() > 0,
        old(table)@.can_bid(),
    ensures
        final(table)@ == old(table)@.after_bids(max_card),
        r.0 == old(table)@.prize(),
        r.1@ == old(table)@.round_winner(max_card),
        final(table)@.kitty == old(table)@.kitty.drop_last(),
        final(table)@.players.len() == old(table)@.players.len(),
        forall|i: int|
            0 <= i < old(table)@.players.len() ==> {
                &&& old(table)@.players[i].hand.contains(#[trigger] old(table)@.offers(max_card)[i])
                &&& final(table)@.players[i].hand.len() == old(table)@.players[i].hand.len() - 1
            },
{
    let ghost start = table@;
    let no_picks: Vec<u32> = Vec::new();
    proof {
        lemma_automatic_bids(start, no_picks@, max_card);
    }
    assert forall|i: int| 0 <= i < start.players.len() implies if (#[trigger] start.players[i]).strategy.is_automatic() {
        start.players[i].hand.len() > 0
    } else {
        i < no_picks@.len() && start.players[i].hand.contains(no_picks@[i])
    } by {
        assert(start.players[i].hand.len() > 0);
    }
    let report = play_round_with_picks(table, max_card, &no_picks);
    assert forall|i: int| 0 <= i < start.players.len() implies {
        &&& start.players[i].hand.contains(#[trigger] start.offers(max_card)[i])
        &&& table@.players[i].hand.len() == start.players[i].hand.len() - 1
    } by {
        assert(start.players[i].hand.len() > 0);
        lemma_bid_takes_one_card(start.players[i], start.prize(), max_card);
    }
    (report.prize_card, report.winner)
}

/// Deals `deck` in chunks of `num_cards_per_hand`: the first to the kitty, the next ones to the
/// players in order. Cards beyond those chunks are not dealt.
pub fn deal_deck(deck: &Vec<u32>, num_cards_per_hand: u32, table: &mut Table)
    requires
        (old(table)@.players.len() + 1) * num_cards_per_hand <= deck@.len(),
    ensures
        final(table)@ == old(table)@.dealt(deck@, num_cards_per_hand as nat),
{
    let ghost start = table@;
    let ghost h = num_cards_per_hand as nat;
    let per_hand = num_cards_per_hand as usize;
    let n = table.players.len();
    let deck_len = deck.len();
    assert(per_hand <= (n + 1) * per_hand) by (nonlinear_arith);
    table.kitty = Hand { cards: chunk(deck, 0, per_hand) };
    let mut i: usize = 0;
    while i < n
        invariant
            i <= n,
            n == table@.players.len(),
            n == start.players.len(),
            (n + 1) * h <= deck@.len(),
            deck_len == deck@.len(),
            h == per_hand,
            table@.kitty == start.dealt(deck@, h).kitty,
            table@.prize_card == start.prize_card,
            forall|k: int| i <= k < n ==> (#[trigger] table.players@[k])@ == start.players[k],
            forall|k: int| 0 <= k < i ==> (#[trigger] table.players@[k])@ == start.dealt(deck@, h).players[k],
        decreases n - i,
    {
        assert((i + 2) * h <= (n + 1) * h) by (nonlinear_arith)
            requires
                i < n,
        ;
        assert((i + 2) * h == (i + 1) * h + h) by (nonlinear_arith);
        let start_at = (i + 1) * per_hand;
        assert(start.players[i as int] == table.players@[i as int]@);
        table.players[i].hand = Hand { cards: chunk(deck, start_at, per_hand) };
        i = i + 1;
    }
    assert(table@.players =~= start.dealt(deck@, h).players);
}

/// Deals a freshly shuffled deck of `config.num_cards` cards to the kitty and the players,
/// `config.num_cards_per_hand` cards each; the cards left over are not dealt.
pub fn deal_to_table(config: &Config, table: &mut Table)
    requires
        config.wf(),
        config.num_players == old(table)@.players.len(),
        config.num_cards_per_hand > 0,
    ensures
        exists|deck: Seq<u32>|
            #[trigger] is_deck(deck, config.num_cards)
                && final(table)@ == old(table)@.dealt(deck, config.num_cards_per_hand as nat),
        final(table)@.kitty.len() == config.num_cards_per_hand,
        forall|i: int|
            0 <= i < final(table)@.players.len() ==> (#[trigger] final(table)@.players[i]).hand.len()
                == config.num_cards_per_hand,
        final(table)@.cards_apart(),
        forall|o: int|
            0 <= o <= final(table)@.players.len() ==> (#[trigger] final(table)@.holding(o)).no_duplicates(),
        forall|o: int, j: int|
            0 <= o <= final(table)@.players.len() && 0 <= j < final(table)@.holding(o).len() ==> 1
                <= #[trigger] final(table)@.holding(o)[j] <= config.num_cards,
{
    let deck = build_deck(config.num_cards);
    let ghost n = config.num_players as int;
    assert((n + 1) * (config.num_cards as int / (n + 1)) <= config.num_cards) by (nonlinear_arith)
        requires
            n >= 0,
    ;
    proof {
        lemma_deck_cards(deck@, config.num_cards);
        lemma_deal_keeps_cards_apart(table@, deck@, config.num_cards_per_hand as nat);
    }
    deal_deck(&deck, config.num_cards_per_hand, table);
    assert forall|o: int, j: int|
        0 <= o <= table@.players.len() && 0 <= j < table@.holding(o).len() implies 1
        <= #[trigger] table@.holding(o)[j] <= config.num_cards by {
        let x = table@.holding(o)[j];
        assert(deck@.contains(x));
        let p = choose|p: int| 0 <= p < deck@.len() && deck@[p] == x;
        assert(1 <= deck@[p] <= config.num_cards);
    }
}

/// Plays `num_rounds` rounds on a dealt table, crediting each round's winner, and returns the
/// name of the game's winner: the first player with the highest total.
pub fn play_dealt_game(table: &mut Table, num_rounds: u32, max_card: u32) -> (r: String)
    requires
        old(table)@.ready_for(num_rounds as nat, max_card),
    ensures
        final(table)@ == old(table)@.after_rounds(max_card, num_rounds as nat),
        r@ == final(table)@.game_winner(),
        final(table)@.kitty.len() == old(table)@.kitty.len() - num_rounds,
        final(table)@.players.len() == old(table)@.players.len(),
        forall|i: int|
            0 <= i < old(table)@.players.len() ==> (#[trigger] final(table)@.players[i]).hand.len()
                == old(table)@.players[i].hand.len() - num_rounds,
{
    let ghost start = table@;
    let mut round: u32 = 0;
    while round < num_rounds
        invariant
            round <= num_rounds,
            table@ == start.after_rounds(max_card, round as nat),
            table@.kitty.len() == start.kitty.len() - round,
            table@.players.len() == start.players.len(),
            forall|i: int|
                0 <= i < start.players.len() ==> (#[trigger] table@.players[i]).hand.len()
                    == start.players[i].hand.len() - round,
            table@.ready_for((num_rounds - round) as nat, max_card),
        decreases num_rounds - round,
    {
        let ghost before = table@;
        let ghost k = (num_rounds - round - 1) as nat;
        assert(before.can_bid()) by {
            assert forall|i: int| 0 <= i < before.players.len() implies {
                &&& #[trigger] before.players[i].hand.len() > 0
                &&& before.players[i].strategy.is_automatic()
            } by {
                assert(before.players[i].hand.len() >= k + 1);
            }
        }
        let (prize_card, round_winner_name) = play_round(table, max_card);
        assert(prize_card <= max_card) by {
            assert(before.kitty[before.kitty.len() - 1] <= max_card);
        }
        assert forall|i: int|
            0 <= i < table@.players.len() && (#[trigger] table@.players[i]).name == round_winner_name@
            implies table@.players[i].stats.can_win_round(prize_card) by {
            assert(table@.players[i] == before.players[i].after_bid(prize_card, max_card));
            assert(before.players[i].stats.total_for_game + (k + 1) * max_card <= u32::MAX);
            assert((k + 1) * max_card >= max_card) by (nonlinear_arith);
        }
        update_round_winner(table, prize_card, round_winner_name);
        proof {
            lemma_round_keeps_ready(before, k, max_card);
        }
        round = round + 1;
    }
    proof {
        lemma_first_max_index(totals_of(table@.players));
    }
    let winner = determine_game_winner(&table.players);
    winner.name.clone()
}

/// Plays one game: deals a freshly shuffled deck, plays one round per card in a hand with
/// `config.num_cards` as the deck's top card, and returns the name of the game's winner.
///
/// The counts must have room for the game: a total may grow by `num_cards_per_hand` prizes of
/// at most `num_cards` each. This bounds every prize by the deck's top card rather than summing
/// the highest cards that the kitty could hold; on a fresh game it asks for
/// `num_cards_per_hand * num_cards` to fit in a `u32`, at most twice what the exact sum needs,
/// and it keeps the proof to arithmetic on the rounds.
pub fn play_game(config: &Config, table: &mut Table) -> (r: String)
    requires
        config.wf(),
        config.num_players == old(table)@.players.len(),
        config.num_cards_per_hand > 0,
        old(table)@.players.len() > 0,
        forall|i: int|
            0 <= i < old(table)@.players.len() ==> {
                &&& (#[trigger] old(table)@.players[i]).strategy.is_automatic()
                &&& old(table)@.players[i].stats.total_for_game + config.num_cards_per_hand
                    * config.num_cards <= u32::MAX
                &&& old(table)@.players[i].stats.num_rounds_won + config.num_cards_per_hand
                    <= u32::MAX
            },
    ensures
        exists|deck: Seq<u32>|
            #[trigger] is_deck(deck, config.num_cards) && final(table)@ == old(table)@.dealt(
                deck,
                config.num_cards_per_hand as nat,
            ).after_rounds(config.num_cards, config.num_cards_per_hand as nat),
        r@ == final(table)@.game_winner(),
        final(table)@.kitty.len() == 0,
        final(table)@.players.len() == old(table)@.players.len(),
        forall|i: int|
            0 <= i < final(table)@.players.len() ==> (#[trigger] final(table)@.players[i]).hand.len() == 0,
{
    let deck = build_deck(config.num_cards);
    let ghost start = table@;
    let ghost h = config.num_cards_per_hand as nat;
    let ghost n = config.num_players as int;
    assert((n + 1) * (config.num_cards as int / (n + 1)) <= config.num_cards) by (nonlinear_arith)
        requires
            n >= 0,
    ;
    proof {
        lemma_deck_cards(deck@, config.num_cards);
        lemma_deal_keeps_cards_apart(table@, deck@, h);
    }
    deal_deck(&deck, config.num_cards_per_hand, table);
    proof {
        let d = table@;
        assert forall|j: int| 0 <= j < d.kitty.len() implies #[trigger] d.kitty[j] <= config.num_cards by {
            assert(d.kitty[j] == deck@[j]);
        }
        assert forall|i: int| 0 <= i < d.players.len() implies {
            &&& (#[trigger] d.players[i]).hand.len() >= h
            &&& d.players[i].strategy.is_automatic()
            &&& d.players[i].stats.total_for_game + h * config.num_cards <= u32::MAX
            &&& d.players[i].stats.num_rounds_won + h <= u32::MAX
        } by {
            assert(d.players[i].stats == start.players[i].stats);
        }
    }
    play_dealt_game(table, config.num_cards_per_hand, config.num_cards)
}

/// Plays `config.num_games` games on the same table, each game's winner winning it and the
/// others losing it, and returns the name of the tournament's winner: the first player with the
/// most games won.
///
/// Each game needs the room in the counts that `play_game` asks for, and the games won need room
/// for `num_games` more.
pub fn play_tourney(config: &Config, table: &mut Table) -> (r: String)
    requires
        config.wf(),
        config.num_players == old(table)@.players.len(),
        config.num_cards_per_hand > 0,
        old(table)@.players.len() > 0,
        forall|i: int|
            0 <= i < old(table)@.players.len() ==> {
                &&& (#[trigger] old(table)@.players[i]).strategy.is_automatic()
                &&& old(table)@.players[i].stats.total_for_game + config.num_cards_per_hand
                    * config.num_cards <= u32::MAX
                &&& old(table)@.players[i].stats.num_rounds_won + config.num_cards_per_hand
                    <= u32::MAX
                &&& old(table)@.players[i].stats.num_games_won + config.num_games <= u32::MAX
            },
    ensures
        exists|decks: Seq<Seq<u32>>|
            decks.len() == config.num_games && (forall|g: int|
                0 <= g < decks.len() ==> #[trigger] is_deck(decks[g], config.num_cards))
                && final(table)@ == old(table)@.after_games(
                decks,
                config.num_cards_per_hand as nat,
                config.num_cards,
            ),
        r@ == final(table)@.tourney_winner(),
        final(table)@.players.len() == old(table)@.players.len(),
        forall|i: int|
            0 <= i < old(table)@.players.len() ==> {
                &&& (#[trigger] final(table)@.players[i]).name == old(table)@.players[i].name
                &&& final(table)@.players[i].strategy == old(table)@.players[i].strategy
                &&& old(table)@.players[i].stats.num_games_won <= final(table)@.players[i].stats.num_games_won
                &&& final(table)@.players[i].stats.num_games_won <= old(table)@.players[i].stats.num_games_won
                    + config.num_games
                &&& config.num_games > 0 ==> final(table)@.players[i].stats.total_for_game == 0
                    && final(table)@.players[i].stats.num_rounds_won == 0
                &&& config.num_games > 0 ==> final(table)@.players[i].hand.len() == 0
            },
        config.num_games > 0 ==> final(table)@.kitty.len() == 0,
        config.num_games == 1 && old(table)@.names_distinct() ==> exists|w: int|
            0 <= w < old(table)@.players.len() && final(table)@.players[w].stats.num_games_won
                == old(table)@.players[w].stats.num_games_won + 1 && forall|i: int|
                0 <= i < old(table)@.players.len() && i != w ==> (#[trigger] final(table)@.players[i]).stats.num_games_won
                    == old(table)@.players[i].stats.num_games_won,
{
    let ghost start = table@;
    let ghost h = config.num_cards_per_hand as int;
    let ghost mut decks: Seq<Seq<u32>> = Seq::empty();
    let mut game: u32 = 0;
    while game < config.num_games
        invariant
            game <= config.num_games,
            decks.len() == game,
            forall|g: int| 0 <= g < decks.len() ==> #[trigger] is_deck(decks[g], config.num_cards),
            table@ == start.after_games(decks, h as nat, config.num_cards),
            config.wf(),
            config.num_cards_per_hand > 0,
            h == config.num_cards_per_hand,
            table@.players.len() == start.players.len(),
            config.num_players == start.players.len(),
            start.players.len() > 0,
            forall|i: int|
                0 <= i < start.players.len() ==> {
                    &&& (#[trigger] table@.players[i]).name == start.players[i].name
                    &&& table@.players[i].strategy == start.players[i].strategy
                    &&& table@.players[i].strategy.is_automatic()
                    &&& start.players[i].stats.num_games_won <= table@.players[i].stats.num_games_won
                    &&& table@.players[i].stats.num_games_won <= start.players[i].stats.num_games_won + game
                    &&& start.players[i].stats.num_games_won + config.num_games <= u32::MAX
                    &&& table@.players[i].stats.total_for_game + h * config.num_cards <= u32::MAX
                    &&& table@.players[i].stats.num_rounds_won + h <= u32::MAX
                    &&& game > 0 ==> table@.players[i].stats.total_for_game == 0
                        && table@.players[i].stats.num_rounds_won == 0
                    &&& game > 0 ==> table@.players[i].hand.len() == 0
                },
            game > 0 ==> table@.kitty.len() == 0,
        decreases config.num_games - game,
    {
        let ghost before = table@;
        let game_winner_name = play_game(config, table);
        let ghost deck = choose|deck: Seq<u32>|
            #[trigger] is_deck(deck, config.num_cards) && table@ == before.dealt(deck, h as nat).after_rounds(
                config.num_cards,
                h as nat,
            );
        proof {
            let d = before.dealt(deck, h as nat);
            lemma_rounds_keep_players(d, config.num_cards, h as nat);
            assert forall|i: int| 0 <= i < before.players.len() implies (#[trigger] d.players[i]).name
                == before.players[i].name && d.players[i].strategy == before.players[i].strategy
                && d.players[i].stats == before.players[i].stats by {}
        }
        update_game_winner(table, game_winner_name);
        proof {
            assert forall|i: int| 0 <= i < start.players.len() implies (#[trigger] table@.players[i]).stats.total_for_game
                + h * config.num_cards <= u32::MAX by {
                assert(h * config.num_cards <= u32::MAX) by {
                    assert(before.players[i].stats.total_for_game + h * config.num_cards <= u32::MAX);
                }
            }
            assert(table@ == before.after_game(deck, h as nat, config.num_cards));
            assert(decks.push(deck).drop_last() == decks);
            decks = decks.push(deck);
        }
        game = game + 1;
    }
    proof {
        lemma_first_max_index(games_won_of(table@.players));
        if config.num_games == 1 && start.names_distinct() {
            assert(decks.drop_last().len() == 0);
            assert(start.after_games(decks.drop_last(), h as nat, config.num_cards) == start);
            assert(start.players[0].stats.num_games_won < u32::MAX);
            lemma_game_credits_one_player(start, decks.last(), h as nat, config.num_cards);
        }
    }
    let winner = determine_tourney_winner(&table.players);
    winner.name.clone()
}

} // verus!
