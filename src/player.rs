use vstd::prelude::*;
use crate::strategy::{lemma_choice_in_hand, Hand, Strategy};

verus! {

/// A player's running counts.
#[derive(Clone, Copy, Debug, PartialEq, Eq, Structural)]
pub struct PlayerStats {
    /// The sum of the prize cards won in the current game.
    pub total_for_game: u32,
    /// The games won in the tournament so far.
    pub num_games_won: u32,
    /// The rounds won in the current game.
    pub num_rounds_won: u32,
}

impl PlayerStats {
    /// The counts after winning a round whose prize is `prize_card`.
    pub open spec fn after_round_won(self, prize_card: u32) -> PlayerStats {
        PlayerStats {
            total_for_game: (self.total_for_game + prize_card) as u32,
            num_rounds_won: (self.num_rounds_won + 1) as u32,
            ..self
        }
    }

    /// The counts after winning a game: the game's counts cleared, one more game won.
    pub open spec fn after_game_won(self) -> PlayerStats {
        PlayerStats {
            total_for_game: 0,
            num_rounds_won: 0,
            num_games_won: (self.num_games_won + 1) as u32,
        }
    }

    /// The counts after losing a game: the game's counts cleared.
    pub open spec fn after_game_lost(self) -> PlayerStats {
        PlayerStats { total_for_game: 0, num_rounds_won: 0, ..self }
    }

    /// Whether winning a round worth `prize_card` keeps every count within range.
    pub open spec fn can_win_round(self, prize_card: u32) -> bool {
        self.total_for_game + prize_card <= u32::MAX && self.num_rounds_won < u32::MAX
    }

    /// All counts at zero.
    pub fn new() -> (r: PlayerStats)
        ensures
            r == (PlayerStats { total_for_game: 0, num_games_won: 0, num_rounds_won: 0 }),
    {
        PlayerStats { total_for_game: 0, num_games_won: 0, num_rounds_won: 0 }
    }

    /// Adds a won round worth `prize_card`.
    pub fn wins_round(&mut self, prize_card: u32)
        requires
            old(self).can_win_round(prize_card),
        ensures
            *final(self) == old(self).after_round_won(prize_card),
    {
        self.total_for_game = self.total_for_game + prize_card;
        self.num_rounds_won = self.num_rounds_won + 1;
    }

    /// Adds a won game and clears the game's counts.
    pub fn wins_game(&mut self)
        requires
            old(self).num_games_won < u32::MAX,
        ensures
            *final(self) == old(self).after_game_won(),
    {
        self.total_for_game = 0;
        self.num_rounds_won = 0;
        self.num_games_won = self.num_games_won + 1;
    }

    /// Clears the game's counts.
    pub fn loses_game(&mut self)
        ensures
            *final(self) == old(self).after_game_lost(),
    {
        self.total_for_game = 0;
        self.num_rounds_won = 0;
    }
}

/// What a player is, seen whole.
pub struct PlayerView {
    pub name: Seq<char>,
    pub hand: Seq<u32>,
    pub strategy: Strategy,
    pub stats: PlayerStats,
}

impl PlayerView {
    /// The card that the player offers for `prize_card`.
    pub open spec fn offer(self, prize_card: u32, max_card: u32) -> u32 {
        self.strategy.choice(prize_card, self.hand, max_card)
    }

    /// The card that the player offers for `prize_card`, `pick` being what it chose at the
    /// console if it is asked there.
    pub open spec fn offer_given(self, pick: u32, prize_card: u32, max_card: u32) -> u32 {
        if self.strategy.is_automatic() {
            self.offer(prize_card, max_card)
        } else {
            pick
        }
    }

    /// The player after handing over `offer`: the first card of that value leaves the hand.
    pub open spec fn after_offer(self, offer: u32) -> PlayerView {
        PlayerView { hand: self.hand.remove_value(offer), ..self }
    }

    /// The player after bidding by its strategy for `prize_card`.
    pub open spec fn after_bid(self, prize_card: u32, max_card: u32) -> PlayerView {
        self.after_offer(self.offer(prize_card, max_card))
    }

    /// The player with other counts.
    pub open spec fn with_stats(self, stats: PlayerStats) -> PlayerView {
        PlayerView { stats: stats, ..self }
    }
}

/// Handing over a card that the player holds takes exactly one card from its hand.
pub proof fn lemma_offer_takes_one_card(p: PlayerView, offer: u32)
    requires
        p.hand.contains(offer),
    ensures
        p.after_offer(offer).hand.len() == p.hand.len() - 1,
{
    p.hand.index_of_first_ensures(offer);
}

/// A player who picks by itself and holds a card offers one of its cards, and bidding takes
/// exactly that one card from its hand.
pub proof fn lemma_bid_takes_one_card(p: PlayerView, prize_card: u32, max_card: u32)
    requires
        p.hand.len() > 0,
        p.strategy.is_automatic(),
    ensures
        p.hand.contains(p.offer(prize_card, max_card)),
        p.after_bid(prize_card, max_card).hand.len() == p.hand.len() - 1,
{
    lemma_choice_in_hand(p.strategy, prize_card, p.hand, max_card);
    lemma_offer_takes_one_card(p, p.offer(prize_card, max_card));
}

/// A named player with its hand, its strategy and its counts.
#[derive(Debug)]
pub struct Player {
    pub name: String,
    pub hand: Hand,
    pub strategy: Strategy,
    pub player_stats: PlayerStats,
}

impl View for Player {
    type V = PlayerView;

    open spec fn view(&self) -> PlayerView {
        PlayerView {
            name: self.name@,
            hand: self.hand@,
            strategy: self.strategy,
            stats: self.player_stats,
        }
    }
}

/// One player's offer in a round.
#[derive(Debug)]
pub struct Bid {
    /// The card offered.
    pub offer: u32,
    /// The name of the player who made the offer.
    pub bidder: String,
    /// The prize card of the round.
    pub prize_card: u32,
}

impl Hand {
    /// Takes the first card of value `card` out of the hand; a hand without one stays as it is.
    pub fn remove_card(&mut self, card: u32)
        ensures
            final(self)@ == old(self)@.remove_value(card),
    {
        let mut i: usize = 0;
        while i < self.cards.len()
            invariant
                i <= self@.len(),
                self@ == old(self)@,
                forall|k: int| 0 <= k < i ==> self@[k] != card,
            decreases self@.len() - i,
        {
            if self.cards[i] == card {
                proof {
                    self@.index_of_first_ensures(card);
                }
                self.cards.remove(i);
                return;
            }
            i = i + 1;
        }
        proof {
            self@.index_of_first_ensures(card);
        }
    }
}

impl Player {
    /// A player named "unknown" with an empty hand, the next-card strategy and zero counts.
    pub fn new() -> (p: Player)
        ensures
            p@.name == "unknown"@,
            p@.hand == Seq::<u32>::empty(),
            p@.strategy == Strategy::NextCard,
            p@.stats == (PlayerStats { total_for_game: 0, num_games_won: 0, num_rounds_won: 0 }),
    {
        Player {
            name: String::from_str("unknown"),
            hand: Hand::new(),
            strategy: Strategy::NextCard,
            player_stats: PlayerStats::new(),
        }
    }

    /// A player with an empty hand and zero counts, its strategy given by name.
    pub fn new_from_json(name: &str, strategy_name: &str) -> (p: Player)
        ensures
            p@.name == name@,
            p@.hand == Seq::<u32>::empty(),
            p@.strategy == crate::strategy::strategy_named(strategy_name@),
            p@.stats == (PlayerStats { total_for_game: 0, num_games_won: 0, num_rounds_won: 0 }),
    {
        Player {
            name: String::from_str(name),
            hand: Hand::new(),
            strategy: Strategy::from_name(strategy_name),
            player_stats: PlayerStats::new(),
        }
    }

    /// Hands over `offer` for `prize_card`: the card leaves the hand and the bid names the player.
    pub fn place_bid(&mut self, prize_card: u32, offer: u32) -> (b: Bid)
        ensures
            final(self)@ == old(self)@.after_offer(offer),
            b.offer == offer,
            b.prize_card == prize_card,
            b.bidder@ == old(self)@.name,
    {
        self.hand.remove_card(offer);
        Bid { prize_card: prize_card, offer: offer, bidder: self.name.clone() }
    }

    /// Bids for `prize_card` with the card that the player's strategy picks.
    pub fn get_bid(&mut self, prize_card: u32, max_card: u32) -> (b: Bid)
        requires
            old(self)@.hand.len() > 0,
            old(self).strategy.is_automatic(),
        ensures
            final(self)@ == old(self)@.after_bid(prize_card, max_card),
            b.offer == old(self)@.offer(prize_card, max_card),
            old(self)@.hand.contains(b.offer),
            final(self)@.hand.len() == old(self)@.hand.len() - 1,
            b.prize_card == prize_card,
            b.bidder@ == old(self)@.name,
    {
        proof {
            lemma_bid_takes_one_card(self@, prize_card, max_card);
        }
        let offer = self.strategy.select_card(prize_card, &self.hand, max_card);
        self.place_bid(prize_card, offer)
    }

    /// Adds a won round worth `prize_card` to the player's counts.
    pub fn wins_round(&mut self, prize_card: u32)
        requires
            old(self).player_stats.can_win_round(prize_card),
        ensures
            final(self)@ == old(self)@.with_stats(old(self).player_stats.after_round_won(prize_card)),
    {
        self.player_stats.wins_round(prize_card);
    }

    /// Adds a won game to the player's counts and clears the game's counts.
    pub fn wins_game(&mut self)
        requires
            old(self).player_stats.num_games_won < u32::MAX,
        ensures
            final(self)@ == old(self)@.with_stats(old(self).player_stats.after_game_won()),
    {
        self.player_stats.wins_game();
    }

    /// Clears the game's counts of the player.
    pub fn loses_game(&mut self)
        ensures
            final(self)@ == old(self)@.with_stats(old(self).player_stats.after_game_lost()),
    {
        self.player_stats.loses_game();
    }
}

} // verus!
