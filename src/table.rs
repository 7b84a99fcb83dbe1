use vstd::prelude::*;
use crate::player::{lemma_bid_takes_one_card, Bid, Player, PlayerView};
use crate::strategy::Hand;

verus! {

/// The sizes that a tournament is played with.
#[derive(Debug)]
pub struct Config {
    pub num_players: u32,
    pub num_games: u32,
    pub num_cards: u32,
    /// The cards dealt to the kitty and to each player: `num_cards / (num_players + 1)`.
    pub num_cards_per_hand: u32,
}

impl Config {
    /// Whether the hand size is the deck shared out evenly over the players and the kitty.
    pub open spec fn wf(&self) -> bool {
        self.num_cards_per_hand as int == self.num_cards as int / (self.num_players as int + 1)
    }

    /// The sizes for `num_players` players, `num_games` games and a deck of `num_cards` cards.
    pub fn new(num_players: u32, num_games: u32, num_cards: u32) -> (c: Config)
        ensures
            c.wf(),
            c.num_players == num_players,
            c.num_games == num_games,
            c.num_cards == num_cards,
    {
        let per_hand = (num_cards as u64 / (num_players as u64 + 1)) as u32;
        Config {
            num_players: num_players,
            num_games: num_games,
            num_cards: num_cards,
            num_cards_per_hand: per_hand,
        }
    }
}

/// A table seen whole.
pub struct TableView {
    pub prize_card: u32,
    pub players: Seq<PlayerView>,
    pub kitty: Seq<u32>,
}

/// The players and the kitty of one tournament.
#[derive(Debug)]
pub struct Table {
    pub prize_card: u32,
    /// The players, in bidding order.
    pub players: Vec<Player>,
    /// The hand that the prize cards come from.
    pub kitty: Hand,
}

impl View for Table {
    type V = TableView;

    open spec fn view(&self) -> TableView {
        TableView { prize_card: self.prize_card, players: views(self.players@), kitty: self.kitty@ }
    }
}

impl Table {
    /// A table with no players and an empty kitty.
    pub fn new() -> (t: Table)
        ensures
            t@.prize_card == 0,
            t@.players == Seq::<PlayerView>::empty(),
            t@.kitty == Seq::<u32>::empty(),
    {
        Table { prize_card: 0, players: Vec::new(), kitty: Hand::new() }
    }
}

/// The views of a sequence of players.
pub open spec fn views(players: Seq<Player>) -> Seq<PlayerView> {
    players.map_values(|p: Player| p@)
}

/// The offers of a sequence of bids.
pub open spec fn offers_of(bids: Seq<Bid>) -> Seq<u32> {
    bids.map_values(|b: Bid| b.offer)
}

/// The game totals of a sequence of players.
pub open spec fn totals_of(players: Seq<PlayerView>) -> Seq<u32> {
    players.map_values(|p: PlayerView| p.stats.total_for_game)
}

/// The games won by each of a sequence of players.
pub open spec fn games_won_of(players: Seq<PlayerView>) -> Seq<u32> {
    players.map_values(|p: PlayerView| p.stats.num_games_won)
}

/// The position of the first greatest value of a non-empty `s`: a later value takes the lead
/// only when strictly greater.
pub open spec fn first_max_index(s: Seq<u32>) -> int
    decreases s.len(),
{
    if s.len() <= 1 {
        0
    } else {
        let j = first_max_index(s.drop_last());
        if s.last() > s[j] {
            s.len() - 1
        } else {
            j
        }
    }
}

/// The first greatest value leads: none is greater, and none before it is as great.
pub proof fn lemma_first_max_index(s: Seq<u32>)
    requires
        s.len() > 0,
    ensures
        0 <= first_max_index(s) < s.len(),
        forall|k: int| 0 <= k < s.len() ==> #[trigger] s[k] <= s[first_max_index(s)],
        forall|k: int| 0 <= k < first_max_index(s) ==> #[trigger] s[k] < s[first_max_index(s)],
    decreases s.len(),
{
    if s.len() > 1 {
        let t = s.drop_last();
        lemma_first_max_index(t);
        assert forall|k: int| 0 <= k < t.len() implies #[trigger] s[k] == t[k] by {}
    }
}

/// The players after a round won by the players named `winner`, worth `prize_card`.
pub open spec fn credit_round(players: Seq<PlayerView>, winner: Seq<char>, prize_card: u32) -> Seq<PlayerView> {
    players.map_values(|p: PlayerView|
        if p.name == winner {
            p.with_stats(p.stats.after_round_won(prize_card))
        } else {
            p
        })
}

/// The players after a game won by the players named `winner`; the others lose it.
pub open spec fn credit_game(players: Seq<PlayerView>, winner: Seq<char>) -> Seq<PlayerView> {
    players.map_values(|p: PlayerView|
        if p.name == winner {
            p.with_stats(p.stats.after_game_won())
        } else {
            p.with_stats(p.stats.after_game_lost())
        })
}

impl TableView {
    /// Whether every player can bid in the next round: each has a card and picks by itself.
    pub open spec fn can_bid(self) -> bool {
        forall|i: int|
            0 <= i < self.players.len() ==> {
                &&& #[trigger] self.players[i].hand.len() > 0
                &&& self.players[i].strategy.is_automatic()
            }
    }

    /// The prize card of the next round: the last card of the kitty.
    pub open spec fn prize(self) -> u32 {
        self.kitty.last()
    }

    /// What each player offers in the next round.
    pub open spec fn offers(self, max_card: u32) -> Seq<u32> {
        self.players.map_values(|p: PlayerView| p.offer(self.prize(), max_card))
    }

    /// The name of the player who wins the next round.
    pub open spec fn round_winner(self, max_card: u32) -> Seq<char> {
        self.players[first_max_index(self.offers(max_card))].name
    }

    /// The table once the prize is off the kitty and every player has bid.
    pub open spec fn after_bids(self, max_card: u32) -> TableView {
        TableView {
            kitty: self.kitty.drop_last(),
            players: self.players.map_values(|p: PlayerView| p.after_bid(self.prize(), max_card)),
            ..self
        }
    }

    /// What each player offers in the next round, the players asked at the console offering
    /// their entries of `picks`.
    pub open spec fn offers_given(self, picks: Seq<u32>, max_card: u32) -> Seq<u32> {
        self.players.map(|i: int, p: PlayerView| p.offer_given(picks[i], self.prize(), max_card))
    }

    /// The name of the player who wins the next round, given the console picks.
    pub open spec fn round_winner_given(self, picks: Seq<u32>, max_card: u32) -> Seq<char> {
        self.players[first_max_index(self.offers_given(picks, max_card))].name
    }

    /// The table once the prize is off the kitty and every player has bid, given the console picks.
    pub open spec fn after_bids_given(self, picks: Seq<u32>, max_card: u32) -> TableView {
        TableView {
            kitty: self.kitty.drop_last(),
            players: self.players.map(
                |i: int, p: PlayerView| p.after_offer(p.offer_given(picks[i], self.prize(), max_card)),
            ),
            ..self
        }
    }

    /// The table once the next round is played and its winner credited.
    pub open spec fn after_round(self, max_card: u32) -> TableView {
        let t = self.after_bids(max_card);
        TableView {
            players: credit_round(t.players, self.round_winner(max_card), self.prize()),
            ..t
        }
    }

    /// The table after `k` rounds.
    pub open spec fn after_rounds(self, max_card: u32, k: nat) -> TableView
        decreases k,
    {
        if k == 0 {
            self
        } else {
            self.after_rounds(max_card, (k - 1) as nat).after_round(max_card)
        }
    }

    /// The name of the player who wins the game as it stands.
    pub open spec fn game_winner(self) -> Seq<char> {
        self.players[first_max_index(totals_of(self.players))].name
    }

    /// The table once `deck` is dealt in chunks of `h` cards: the first chunk to the kitty, the
    /// next ones to the players in order; the cards after those are left out.
    pub open spec fn dealt(self, deck: Seq<u32>, h: nat) -> TableView {
        TableView {
            kitty: deck.subrange(0, h as int),
            players: self.players.map(
                |i: int, p: PlayerView| PlayerView { hand: deck.subrange((i + 1) * h, (i + 2) * h), ..p },
            ),
            ..self
        }
    }

    /// The cards held by the kitty (`o == 0`) or by the player at `o - 1`.
    pub open spec fn holding(self, o: int) -> Seq<u32> {
        if o == 0 {
            self.kitty
        } else {
            self.players[o - 1].hand
        }
    }

    /// Whether no card value is held by two of the kitty and the players.
    pub open spec fn cards_apart(self) -> bool {
        forall|o1: int, o2: int, x: u32|
            0 <= o1 < o2 <= self.players.len() && #[trigger] self.holding(o1).contains(x)
                ==> !#[trigger] self.holding(o2).contains(x)
    }

    /// Whether `k` more rounds can be played with `max_card` as the deck's top card: there are
    /// players, the kitty has `k` cards none above `max_card`, every player picks by itself and
    /// holds `k` cards, and no count can pass its range in `k` won rounds.
    pub open spec fn ready_for(self, k: nat, max_card: u32) -> bool {
        &&& self.players.len() > 0
        &&& self.kitty.len() >= k
        &&& forall|j: int| 0 <= j < self.kitty.len() ==> #[trigger] self.kitty[j] <= max_card
        &&& forall|i: int|
            0 <= i < self.players.len() ==> {
                &&& (#[trigger] self.players[i]).hand.len() >= k
                &&& self.players[i].strategy.is_automatic()
                &&& self.players[i].stats.total_for_game + k * max_card <= u32::MAX
                &&& self.players[i].stats.num_rounds_won + k <= u32::MAX
            }
    }

    /// The table after a game dealt from `deck` in hands of `h` cards: its rounds played with
    /// `max_card` as the deck's top card, then its winner winning it and the others losing it.
    pub open spec fn after_game(self, deck: Seq<u32>, h: nat, max_card: u32) -> TableView {
        let g = self.dealt(deck, h).after_rounds(max_card, h);
        TableView { players: credit_game(g.players, g.game_winner()), ..g }
    }

    /// The table after one game for each of `decks`, in turn.
    pub open spec fn after_games(self, decks: Seq<Seq<u32>>, h: nat, max_card: u32) -> TableView
        decreases decks.len(),
    {
        if decks.len() == 0 {
            self
        } else {
            self.after_games(decks.drop_last(), h, max_card).after_game(decks.last(), h, max_card)
        }
    }

    /// Whether no two players share a name.
    pub open spec fn names_distinct(self) -> bool {
        forall|i: int, j: int|
            0 <= i < j < self.players.len() ==> #[trigger] self.players[i].name != #[trigger] self.players[j].name
    }

    /// The name of the player who leads the tournament: the first with the most games won.
    pub open spec fn tourney_winner(self) -> Seq<char> {
        self.players[first_max_index(games_won_of(self.players))].name
    }

    /// Whether `u` has the players of `self`, in the same order, with the same names, strategies
    /// and games won.
    pub open spec fn same_players(self, u: TableView) -> bool {
        &&& u.players.len() == self.players.len()
        &&& forall|i: int|
            0 <= i < self.players.len() ==> {
                &&& (#[trigger] u.players[i]).name == self.players[i].name
                &&& u.players[i].strategy == self.players[i].strategy
                &&& u.players[i].stats.num_games_won == self.players[i].stats.num_games_won
            }
    }
}

/// When every player picks by itself, the console picks play no part in a round.
pub proof fn lemma_automatic_bids(t: TableView, picks: Seq<u32>, max_card: u32)
    requires
        t.can_bid(),
    ensures
        t.offers_given(picks, max_card) == t.offers(max_card),
        t.after_bids_given(picks, max_card) == t.after_bids(max_card),
        t.round_winner_given(picks, max_card) == t.round_winner(max_card),
{
    assert forall|i: int| 0 <= i < t.players.len() implies t.offers_given(picks, max_card)[i] == t.offers(
        max_card,
    )[i] by {
        assert(t.players[i].hand.len() > 0);
    }
    assert(t.offers_given(picks, max_card) =~= t.offers(max_card));
    assert forall|i: int| 0 <= i < t.players.len() implies t.after_bids_given(picks, max_card).players[i]
        == t.after_bids(max_card).players[i] by {
        assert(t.players[i].hand.len() > 0);
    }
    assert(t.after_bids_given(picks, max_card).players =~= t.after_bids(max_card).players);
}

/// Dealing a deck without repeated cards gives the kitty and every player `h` cards, and no card
/// to two of them.
pub proof fn lemma_deal_keeps_cards_apart(t: TableView, deck: Seq<u32>, h: nat)
    requires
        deck.no_duplicates(),
        (t.players.len() + 1) * h <= deck.len(),
    ensures
        t.dealt(deck, h).kitty.len() == h,
        forall|i: int| 0 <= i < t.players.len() ==> (#[trigger] t.dealt(deck, h).players[i]).hand.len() == h,
        t.dealt(deck, h).cards_apart(),
        forall|o: int| 0 <= o <= t.players.len() ==> (#[trigger] t.dealt(deck, h).holding(o)).no_duplicates(),
        forall|o: int, j: int|
            0 <= o <= t.players.len() && 0 <= j < t.dealt(deck, h).holding(o).len() ==> deck.contains(
                #[trigger] t.dealt(deck, h).holding(o)[j],
            ),
{
    let d = t.dealt(deck, h);
    let n = t.players.len() as int;
    assert forall|o: int| 0 <= o <= n implies {
        &&& #[trigger] d.holding(o) == deck.subrange(o * h, (o + 1) * h)
        &&& 0 <= o * h
        &&& (o + 1) * h == o * h + h
        &&& (o + 1) * h <= deck.len()
    } by {
        assert((o + 1) * h <= (n + 1) * h) by (nonlinear_arith)
            requires
                0 <= o <= n,
        ;
        assert(0 <= o * h) by (nonlinear_arith)
            requires
                0 <= o,
        ;
        assert((o + 1) * h == o * h + h) by (nonlinear_arith);
        if o > 0 {
            let i = o - 1;
            assert((i + 1) * h == o * h);
            assert((i + 2) * h == (o + 1) * h);
            assert(d.holding(o) == d.players[i].hand);
        }
    }
    assert(d.holding(0) == d.kitty);
    assert forall|i: int| 0 <= i < n implies (#[trigger] d.players[i]).hand.len() == h by {
        assert(d.holding(i + 1) == d.players[i].hand);
    }
    assert forall|o1: int, o2: int, x: u32|
        0 <= o1 < o2 <= n && #[trigger] d.holding(o1).contains(x) implies !#[trigger] d.holding(o2).contains(x) by {
        if d.holding(o2).contains(x) {
            let a = choose|a: int| 0 <= a < d.holding(o1).len() && d.holding(o1)[a] == x;
            let b = choose|b: int| 0 <= b < d.holding(o2).len() && d.holding(o2)[b] == x;
            assert((o1 + 1) * h <= o2 * h) by (nonlinear_arith)
                requires
                    o1 + 1 <= o2,
            ;
            assert(deck[o1 * h + a] == x);
            assert(deck[o2 * h + b] == x);
        }
    }    assert forall|o: int| 0 <= o <= n implies (#[trigger] d.holding(o)).no_duplicates() by {
        assert forall|a: int, b: int|
            0 <= a < d.holding(o).len() && 0 <= b < d.holding(o).len() && a != b implies d.holding(o)[a]
            != d.holding(o)[b] by {
            assert(d.holding(o)[a] == deck[o * h + a]);
            assert(d.holding(o)[b] == deck[o * h + b]);
        }
    }
    assert forall|o: int, j: int| 0 <= o <= n && 0 <= j < d.holding(o).len() implies deck.contains(
        #[trigger] d.holding(o)[j],
    ) by {
        assert(d.holding(o)[j] == deck[o * h + j]);
    }
}

/// A round played on a table ready for `k + 1` rounds leaves it ready for `k`, with one card
/// fewer in the kitty and in every hand.
pub proof fn lemma_round_keeps_ready(t: TableView, k: nat, max_card: u32)
    requires
        t.ready_for(k + 1, max_card),
    ensures
        t.after_round(max_card).ready_for(k, max_card),
        t.after_round(max_card).kitty.len() == t.kitty.len() - 1,
        t.after_round(max_card).players.len() == t.players.len(),
        forall|i: int|
            0 <= i < t.players.len() ==> (#[trigger] t.after_round(max_card).players[i]).hand.len()
                == t.players[i].hand.len() - 1,
{
    let prize = t.prize();
    let b = t.after_bids(max_card);
    let a = t.after_round(max_card);
    assert(prize <= max_card) by {
        assert(t.kitty[t.kitty.len() - 1] <= max_card);
    }
    assert forall|j: int| 0 <= j < a.kitty.len() implies #[trigger] a.kitty[j] <= max_card by {
        assert(a.kitty[j] == t.kitty[j]);
    }
    assert forall|i: int| 0 <= i < a.players.len() implies {
        &&& (#[trigger] a.players[i]).hand.len() >= k
        &&& a.players[i].strategy.is_automatic()
        &&& a.players[i].stats.total_for_game + k * max_card <= u32::MAX
        &&& a.players[i].stats.num_rounds_won + k <= u32::MAX
    } by {
        let p = t.players[i];
        lemma_bid_takes_one_card(p, prize, max_card);
        assert(b.players[i] == p.after_bid(prize, max_card));
        assert((k + 1) * max_card == k * max_card + max_card) by (nonlinear_arith);
    }
    assert forall|i: int| 0 <= i < t.players.len() implies (#[trigger] a.players[i]).hand.len()
        == t.players[i].hand.len() - 1 by {
        lemma_bid_takes_one_card(t.players[i], prize, max_card);
        assert(b.players[i] == t.players[i].after_bid(prize, max_card));
    }
}

/// Rounds change neither who sits at the table nor how many games each has won.
pub proof fn lemma_rounds_keep_players(t: TableView, max_card: u32, k: nat)
    ensures
        t.same_players(t.after_rounds(max_card, k)),
    decreases k,
{
    if k > 0 {
        lemma_rounds_keep_players(t, max_card, (k - 1) as nat);
        let u = t.after_rounds(max_card, (k - 1) as nat);
        assert forall|i: int| 0 <= i < t.players.len() implies {
            &&& (#[trigger] u.after_round(max_card).players[i]).name == t.players[i].name
            &&& u.after_round(max_card).players[i].strategy == t.players[i].strategy
            &&& u.after_round(max_card).players[i].stats.num_games_won == t.players[i].stats.num_games_won
        } by {
            assert(u.players[i].name == t.players[i].name);
        }
    }
}

/// When no two players share a name, a game is won by exactly one player: the first with the
/// highest total once the game's rounds are played gains one game, and every other player's
/// games won stay as they were.
pub proof fn lemma_game_credits_one_player(t: TableView, deck: Seq<u32>, h: nat, max_card: u32)
    requires
        t.names_distinct(),
        t.players.len() > 0,
        forall|i: int| 0 <= i < t.players.len() ==> (#[trigger] t.players[i]).stats.num_games_won < u32::MAX,
    ensures
        ({
            let w = first_max_index(totals_of(t.dealt(deck, h).after_rounds(max_card, h).players));
            let a = t.after_game(deck, h, max_card);
            &&& 0 <= w < t.players.len()
            &&& a.players.len() == t.players.len()
            &&& a.players[w].stats.num_games_won == t.players[w].stats.num_games_won + 1
            &&& forall|i: int|
                0 <= i < t.players.len() && i != w ==> (#[trigger] a.players[i]).stats.num_games_won
                    == t.players[i].stats.num_games_won
        }),
{
    let d = t.dealt(deck, h);
    let g = d.after_rounds(max_card, h);
    lemma_rounds_keep_players(d, max_card, h);
    assert forall|i: int| 0 <= i < t.players.len() implies (#[trigger] g.players[i]).name == t.players[i].name
        && g.players[i].stats.num_games_won == t.players[i].stats.num_games_won by {
        assert(d.players[i].name == t.players[i].name);
    }
    lemma_first_max_index(totals_of(g.players));
    let w = first_max_index(totals_of(g.players));
    assert(g.game_winner() == t.players[w].name);
}

} // verus!
