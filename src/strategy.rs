use vstd::prelude::*;

verus! {

/// A sequence of card values held by a player or by the kitty.
#[derive(Debug)]
pub struct Hand {
    pub cards: Vec<u32>,
}

impl View for Hand {
    type V = Seq<u32>;

    open spec fn view(&self) -> Seq<u32> {
        self.cards@
    }
}

impl Hand {
    /// An empty hand.
    pub fn new() -> (h: Hand)
        ensures
            h@ == Seq::<u32>::empty(),
    {
        Hand { cards: Vec::new() }
    }
}

/// How a player picks the card it offers in a round.
#[derive(Clone, Copy, Debug, PartialEq, Eq, Structural)]
pub enum Strategy {
    /// The player types its pick at the console.
    Console,
    /// The highest card when the prize is worth more than half the deck's top card, else the lowest.
    HybridCard,
    /// The highest card.
    MaxCard,
    /// The lowest card.
    MinCard,
    /// The card nearest in value to the prize.
    NearestCard,
    /// The first card of the hand.
    NextCard,
}

/// How far apart two card values are.
pub open spec fn distance(a: u32, b: u32) -> u32 {
    if a >= b {
        (a - b) as u32
    } else {
        (b - a) as u32
    }
}

/// The highest value in `hand`.
pub open spec fn highest_in(hand: Seq<u32>) -> u32 {
    choose|m: u32| hand.contains(m) && forall|i: int| 0 <= i < hand.len() ==> hand[i] <= m
}

/// The lowest value in `hand`.
pub open spec fn lowest_in(hand: Seq<u32>) -> u32 {
    choose|m: u32| hand.contains(m) && forall|i: int| 0 <= i < hand.len() ==> m <= hand[i]
}

/// Scans a non-empty `hand` from the front for the card nearest to `prize_card`, a later card
/// replacing the best so far only when strictly nearer; gives that card and its distance.
pub open spec fn nearest_scan(prize_card: u32, hand: Seq<u32>) -> (u32, u32)
    decreases hand.len(),
{
    if hand.len() <= 1 {
        (hand[0], distance(hand[0], prize_card))
    } else {
        let best = nearest_scan(prize_card, hand.drop_last());
        let d = distance(hand.last(), prize_card);
        if d < best.1 {
            (hand.last(), d)
        } else {
            best
        }
    }
}

/// The scan of a non-empty hand finds the earliest card at the least distance from the prize.
pub proof fn lemma_nearest_scan(prize_card: u32, hand: Seq<u32>)
    requires
        hand.len() > 0,
    ensures
        ({
            let (c, d) = nearest_scan(prize_card, hand);
            exists|j: int|
                0 <= j < hand.len() && hand[j] == c && d == distance(hand[j], prize_card) && (forall|k: int|
                    0 <= k < hand.len() ==> d <= distance(#[trigger] hand[k], prize_card)) && (forall|k: int|
                    0 <= k < j ==> d < distance(#[trigger] hand[k], prize_card))
        }),
    decreases hand.len(),
{
    if hand.len() == 1 {
        assert(hand[0] == nearest_scan(prize_card, hand).0);
    } else {
        let t = hand.drop_last();
        lemma_nearest_scan(prize_card, t);
        assert forall|k: int| 0 <= k < t.len() implies #[trigger] hand[k] == t[k] by {}
        let (c, d) = nearest_scan(prize_card, t);
        let j = choose|j: int|
            0 <= j < t.len() && t[j] == c && d == distance(t[j], prize_card) && (forall|k: int|
                0 <= k < t.len() ==> d <= distance(#[trigger] t[k], prize_card)) && (forall|k: int|
                0 <= k < j ==> d < distance(#[trigger] t[k], prize_card));
        if distance(hand.last(), prize_card) >= d {
            assert(hand[j] == c);
        } else {
            assert(hand[hand.len() - 1] == hand.last());
        }
    }
}

/// A strategy that picks by itself offers a card of the (non-empty) hand.
pub proof fn lemma_choice_in_hand(strategy: Strategy, prize_card: u32, hand: Seq<u32>, highest_card: u32)
    requires
        hand.len() > 0,
        strategy.is_automatic(),
    ensures
        hand.contains(strategy.choice(prize_card, hand, highest_card)),
{
    lemma_extremes(hand);
    lemma_nearest_scan(prize_card, hand);
    assert(hand[0] == hand[0]);
}

/// The card that the nearest-card strategy offers.
pub open spec fn nearest_in(prize_card: u32, hand: Seq<u32>) -> u32 {
    nearest_scan(prize_card, hand).0
}

/// A non-empty hand holds its highest and its lowest card.
pub proof fn lemma_extremes(hand: Seq<u32>)
    requires
        hand.len() > 0,
    ensures
        hand.contains(highest_in(hand)),
        forall|i: int| 0 <= i < hand.len() ==> #[trigger] hand[i] <= highest_in(hand),
        hand.contains(lowest_in(hand)),
        forall|i: int| 0 <= i < hand.len() ==> lowest_in(hand) <= #[trigger] hand[i],
    decreases hand.len(),
{
    if hand.len() == 1 {
        assert(hand.contains(hand[0]) && forall|i: int| 0 <= i < hand.len() ==> #[trigger] hand[i] <= hand[0]);
        assert(hand.contains(hand[0]) && forall|i: int| 0 <= i < hand.len() ==> hand[0] <= #[trigger] hand[i]);
    } else {
        let t = hand.drop_last();
        lemma_extremes(t);
        assert forall|k: int| 0 <= k < t.len() implies #[trigger] hand[k] == t[k] by {}
        let hi = if hand.last() > highest_in(t) { hand.last() } else { highest_in(t) };
        let lo = if hand.last() < lowest_in(t) { hand.last() } else { lowest_in(t) };
        assert(hand[hand.len() - 1] == hand.last());
        assert(hand.contains(hi) && forall|i: int| 0 <= i < hand.len() ==> #[trigger] hand[i] <= hi);
        assert(hand.contains(lo) && forall|i: int| 0 <= i < hand.len() ==> lo <= #[trigger] hand[i]);
    }
}

/// The card that the hybrid strategy offers.
pub open spec fn hybrid_in(prize_card: u32, hand: Seq<u32>, highest_card: u32) -> u32 {
    if prize_card > highest_card / 2 {
        highest_in(hand)
    } else {
        lowest_in(hand)
    }
}

impl Strategy {
    /// Whether the strategy picks by itself, without asking anyone.
    pub open spec fn is_automatic(self) -> bool {
        self != Strategy::Console
    }

    /// Whether the strategy asks at the console.
    pub fn is_interactive(&self) -> (r: bool)
        ensures
            r == !self.is_automatic(),
    {
        match self {
            Strategy::Console => true,
            _ => false,
        }
    }

    /// The card that an automatic strategy offers from `hand` for `prize_card`, where
    /// `highest_card` is the deck's top card.
    pub open spec fn choice(self, prize_card: u32, hand: Seq<u32>, highest_card: u32) -> u32 {
        match self {
            Strategy::Console => arbitrary(),
            Strategy::HybridCard => hybrid_in(prize_card, hand, highest_card),
            Strategy::MaxCard => highest_in(hand),
            Strategy::MinCard => lowest_in(hand),
            Strategy::NearestCard => nearest_in(prize_card, hand),
            Strategy::NextCard => hand[0],
        }
    }

    /// Picks the card to offer from a non-empty `hand`; the hand itself is left as it is.
    pub fn select_card(&self, prize_card: u32, hand: &Hand, highest_card: u32) -> (r: u32)
        requires
            hand@.len() > 0,
            self.is_automatic(),
        ensures
            r == self.choice(prize_card, hand@, highest_card),
            hand@.contains(r),
    {
        proof {
            lemma_choice_in_hand(*self, prize_card, hand@, highest_card);
        }
        match self {
            Strategy::HybridCard => hybrid_card(prize_card, hand, highest_card),
            Strategy::MaxCard => max_card(prize_card, hand, highest_card),
            Strategy::MinCard => min_card(prize_card, hand, highest_card),
            Strategy::NearestCard => nearest_card(prize_card, hand, highest_card),
            Strategy::Console | Strategy::NextCard => next_card(prize_card, hand, highest_card),
        }
    }

    /// The strategy that `name` stands for; a name that stands for none gives `NextCard`.
    pub fn from_name(name: &str) -> (r: Strategy)
        ensures
            r == strategy_named(name@),
    {
        if same_text(name, "console") {
            Strategy::Console
        } else if same_text(name, "hybrid_card") {
            Strategy::HybridCard
        } else if same_text(name, "max_card") {
            Strategy::MaxCard
        } else if same_text(name, "min_card") {
            Strategy::MinCard
        } else if same_text(name, "nearest_card") {
            Strategy::NearestCard
        } else {
            Strategy::NextCard
        }
    }
}

/// The strategy that a name stands for, `NextCard` for a name that stands for none.
pub open spec fn strategy_named(name: Seq<char>) -> Strategy {
    if name == "console"@ {
        Strategy::Console
    } else if name == "hybrid_card"@ {
        Strategy::HybridCard
    } else if name == "max_card"@ {
        Strategy::MaxCard
    } else if name == "min_card"@ {
        Strategy::MinCard
    } else if name == "nearest_card"@ {
        Strategy::NearestCard
    } else {
        Strategy::NextCard
    }
}

/// Whether two texts are the same.
fn same_text(a: &str, b: &str) -> (r: bool)
    ensures
        r == (a@ == b@),
{
    String::from_str(a) == String::from_str(b)
}

/// The highest card of a non-empty hand.
pub fn max_card(_prize_card: u32, hand: &Hand, _highest_card: u32) -> (r: u32)
    requires
        hand@.len() > 0,
    ensures
        r == highest_in(hand@),
        hand@.contains(r),
        forall|i: int| 0 <= i < hand@.len() ==> hand@[i] <= r,
{
    let mut best: u32 = hand.cards[0];
    let mut i: usize = 1;
    while i < hand.cards.len()
        invariant
            1 <= i <= hand@.len(),
            hand@.contains(best),
            forall|k: int| 0 <= k < i ==> hand@[k] <= best,
        decreases hand@.len() - i,
    {
        if hand.cards[i] > best {
            best = hand.cards[i];
        }
        i = i + 1;
    }
    let ghost m = highest_in(hand@);
    assert(hand@.contains(m) && forall|k: int| 0 <= k < hand@.len() ==> hand@[k] <= m);
    best
}

/// The lowest card of a non-empty hand.
pub fn min_card(_prize_card: u32, hand: &Hand, _highest_card: u32) -> (r: u32)
    requires
        hand@.len() > 0,
    ensures
        r == lowest_in(hand@),
        hand@.contains(r),
        forall|i: int| 0 <= i < hand@.len() ==> r <= hand@[i],
{
    let mut best: u32 = hand.cards[0];
    let mut i: usize = 1;
    while i < hand.cards.len()
        invariant
            1 <= i <= hand@.len(),
            hand@.contains(best),
            forall|k: int| 0 <= k < i ==> best <= hand@[k],
        decreases hand@.len() - i,
    {
        if hand.cards[i] < best {
            best = hand.cards[i];
        }
        i = i + 1;
    }
    let ghost m = lowest_in(hand@);
    assert(hand@.contains(m) && forall|k: int| 0 <= k < hand@.len() ==> m <= hand@[k]);
    best
}

/// The first card of a non-empty hand.
pub fn next_card(_prize_card: u32, hand: &Hand, _highest_card: u32) -> (r: u32)
    requires
        hand@.len() > 0,
    ensures
        r == hand@[0],
{
    hand.cards[0]
}

/// The highest card when `prize_card` is worth more than half of `highest_card`, else the lowest.
pub fn hybrid_card(prize_card: u32, hand: &Hand, highest_card: u32) -> (r: u32)
    requires
        hand@.len() > 0,
    ensures
        r == hybrid_in(prize_card, hand@, highest_card),
{
    if prize_card > (highest_card / 2) {
        max_card(prize_card, hand, highest_card)
    } else {
        min_card(prize_card, hand, highest_card)
    }
}

/// The distance between two card values.
fn card_distance(a: u32, b: u32) -> (r: u32)
    ensures
        r == distance(a, b),
{
    if a >= b {
        a - b
    } else {
        b - a
    }
}

/// The card of a non-empty `hand` nearest to `prize_card`, the earliest one on a tie.
pub fn nearest_card(prize_card: u32, hand: &Hand, _highest_card: u32) -> (r: u32)
    requires
        hand@.len() > 0,
    ensures
        r == nearest_in(prize_card, hand@),
        exists|j: int|
            0 <= j < hand@.len() && r == hand@[j] && (forall|k: int|
                0 <= k < hand@.len() ==> distance(r, prize_card) <= distance(#[trigger] hand@[k], prize_card))
                && (forall|k: int| 0 <= k < j ==> distance(r, prize_card) < distance(#[trigger] hand@[k], prize_card)),
{
    proof {
        lemma_nearest_scan(prize_card, hand@);
    }
    let mut nearest: u32 = hand.cards[0];
    let mut nearest_distance: u32 = card_distance(nearest, prize_card);
    let mut i: usize = 1;
    assert(hand@.take(1) =~= seq![hand@[0]]);
    while i < hand.cards.len()
        invariant
            1 <= i <= hand@.len(),
            (nearest, nearest_distance) == nearest_scan(prize_card, hand@.take(i as int)),
        decreases hand@.len() - i,
    {
        let card = hand.cards[i];
        let this_distance = card_distance(card, prize_card);
        assert(hand@.take(i + 1).drop_last() == hand@.take(i as int));
        if this_distance < nearest_distance {
            nearest = card;
            nearest_distance = this_distance;
        }
        i = i + 1;
    }
    assert(hand@.take(i as int) == hand@);
    nearest
}

impl Hand {
    /// Whether `card` is in the hand.
    pub fn holds(&self, card: u32) -> (r: bool)
        ensures
            r == self@.contains(card),
    {
        let mut i: usize = 0;
        while i < self.cards.len()
            invariant
                i <= self@.len(),
                forall|k: int| 0 <= k < i ==> self@[k] != card,
            decreases self@.len() - i,
        {
            if self.cards[i] == card {
                return true;
            }
            i = i + 1;
        }
        false
    }
}

/// Whether `c` is white space in Unicode's sense (the property `White_Space`).
pub open spec fn is_white_space(c: char) -> bool {
    ('\u{9}' <= c && c <= '\u{d}') || c == ' ' || c == '\u{85}' || c == '\u{a0}' || c == '\u{1680}'
        || ('\u{2000}' <= c && c <= '\u{200a}') || c == '\u{2028}' || c == '\u{2029}'
        || c == '\u{202f}' || c == '\u{205f}' || c == '\u{3000}'
}

/// `s` without its leading white space.
pub open spec fn trim_front(s: Seq<char>) -> Seq<char>
    decreases s.len(),
{
    if s.len() > 0 && is_white_space(s[0]) {
        trim_front(s.drop_first())
    } else {
        s
    }
}

/// `s` without its trailing white space.
pub open spec fn trim_back(s: Seq<char>) -> Seq<char>
    decreases s.len(),
{
    if s.len() > 0 && is_white_space(s.last()) {
        trim_back(s.drop_last())
    } else {
        s
    }
}

/// `s` without white space at either end.
pub open spec fn trimmed(s: Seq<char>) -> Seq<char> {
    trim_back(trim_front(s))
}

/// Whether every character of `s` is an ASCII decimal digit.
pub open spec fn all_digits(s: Seq<char>) -> bool {
    forall|i: int| 0 <= i < s.len() ==> '0' <= #[trigger] s[i] && s[i] <= '9'
}

/// The number that the decimal digits `s` write.
pub open spec fn digits_value(s: Seq<char>) -> int
    decreases s.len(),
{
    if s.len() == 0 {
        0
    } else {
        digits_value(s.drop_last()) * 10 + (s.last() as int - '0' as int)
    }
}

/// The unsigned 32-bit number that `s` writes in decimal, with an optional leading `+`;
/// `None` when `s` writes no such number.
pub open spec fn decimal_value(s: Seq<char>) -> Option<u32> {
    let digits = if s.len() > 0 && s[0] == '+' {
        s.drop_first()
    } else {
        s
    };
    if digits.len() > 0 && all_digits(digits) && digits_value(digits) <= u32::MAX {
        Some(digits_value(digits) as u32)
    } else {
        None
    }
}

/// Relies on `str::trim`: the text without the leading and trailing characters that have
/// Unicode's `White_Space` property.
#[verifier::external_body]
fn trim_text(s: &str) -> (r: &str)
    ensures
        r@ == trimmed(s@),
{
    s.trim()
}

/// Relies on `u32::from_str`, which `str::parse` calls: an optional `+` followed by one or more
/// decimal digits whose value fits in a `u32` gives that value; any other text is an error.
#[verifier::external_body]
fn parse_u32(s: &str) -> (r: Option<u32>)
    ensures
        r == decimal_value(s@),
{
    s.parse::<u32>().ok()
}

/// The number typed in `pick`, white space around it ignored; `None` when it is not a number.
pub fn parse_pick(pick: &str) -> (r: Option<u32>)
    ensures
        r == decimal_value(trimmed(pick@)),
{
    parse_u32(trim_text(pick))
}

/// Checks a typed pick against `hand`: the number when the hand holds it, `None` when not.
/// The pick must be a number (see `parse_pick`).
pub fn validate_pick(pick: &str, hand: &Hand) -> (r: Option<u32>)
    requires
        decimal_value(trimmed(pick@)) is Some,
    ensures
        r == (if hand@.contains(decimal_value(trimmed(pick@))->0) {
            decimal_value(trimmed(pick@))
        } else {
            None
        }),
{
    let guess = parse_pick(pick).unwrap();
    if hand.holds(guess) {
        Some(guess)
    } else {
        None
    }
}

} // verus!
