use rand::seq::SliceRandom;
use vstd::prelude::*;

verus! {

/// The cards `1..=num_cards` in order.
pub open spec fn ordered_deck(num_cards: u32) -> Seq<u32> {
    Seq::new(num_cards as nat, |i: int| (i + 1) as u32)
}

/// Whether `deck` holds the cards `1..=num_cards`, each once, in any order.
pub open spec fn is_deck(deck: Seq<u32>, num_cards: u32) -> bool {
    deck.to_multiset() == ordered_deck(num_cards).to_multiset()
}

/// Relies on rand's `SliceRandom::shuffle` for slices, run with `thread_rng`: it swaps cards in
/// place (a Fisher-Yates pass), so the same cards come back in some order.
#[verifier::external_body]
fn shuffle_cards(cards: &mut Vec<u32>)
    ensures
        final(cards)@.to_multiset() == old(cards)@.to_multiset(),
{
    let mut rng = rand::thread_rng();
    cards.shuffle(&mut rng);
}

/// A deck of the cards `1..=num_cards` in random order.
pub fn build_deck(num_cards: u32) -> (deck: Vec<u32>)
    ensures
        is_deck(deck@, num_cards),
        deck@.len() == num_cards,
{
    let mut deck: Vec<u32> = Vec::new();
    let mut i: u32 = 0;
    while i < num_cards
        invariant
            i <= num_cards,
            deck@ == ordered_deck(i),
        decreases num_cards - i,
    {
        deck.push(i + 1);
        i = i + 1;
        assert(deck@ == ordered_deck(i));
    }
    let ghost before = deck@;
    shuffle_cards(&mut deck);
    proof {
        vstd::seq_lib::to_multiset_len(deck@);
        vstd::seq_lib::to_multiset_len(before);
    }
    deck
}

/// A deck holds each card at most once, and only cards from 1 to `num_cards`.
pub proof fn lemma_deck_cards(deck: Seq<u32>, num_cards: u32)
    requires
        is_deck(deck, num_cards),
    ensures
        deck.no_duplicates(),
        forall|i: int| 0 <= i < deck.len() ==> 1 <= #[trigger] deck[i] <= num_cards,
{
    let ordered = ordered_deck(num_cards);
    assert(ordered.no_duplicates());
    ordered.lemma_multiset_has_no_duplicates();
    deck.lemma_multiset_has_no_duplicates_conv();
    assert forall|i: int| 0 <= i < deck.len() implies 1 <= #[trigger] deck[i] <= num_cards by {
        vstd::seq_lib::to_multiset_contains(deck, deck[i]);
        vstd::seq_lib::to_multiset_contains(ordered, deck[i]);
        assert(deck.contains(deck[i]));
        let j = choose|j: int| 0 <= j < ordered.len() && ordered[j] == deck[i];
    }
}

/// The cards of `deck` from position `start` on, `len` of them.
pub(crate) fn chunk(deck: &Vec<u32>, start: usize, len: usize) -> (r: Vec<u32>)
    requires
        start + len <= deck@.len(),
    ensures
        r@ == deck@.subrange(start as int, start + len),
{
    let mut r: Vec<u32> = Vec::new();
    let n = deck.len();
    let mut i: usize = 0;
    while i < len
        invariant
            i <= len,
            n == deck@.len(),
            start + len <= deck@.len(),
            r@ == deck@.subrange(start as int, start + i),
        decreases len - i,
    {
        r.push(deck[start + i]);
        i = i + 1;
    }
    r
}

} // verus!
