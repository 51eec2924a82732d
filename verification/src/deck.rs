//! A deck of the 52 cards, and shuffling it.
use crate::card::{lemma_card_order_injective, Card, Denomination, Suit};
use rand::seq::SliceRandom;
use vstd::prelude::*;

verus! {

/// A deck of cards.
#[derive(Debug)]
pub struct Deck {
    cards: Vec<Card>,
}

/// The 52 cards in order: Clubs Two to Ace, then Diamonds, Hearts and Spades.
pub open spec fn ordered_deck(s: Seq<Card>) -> bool {
    &&& s.len() == 52
    &&& forall|i: int| 0 <= i < 52 ==> (#[trigger] s[i]).order() == i
}

/// An ordered deck holds every card exactly once.
pub proof fn lemma_ordered_deck_holds_each_card_once(s: Seq<Card>)
    requires
        ordered_deck(s),
    ensures
        s.no_duplicates(),
        forall|c: Card| #[trigger] s.contains(c),
        forall|c: Card| s[c.order()] == c,
{
    assert forall|c: Card| s[c.order()] == c by {
        lemma_card_order_injective(c, s[c.order()]);
    }
    assert forall|c: Card| #[trigger] s.contains(c) by {
        assert(s[c.order()] == c);
    }
    assert forall|i: int, j: int| 0 <= i < s.len() && 0 <= j < s.len() && i != j implies s[i]
        != s[j] by {
        assert(s[i].order() == i);
        assert(s[j].order() == j);
    }
}

/// Shuffles the cards at random (rand's `SliceRandom::shuffle` on the thread's generator).
/// The contract states only that the result is a permutation of the cards, which holds of
/// every outcome; which permutation comes out depends on chance.
#[verifier::external_body]
pub(crate) fn shuffle_cards(cards: &mut Vec<Card>)
    ensures
        final(cards)@.to_multiset() == old(cards)@.to_multiset(),
{
    let mut rng = rand::thread_rng();
    cards.shuffle(&mut rng);
}

/// The 52 cards in order: suit by suit from Clubs to Spades, each from Two to Ace.
pub fn ordered_cards() -> (cards: Vec<Card>)
    ensures
        ordered_deck(cards@),
{
    let suits = [Suit::Clubs, Suit::Diamonds, Suit::Hearts, Suit::Spades];
    let mut cards: Vec<Card> = Vec::new();
    let mut s: usize = 0;
    while s < 4
        invariant
            0 <= s <= 4,
            suits@ == seq![Suit::Clubs, Suit::Diamonds, Suit::Hearts, Suit::Spades],
            cards@.len() == 13 * s,
            forall|i: int| 0 <= i < cards@.len() ==> (#[trigger] cards@[i]).order() == i,
        decreases 4 - s,
    {
        let suit = suits[s];
        assert(suit.rank() == s);
        let mut d: u8 = 0;
        while d < 13
            invariant
                0 <= d <= 13,
                s < 4,
                suit.rank() == s,
                cards@.len() == 13 * s + d,
                forall|i: int| 0 <= i < cards@.len() ==> (#[trigger] cards@[i]).order() == i,
            decreases 13 - d,
        {
            let denomination = Denomination::from_index(d);
            cards.push(Card { suit, denomination });
            d = d + 1;
        }
        s = s + 1;
    }
    cards
}

impl Deck {
    /// The cards of the deck, from top to bottom.
    pub closed spec fn view(&self) -> Seq<Card> {
        self.cards@
    }

    /// A new deck holding the 52 cards in order: Clubs Two to Ace, then Diamonds,
    /// Hearts and Spades.
    pub fn new() -> (deck: Self)
        ensures
            ordered_deck(deck@),
    {
        Deck { cards: ordered_cards() }
    }

    /// Shuffles the deck at random: its cards are permuted.
    pub fn shuffle(&mut self)
        ensures
            final(self)@.to_multiset() == old(self)@.to_multiset(),
    {
        shuffle_cards(&mut self.cards);
    }

    /// The deck, shuffled at random.
    pub fn shuffled(self) -> (deck: Self)
        ensures
            deck@.to_multiset() == self@.to_multiset(),
    {
        let mut deck = self;
        deck.shuffle();
        deck
    }

    /// The cards of the deck, from top to bottom.
    pub fn cards(&self) -> (v: &Vec<Card>)
        ensures
            v@ == self@,
    {
        &self.cards
    }
}

} // verus!
