use bridge_buddy::card::{Card, Denomination, Suit};
use bridge_buddy::deck::Deck;

#[test]
fn test_deck_creation() {
    let deck = Deck::new();
    assert_eq!(
        deck.cards().iter().nth(1).unwrap(),
        &Card {
            suit: Suit::Clubs,
            denomination: Denomination::Three
        }
    );
    assert_eq!(
        deck.cards().iter().nth(13).unwrap(),
        &Card {
            suit: Suit::Diamonds,
            denomination: Denomination::Two
        }
    );
    assert_eq!(
        deck.cards().iter().nth(17).unwrap(),
        &Card {
            suit: Suit::Diamonds,
            denomination: Denomination::Six
        }
    );
    assert_eq!(
        deck.cards().iter().nth(32).unwrap(),
        &Card {
            suit: Suit::Hearts,
            denomination: Denomination::Eight
        }
    );
    assert_eq!(
        deck.cards().iter().nth(48).unwrap(),
        &Card {
            suit: Suit::Spades,
            denomination: Denomination::Jack
        }
    );
}

#[test]
fn test_deck_shuffle() {
    let mut deck = Deck::new();
    deck.shuffle();
    assert_ne!(
        deck.cards().iter().nth(48).unwrap(),
        &Card {
            suit: Suit::Spades,
            denomination: Denomination::Jack // this fails randomly, consider adding a preseed to rng
        }
    );
}

#[test]
fn shuffling_keeps_the_cards() {
    let deck = Deck::new().shuffled();
    let mut cards = deck.cards().clone();
    assert_eq!(cards.len(), 52);
    cards.sort_unstable();
    assert_eq!(&cards, Deck::new().cards());
}
