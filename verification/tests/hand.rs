use bridge_buddy::card::{Card, Denomination, Suit};
use bridge_buddy::hand::{Hand, HandType};

fn card(suit: Suit, denomination: Denomination) -> Card {
    Card { suit, denomination }
}

#[test]
fn test_hand_types() {
    let hand = Hand::new([
        card(Suit::Clubs, Denomination::Ace),
        card(Suit::Clubs, Denomination::King),
        card(Suit::Diamonds, Denomination::King),
        card(Suit::Diamonds, Denomination::Ace),
        card(Suit::Diamonds, Denomination::Queen),
        card(Suit::Hearts, Denomination::Queen),
        card(Suit::Hearts, Denomination::Jack),
        card(Suit::Hearts, Denomination::Ten),
        card(Suit::Spades, Denomination::Nine),
        card(Suit::Spades, Denomination::Eight),
        card(Suit::Spades, Denomination::Seven),
        card(Suit::Spades, Denomination::Six),
        card(Suit::Spades, Denomination::Two),
    ]);
    assert_eq!(hand.hand_type(), HandType::Balanced(Some(Suit::Spades)));
}

#[test]
fn test_methods() {
    let hand = Hand::new([
        card(Suit::Clubs, Denomination::Ace),
        card(Suit::Diamonds, Denomination::Ace),
        card(Suit::Diamonds, Denomination::King),
        card(Suit::Spades, Denomination::Ace),
        card(Suit::Spades, Denomination::King),
        card(Suit::Spades, Denomination::Queen),
        card(Suit::Spades, Denomination::Jack),
        card(Suit::Spades, Denomination::Ten),
        card(Suit::Spades, Denomination::Nine),
        card(Suit::Spades, Denomination::Eight),
        card(Suit::Spades, Denomination::Seven),
        card(Suit::Spades, Denomination::Six),
        card(Suit::Spades, Denomination::Two),
    ]);
    assert_eq!(hand.cards().iter().nth(1).unwrap(), &card(Suit::Diamonds, Denomination::King));
    assert_eq!(hand.cards_in(Suit::Spades).len(), 10);
    assert_eq!(hand.cards_in(Suit::Hearts).len(), 0);
    assert_eq!(hand.suit_lengths(), [10, 0, 2, 1]);
    assert!(!hand.contains(&card(Suit::Diamonds, Denomination::Queen)));
    assert!(hand.contains(&card(Suit::Diamonds, Denomination::Ace)));
    assert_eq!(hand.high_card_points(), 21);
    assert_eq!(hand.hand_type(), HandType::OneSuiter(Suit::Spades));
    assert_eq!(hand.to_string(), "♠: AKQJT98762\n♥: \n♦: AK\n♣: A\n");
    assert_eq!(hand, Hand::from_str("H:, ♠:9J7A2T6K8Q,♦: AK, C: A").unwrap())
}

#[test]
fn shapes_of_hands() {
    let three = Hand::from_str("S:AKJ2,H:Q432,D:5432,C:2").unwrap();
    assert_eq!(three.hand_type(), HandType::ThreeSuiter(Suit::Spades, Suit::Hearts, Suit::Diamonds));
    let two = Hand::from_str("S:AKJ32,H:Q432,D:54,C:32").unwrap();
    assert_eq!(two.hand_type(), HandType::TwoSuiter(Suit::Spades, Suit::Hearts));
    let balanced = Hand::from_str("S:AKJ2,H:Q43,D:543,C:432").unwrap();
    assert_eq!(balanced.hand_type(), HandType::Balanced(None));
    // ties are broken by the higher suit
    let tie = Hand::from_str("S:AKJ,H:Q43,D:5432,C:5432").unwrap();
    assert_eq!(tie.hand_type(), HandType::Balanced(None));
    let long = Hand::from_str("S:2,H:AKQJT98,D:54,C:432").unwrap();
    assert_eq!(long.hand_type(), HandType::OneSuiter(Suit::Hearts));
}

#[test]
fn hand_text_errors() {
    assert!(Hand::from_str("S AKQJT98765432").is_err());
    assert!(Hand::from_str("S:AKQJT98765432,").is_err());
    assert!(Hand::from_str("S:AKQJT9876543X").is_err());
    assert!(Hand::from_str("X:A,S:KQJT98765432").is_err());
    let ok = Hand::from_str("S:AKQJT98765432").unwrap();
    assert_eq!(ok.length_in(Suit::Spades), 13);
    assert_eq!(ok.cards_rev()[0], card(Suit::Spades, Denomination::Ace));
    assert_eq!(ok.cards_in_rev(Suit::Spades)[12], card(Suit::Spades, Denomination::Two));
    let lines = Hand::from_str("S: AK\nH: QJ\nD: T98\nC: 765432").unwrap();
    assert_eq!(lines.suit_lengths(), [2, 2, 3, 6]);
    assert_eq!(lines.high_card_points(), 10);
}
