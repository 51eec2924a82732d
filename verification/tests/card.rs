use bridge_buddy::card::{Card, Denomination, Suit};

#[test]
fn test_comparisons() {
    assert_eq!(
        Card {
            denomination: Denomination::Two,
            suit: Suit::Spades
        },
        Card {
            denomination: Denomination::Two,
            suit: Suit::Spades
        }
    );
    assert_ne!(
        Card {
            denomination: Denomination::Two,
            suit: Suit::Diamonds
        },
        Card {
            denomination: Denomination::Two,
            suit: Suit::Spades
        }
    );
    assert!(Suit::Clubs < Suit::Diamonds);
    assert!(Denomination::King < Denomination::Ace);
}

#[test]
fn test_card_display() {
    let nine_of_clubs = Card {
        denomination: Denomination::Nine,
        suit: Suit::Clubs,
    };
    assert_eq!(nine_of_clubs.to_string(), "♣9");

    let five_of_diamonds = Card {
        denomination: Denomination::Five,
        suit: Suit::Diamonds,
    };
    assert_eq!(five_of_diamonds.to_string(), "♦5");

    let queen_of_hearts = Card {
        denomination: Denomination::Queen,
        suit: Suit::Hearts,
    };
    assert_eq!(queen_of_hearts.to_string(), "♥Q");

    let ace_of_spades = Card {
        denomination: Denomination::Ace,
        suit: Suit::Spades,
    };
    assert_eq!(ace_of_spades.to_string(), "♠A");
}

#[test]
fn denomination_characters_read_back() {
    let all = [
        Denomination::Two,
        Denomination::Three,
        Denomination::Four,
        Denomination::Five,
        Denomination::Six,
        Denomination::Seven,
        Denomination::Eight,
        Denomination::Nine,
        Denomination::Ten,
        Denomination::Jack,
        Denomination::Queen,
        Denomination::King,
        Denomination::Ace,
    ];
    for (i, d) in all.iter().enumerate() {
        assert_eq!(Denomination::from_char(&d.to_char()), Ok(*d));
        assert_eq!(d.index() as usize, i);
        assert_eq!(Denomination::from_index(i as u8), *d);
    }
    assert_eq!(Denomination::from_char(&'X'), Err(()));
    assert_eq!(Denomination::from_char(&'1'), Err(()));
}

#[test]
fn suit_characters_read_back() {
    assert_eq!(Suit::from_char(&'S'), Ok(Suit::Spades));
    assert_eq!(Suit::from_char(&'♠'), Ok(Suit::Spades));
    assert_eq!(Suit::from_char(&'♥'), Ok(Suit::Hearts));
    assert_eq!(Suit::from_char(&'D'), Ok(Suit::Diamonds));
    assert_eq!(Suit::from_char(&'♣'), Ok(Suit::Clubs));
    assert_eq!(Suit::from_char(&'x'), Err(()));
    assert_eq!(Suit::Hearts.to_string(), "♥");
}

#[test]
fn card_from_text() {
    assert_eq!(
        Card::from_str("9C"),
        Ok(Card {
            denomination: Denomination::Nine,
            suit: Suit::Clubs
        })
    );
    assert_eq!(
        Card::from_str("AS"),
        Ok(Card {
            denomination: Denomination::Ace,
            suit: Suit::Spades
        })
    );
    // a suit symbol takes more than one byte, so the text is not two bytes long
    assert_eq!(Card::from_str("A♠"), Err(()));
    assert_eq!(Card::from_str("C9"), Err(()));
    assert_eq!(Card::from_str("AX"), Err(()));
    assert_eq!(Card::from_str("ASK"), Err(()));
    assert_eq!(Card::from_str(""), Err(()));
    assert_eq!(
        Card {
            denomination: Denomination::Ten,
            suit: Suit::Hearts
        }
        .index(),
        2 * 13 + 8
    );
}

#[test]
fn card_from_single_two_byte_character() {
    // two bytes, but one character
    assert_eq!(Card::from_str("é"), Err(()));
    assert_eq!(Card::from_str("§"), Err(()));
}
