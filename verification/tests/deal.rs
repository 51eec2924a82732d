use bridge_buddy::card::{Card, Denomination, Suit};
use bridge_buddy::deal::{Deal, PlayerPosition, Vulnerable};

#[test]
fn test_vulnerability() {
    // Pattern follows the "BONE"-chart
    assert_eq!(Deal::calculate_vulnerability(1), Vulnerable::Neither);
    assert_eq!(Deal::calculate_vulnerability(2), Vulnerable::NorthSouth);
    assert_eq!(Deal::calculate_vulnerability(3), Vulnerable::EastWest);
    assert_eq!(Deal::calculate_vulnerability(4), Vulnerable::All);

    assert_eq!(Deal::calculate_vulnerability(5), Vulnerable::NorthSouth);
    assert_eq!(Deal::calculate_vulnerability(6), Vulnerable::EastWest);
    assert_eq!(Deal::calculate_vulnerability(7), Vulnerable::All);
    assert_eq!(Deal::calculate_vulnerability(8), Vulnerable::Neither);

    assert_eq!(Deal::calculate_vulnerability(9), Vulnerable::EastWest);
    assert_eq!(Deal::calculate_vulnerability(10), Vulnerable::All);
    assert_eq!(Deal::calculate_vulnerability(11), Vulnerable::Neither);
    assert_eq!(Deal::calculate_vulnerability(12), Vulnerable::NorthSouth);

    assert_eq!(Deal::calculate_vulnerability(13), Vulnerable::All);
    assert_eq!(Deal::calculate_vulnerability(14), Vulnerable::Neither);
    assert_eq!(Deal::calculate_vulnerability(15), Vulnerable::NorthSouth);
    assert_eq!(Deal::calculate_vulnerability(16), Vulnerable::EastWest);
    // Pattern repeats after 16 hands
    assert_eq!(Deal::calculate_vulnerability(17), Vulnerable::Neither);
    assert_eq!(Deal::calculate_vulnerability(18), Vulnerable::NorthSouth);
}

#[test]
fn test_deck_integrity() {
    let deal = Deal::new();
    let mut cards: Vec<Card> = Vec::with_capacity(52);

    for hand in deal.hands().iter() {
        for card in hand.cards() {
            cards.push(card)
        }
    }

    cards.sort_unstable();

    assert_eq!(
        cards.iter().nth(1).unwrap(),
        &Card {
            suit: Suit::Clubs,
            denomination: Denomination::Three
        }
    );
    assert_eq!(
        cards.iter().nth(13).unwrap(),
        &Card {
            suit: Suit::Diamonds,
            denomination: Denomination::Two
        }
    );
    assert_eq!(
        cards.iter().nth(17).unwrap(),
        &Card {
            suit: Suit::Diamonds,
            denomination: Denomination::Six
        }
    );
    assert_eq!(
        cards.iter().nth(32).unwrap(),
        &Card {
            suit: Suit::Hearts,
            denomination: Denomination::Eight
        }
    );
    assert_eq!(
        cards.iter().nth(48).unwrap(),
        &Card {
            suit: Suit::Spades,
            denomination: Denomination::Jack
        }
    );
}

#[test]
fn vulnerability_repeats_every_sixteen_boards() {
    for n in 1u8..=189 {
        assert_eq!(Deal::calculate_vulnerability(n), Deal::calculate_vulnerability(n + 16));
    }
}

#[test]
fn deal_from_number_keeps_the_number_and_deals_every_card_once() {
    let deal = Deal::new_from_number(7);
    assert_eq!(deal.deal_number(), 7);
    assert_eq!(deal.vulnerable(), Vulnerable::All);
    let mut seen = [false; 52];
    for position in [
        PlayerPosition::North,
        PlayerPosition::East,
        PlayerPosition::South,
        PlayerPosition::West,
    ] {
        let hand = deal.hand_of(position);
        for card in hand.cards() {
            let i = card.index() as usize;
            assert!(!seen[i]);
            seen[i] = true;
        }
    }
    assert!(seen.iter().all(|s| *s));
    let random = Deal::new();
    assert!(1 <= random.deal_number() && random.deal_number() <= 32);
}

#[test]
fn seats_turn_clockwise() {
    assert_eq!(PlayerPosition::North.after(1), PlayerPosition::East);
    assert_eq!(PlayerPosition::West.after(1), PlayerPosition::North);
    assert_eq!(PlayerPosition::East.partner(), PlayerPosition::West);
    assert!(PlayerPosition::South.same_axis(&PlayerPosition::North));
    assert!(!PlayerPosition::South.same_axis(&PlayerPosition::West));
}

#[test]
fn dealing_out_an_ordered_deck() {
    let deck = bridge_buddy::deck::Deck::new();
    let deal = Deal::deal_out(3, deck.cards());
    assert_eq!(deal.hand_of(PlayerPosition::North).length_in(Suit::Spades), 13);
    assert_eq!(deal.hand_of(PlayerPosition::East).length_in(Suit::Hearts), 13);
    assert_eq!(deal.hand_of(PlayerPosition::South).length_in(Suit::Diamonds), 13);
    assert_eq!(deal.hand_of(PlayerPosition::West).length_in(Suit::Clubs), 13);
    assert_eq!(deal.deal_number(), 3);
    assert_eq!(deal.vulnerable(), Vulnerable::EastWest);
    assert!(deal.hand_of(PlayerPosition::West).contains(&Card { suit: Suit::Clubs, denomination: Denomination::Two }));
}
