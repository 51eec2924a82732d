use bridge_buddy::card::{Card, Denomination, Suit};
use bridge_buddy::webapp::{App, Msg};

fn card(suit: Suit, denomination: Denomination) -> Card {
    Card { suit, denomination }
}

#[test]
fn switching_cards_keeps_them_highest_first() {
    let mut app = App::create();
    assert!(app.update(Msg::Switch(card(Suit::Hearts, Denomination::Two))));
    app.update(Msg::Switch(card(Suit::Spades, Denomination::Ace)));
    app.update(Msg::Switch(card(Suit::Clubs, Denomination::King)));
    app.update(Msg::Switch(card(Suit::Hearts, Denomination::Queen)));
    assert_eq!(
        app.card_vec(),
        &vec![
            card(Suit::Spades, Denomination::Ace),
            card(Suit::Hearts, Denomination::Queen),
            card(Suit::Hearts, Denomination::Two),
            card(Suit::Clubs, Denomination::King),
        ]
    );
    app.update(Msg::Switch(card(Suit::Hearts, Denomination::Queen)));
    assert_eq!(
        app.card_vec(),
        &vec![
            card(Suit::Spades, Denomination::Ace),
            card(Suit::Hearts, Denomination::Two),
            card(Suit::Clubs, Denomination::King),
        ]
    );
    assert!(!app.hand_is_valid());
    assert!(app.hand().is_none());
}

#[test]
fn thirteen_cards_make_a_hand() {
    let mut app = App::create();
    for i in 0..13 {
        app.update(Msg::Switch(card(Suit::Diamonds, Denomination::from_index(i))));
        assert_eq!(app.hand_is_valid(), i == 12);
    }
    app.update(Msg::Switch(card(Suit::Spades, Denomination::Ace)));
    assert!(!app.hand_is_valid());
    app.update(Msg::Switch(card(Suit::Diamonds, Denomination::Two)));
    assert!(app.hand_is_valid());
    assert!(app.update(Msg::CreateHand));
    let hand = app.hand().unwrap();
    assert!(hand.contains(&card(Suit::Spades, Denomination::Ace)));
    assert!(!hand.contains(&card(Suit::Diamonds, Denomination::Two)));
    assert_eq!(hand.length_in(Suit::Diamonds), 12);
    assert_eq!(hand.high_card_points(), 4 + 4 + 3 + 2 + 1);
}
