use bridge_buddy::card::Suit;
use bridge_buddy::evaluator::{ForumDPlus2015Evaluator as E, SuitQuality};
use bridge_buddy::hand::Hand;

fn hand(s: &str) -> Hand {
    Hand::from_str(s).unwrap()
}

#[test]
fn high_card_points_of_boards() {
    let cases = [
        ("S:T93,H:AKQ5,D:QJ,C:T542", 12),
        ("S:Q764,H:8,D:AT753,C:AKQ", 15),
        ("S:8,H:JT762,D:K64,C:J963", 5),
        ("S:AKJ52,H:943,D:982,C:87", 8),
        ("S:963,H:T97,D:KT42,C:AJT", 8),
        ("S:AQT74,H:Q43,D:A85,C:86", 12),
        ("S:8,H:A86,D:QJ963,C:Q952", 9),
        ("S:KJ52,H:KJ52,D:7,C:K743", 11),
        ("S:K653,H:KJ7,D:AKQ5,C:53", 16),
        ("S:AQ7,H:9532,D:74,C:KJ74", 10),
        ("S:JT2,H:A4,D:T92,C:AQT62", 11),
        ("S:984,H:QT86,D:J863,C:98", 3),
    ];
    for (text, hcp) in cases {
        assert_eq!(E::hcp(&hand(text)), hcp);
    }
}

#[test]
fn high_card_points_in_suits() {
    let cases = [
        ("S:T93,H:AKQ5,D:QJ,C:T542", Suit::Hearts, 9),
        ("S:Q764,H:8,D:AT753,C:AKQ", Suit::Hearts, 0),
        ("S:8,H:JT762,D:K64,C:J963", Suit::Clubs, 1),
        ("S:963,H:T97,D:KT42,C:AJT", Suit::Clubs, 5),
        ("S:AQT74,H:Q43,D:A85,C:86", Suit::Spades, 6),
        ("S:JT2,H:A4,D:T92,C:AQT62", Suit::Hearts, 4),
    ];
    for (text, suit, hcp) in cases {
        assert_eq!(E::hcp_in(&hand(text), suit), hcp);
    }
}

#[test]
fn suit_qualities() {
    let cases = [
        ("S:T93,H:AKQ5,D:QJ,C:T542", Suit::Hearts, SuitQuality::VeryGood),
        ("S:Q764,H:8,D:AT753,C:AKQ", Suit::Diamonds, SuitQuality::Acceptable),
        ("S:8,H:JT762,D:K64,C:J963", Suit::Hearts, SuitQuality::Weak),
        ("S:AKQJ96,H:T,D:A,C:Q9763", Suit::Spades, SuitQuality::Standing),
        ("S:43,H:543,D:T63,C:AKJT5", Suit::Clubs, SuitQuality::AlmostStanding),
        ("S:AQT74,H:Q43,D:A85,C:86", Suit::Spades, SuitQuality::Good),
        ("S:8,H:A86,D:QJ963,C:Q952", Suit::Diamonds, SuitQuality::Acceptable),
        ("S:KJ52,H:KJ52,D:7,C:K743", Suit::Spades, SuitQuality::Good),
        ("S:K653,H:KJ7,D:AKQ5,C:53", Suit::Diamonds, SuitQuality::VeryGood),
        ("S:AQ7,H:9532,D:74,C:KJ74", Suit::Diamonds, SuitQuality::Weak),
        ("S:JT2,H:A4,D:T92,C:AQT62", Suit::Hearts, SuitQuality::Acceptable),
        ("S:984,H:QT86,D:J863,C:98", Suit::Clubs, SuitQuality::Weak),
    ];
    for (text, suit, quality) in cases {
        assert_eq!(E::suit_quality(&hand(text), suit), quality);
    }
}

#[test]
fn aces_and_tens_in_half_points() {
    let cases = [
        ("S:T93,H:AKQ5,D:QJ,C:T542", 0),
        ("S:Q764,H:8,D:AT753,C:AKQ", 0),
        ("S:8,H:JT762,D:K64,C:J963", -1),
        ("S:AKJ52,H:943,D:982,C:87", -1),
        ("S:963,H:T97,D:KT42,C:AJT", 2),
        ("S:AQT74,H:Q43,D:A85,C:86", 0),
        ("S:8,H:A86,D:QJ963,C:Q952", -1),
        ("S:KJ52,H:KJ52,D:7,C:K743", -2),
        ("S:K653,H:KJ7,D:AKQ5,C:53", -1),
        ("S:AQ7,H:9532,D:74,C:KJ74", -1),
        ("S:JT2,H:A4,D:T92,C:AQT62", 2),
        ("S:984,H:QT86,D:J863,C:98", -1),
    ];
    for (text, halves) in cases {
        assert_eq!(E::adjustment_aces_and_tens_halves(&hand(text)), halves);
    }
}

#[test]
fn unguarded_honors() {
    let cases = [
        ("S:T93,H:AKQ5,D:QJ,C:T542", -1),
        ("S:Q764,H:8,D:AT753,C:AKQ", 0),
        ("S:A,H:JT762,D:K64,C:J963", -1),
        ("S:AKJ52,H:943,D:982,C:QJ", -1),
        ("S:963,H:T97,D:KT42,C:AJT", 0),
        ("S:AQT74,H:Q43,D:A85,C:AT", 0),
        ("S:J,H:A86,D:QJ963,C:Q952", -1),
        ("S:KJ52,H:KJ52,D:K,C:K743", -1),
        ("S:K653,H:KJ7,D:AKQ5,C:J3", 0),
        ("S:AQ7,H:9532,D:K4,C:KJ74", 0),
        ("S:JT2,H:AQ,D:T92,C:AQT62", -1),
        ("S:984,H:QT86,D:J863,C:AK", -1),
    ];
    for (text, adjustment) in cases {
        assert_eq!(E::adjustment_unguarded_honors(&hand(text)), adjustment);
    }
}

#[test]
fn length_and_distribution_points() {
    let h = hand("S:Q764,H:8,D:AT753,C:AKQ");
    assert_eq!(E::length_points(&h, Some(Suit::Spades), &[Suit::Hearts, Suit::Clubs]), 1);
    assert_eq!(E::length_points(&h, Some(Suit::Spades), &[Suit::Diamonds]), 0);
    assert_eq!(E::length_points(&hand("S:984,H:QT86,D:J863,C:AK"), None, &[Suit::Hearts]), 0);
    assert_eq!(E::length_points(&hand("S:AKJ9532,H:9,D:982,C:87"), Some(Suit::Diamonds), &[]), 3);

    assert_eq!(E::side_suit_distribution_points(&h, Suit::Spades), 2);
    assert_eq!(E::side_suit_distribution_points(&hand("S:Q764,H:,D:AT8753,C:AKQ"), Suit::Spades), 3);
    assert_eq!(E::side_suit_distribution_points(&hand("S:984,H:QT86,D:J863,C:AK"), Suit::Hearts), 1);
    assert_eq!(E::side_suit_distribution_points(&hand("S:AK52,H:943,D:982,C:872"), Suit::Spades), 0);

    assert_eq!(E::trump_distribution_points(&h, Suit::Spades, 4, 4), 0);
    assert_eq!(E::trump_distribution_points(&hand("S:Q764,H:,D:AT8753,C:AKQ"), Suit::Spades, 5, 4), 0);
    assert_eq!(E::trump_distribution_points(&hand("S:984,H:QT86,D:J863,C:AK"), Suit::Hearts, 5, 3), 2);
    assert_eq!(E::trump_distribution_points(&hand("S:AK582,H:93,D:982,C:872"), Suit::Spades, 5, 4), 1);
}

#[test]
fn losing_trick_counts_in_half_losers() {
    assert_eq!(E::losing_trick_count_halves(&hand("S:Q764,H:8,D:AT753,C:AKQ")), 12);
    assert_eq!(E::losing_trick_count_halves(&hand("S:AK582,H:93,D:982,C:872")), 19);
    assert_eq!(E::losing_trick_count_halves(&hand("S:984,H:QT86,D:J863,C:AK")), 17);
    assert_eq!(E::losing_trick_count_halves(&hand("S:AJT9874,H:QT8,D:J3,C:K")), 14);
}

#[test]
fn playing_trick_counts_in_half_tricks() {
    // AKQJ: 4 cards, 4 - 3.5 + 3 = 3.5; xx: 0; x: 0; Kxxxxx: 6 - 3.5 + 0.5 = 3
    assert_eq!(E::playing_trick_count_halves(&hand("S:AKQJ,H:32,D:2,C:K65432")), 13);
    // 13 cards in one suit
    assert_eq!(E::playing_trick_count_halves(&hand("S:AKQJT98765432")), 26);
}

#[test]
fn controls_and_honors() {
    assert!(E::first_round_control_in(&hand("S:AKQJ976,H:,D:A,C:Q9763"), Suit::Hearts, Some(Suit::Spades)));
    assert!(E::first_round_control_in(&hand("S:AKQJ976,H:,D:A,C:Q9763"), Suit::Diamonds, None));
    assert!(!E::first_round_control_in(&hand("S:AKQJ96,H:T,D:A,C:Q9763"), Suit::Hearts, Some(Suit::Spades)));
    assert!(!E::second_round_control_in(&hand("S:AKQJ96,H:T,D:A,C:Q9763"), Suit::Diamonds, None));
    assert!(E::second_round_control_in(&hand("S:AKQJ6,H:KT,D:A,C:Q9763"), Suit::Hearts, None));
    assert!(E::second_round_control_in(&hand("S:AKQJ96,H:T,D:A,C:Q9763"), Suit::Hearts, Some(Suit::Spades)));
    assert!(E::honor_in(&hand("S:AKQJ96,H:T,D:A,C:Q9763"), Suit::Diamonds));
    assert!(E::honor_in(&hand("S:AKQJ6,H:KT,D:A,C:Q9763"), Suit::Hearts));
    assert!(!E::honor_in(&hand("S:AKQJ96,H:9,D:A,C:Q9763"), Suit::Hearts));
}

#[test]
fn stoppers_in_half_stoppers() {
    assert_eq!(E::stoppers_in_halves(&hand("S:AKQJ96,H:T,D:A,C:Q9763"), Suit::Diamonds), 2);
    assert_eq!(E::stoppers_in_halves(&hand("S:AKQJ6,H:KT,D:A,C:Q9763"), Suit::Spades), 8);
    assert_eq!(E::stoppers_in_halves(&hand("S:AK96,H:96,D:AQ,C:QJT63"), Suit::Spades), 4);
    assert_eq!(E::stoppers_in_halves(&hand("S:AK96,H:96,D:AQ,C:QJT63"), Suit::Hearts), 0);
    assert_eq!(E::stoppers_in_halves(&hand("S:AK96,H:6,D:AQ8,C:QJT63"), Suit::Diamonds), 3);
    assert_eq!(E::stoppers_in_halves(&hand("S:AK96,H:96,D:AQ,C:QJT63"), Suit::Clubs), 2);
}

#[test]
fn rules_of_twenty_and_fifteen() {
    assert!(E::rule_of_twenty(&hand("S:AKT96,H:QT96,D:Q9,C:63")));
    assert!(!E::rule_of_twenty(&hand("S:AQT96,H:QT96,D:Q9,C:63")));
    assert!(!E::rule_of_twenty(&hand("S:AKT96,H:QT9,D:Q97,C:63")));
    assert!(E::rule_of_fifteen(&hand("S:AKT96,H:QT96,D:J9,C:63")));
    assert!(!E::rule_of_fifteen(&hand("S:AKT9,H:QT96,D:JT9,C:63")));
    assert!(!E::rule_of_fifteen(&hand("S:AKT96,H:JT96,D:J9,C:63")));
}

#[test]
fn points_are_the_sum_of_the_suits() {
    for text in ["S:T93,H:AKQ5,D:QJ,C:T542", "S:KJ52,H:KJ52,D:7,C:K743", "S:AKQJT98762,H:,D:AK,C:A"] {
        let h = hand(text);
        let by_suit = E::hcp_in(&h, Suit::Clubs)
            + E::hcp_in(&h, Suit::Diamonds)
            + E::hcp_in(&h, Suit::Hearts)
            + E::hcp_in(&h, Suit::Spades);
        assert_eq!(E::hcp(&h), by_suit);
    }
}
