use bridge_buddy::card::{Card, Denomination, Suit};
use bridge_buddy::dds::card_tracker::CardTracker;
use bridge_buddy::dds::dds_config::DdsConfig;
use bridge_buddy::dds::dds_statistics::DdsStatistics;
use bridge_buddy::dds::distribution_field::{DistFieldManager, DistributionField};
use bridge_buddy::dds::double_dummy_result::{DoubleDummyResult, Strain};
use bridge_buddy::dds::suit_field::SuitField;
use bridge_buddy::dds::transposition_table::{TTKey, TTValue, TranspositionTable};
use bridge_buddy::dds::trick_estimations::{
    create_estimation_state, losing_tricks_for_leader, nt_high_card_tricks_per_suit, quick_tricks_for_leader,
    quick_tricks_for_second_hand, trump_high_card_tricks_per_suit, EstimationState,
};
use bridge_buddy::dds::virtual_card::{VirtualCard, VirtualRank};
use bridge_buddy::dds::virtual_card_tracker::VirtualCardTracker;
use bridge_buddy::dds::virtualizer::Virtualizer;
use bridge_buddy::deal::PlayerPosition;

fn card(suit: Suit, denomination: Denomination) -> Card {
    Card { suit, denomination }
}

/// Cards written as suit letter then rank letter, as in "CA".
fn cards(text: &[&str]) -> Vec<Card> {
    text.iter()
        .map(|t| {
            let v = VirtualCard::from_str(t).unwrap();
            card(v.suit, Denomination::from_index(v.rank.index()))
        })
        .collect()
}

fn nothing_played() -> Virtualizer {
    Virtualizer::new([SuitField::empty(); 4])
}

#[test]
fn card_tracker() {
    let mut tracker = CardTracker::empty();
    tracker.add_card(card(Suit::Clubs, Denomination::Two));
    assert_eq!(tracker, CardTracker::from_u16s([1, 0, 0, 0]));
}

#[test]
fn n_cards_per_suit() {
    let cases: [(usize, u64); 5] = [
        (13, 0),
        (12, 0b0000_0000_0000_0001_0000_0000_0000_0001_0000_0000_0000_0001_0000_0000_0000_0001),
        (11, 0b0000_0000_0000_0011_0000_0000_0000_0011_0000_0000_0000_0011_0000_0000_0000_0011),
        (10, 0b0000_0000_0000_0111_0000_0000_0000_0111_0000_0000_0000_0111_0000_0000_0000_0111),
        (1, 0b0000_1111_1111_1111_0000_1111_1111_1111_0000_1111_1111_1111_0000_1111_1111_1111),
    ];
    for (n, expected) in cases {
        assert_eq!(CardTracker::for_n_cards_per_suit(n), CardTracker::from_u64(expected));
    }
}

#[test]
fn lowest_bit() {
    let cases: [(u16, u16); 5] = [
        (0b0000_0000_0000_0000, 0b0000_0000_0000_0000),
        (0b0000_1000_0000_0000, 0b0000_1000_0000_0000),
        (0b0001_1000_0000_0000, 0b0000_1000_0000_0000),
        (0b0001_1001_0000_0000, 0b0000_0001_0000_0000),
        (0b0001_1001_0000_0100, 0b0000_0000_0000_0100),
    ];
    for (field, expected) in cases {
        assert_eq!(SuitField::lowest_bit(field), expected);
    }
}

#[test]
fn take_highest_rank() {
    let cases: [(u16, Option<Denomination>, Option<Denomination>); 5] = [
        (0b0000_0000_0000_0000, None, None),
        (0b0000_1000_0000_0000, Some(Denomination::King), None),
        (0b0001_1000_0000_0000, Some(Denomination::Ace), Some(Denomination::King)),
        (0b0000_0001_0000_0100, Some(Denomination::Ten), Some(Denomination::Four)),
        (0b0000_0000_0000_0100, Some(Denomination::Four), None),
    ];
    for (field, first, second) in cases {
        let mut suit_field = SuitField::from_u16(field);
        assert_eq!(suit_field.take_highest_rank(), first);
        assert_eq!(suit_field.take_highest_rank(), second);
    }
}

#[test]
fn highest_and_lowest_rank() {
    assert_eq!(SuitField::from_u16(0).highest_rank(), None);
    assert_eq!(SuitField::from_u16(0b0001_1000_0000_0000).highest_rank(), Some(Denomination::Ace));
    assert_eq!(SuitField::from_u16(0b0000_0001_0000_0100).highest_rank(), Some(Denomination::Ten));
    assert_eq!(SuitField::from_u16(0b0000_0011_0000_1000).lowest_rank(), Some(Denomination::Five));
    assert_eq!(SuitField::from_u16(0).lowest_rank(), None);
    assert_eq!(SuitField::from_u16(0b0000_0011_1000_0000).lowest_rank(), Some(Denomination::Nine));
}

#[test]
fn iterators_agree_with_contained_ranks() {
    for field in [
        0b0000_0011_0000_1010u16,
        0b0001_0000_0000_0101,
        0b0000_0011_1000_0001,
        0b0001_0011_1000_0010,
        0b0000_1011_0000_1000,
    ] {
        let suit_field = SuitField::from_u16(field);
        let expected = suit_field.all_contained_ranks();
        let mut forward = Vec::new();
        let mut it = suit_field.iter();
        while let Some(rank) = it.next() {
            forward.push(rank);
        }
        assert_eq!(forward, expected);
        let mut backward = Vec::new();
        let mut it = suit_field.iter();
        while let Some(rank) = it.next_back() {
            backward.push(rank);
        }
        backward.reverse();
        assert_eq!(backward, expected);
        let mut owned = Vec::new();
        let mut it = suit_field.into_iter();
        while let Some(rank) = it.next() {
            owned.push(rank);
        }
        assert_eq!(owned, expected);
    }
}

#[test]
fn virtual_given_played() {
    let cases: [(u16, Option<VirtualRank>); 3] = [
        (0b0000_0011_0000_1000, Some(VirtualRank::Five)),
        (0b0000_0011_0100_1000, Some(VirtualRank::Six)),
        (0b0000_0011_0100_1001, None),
    ];
    for (played, expected) in cases {
        let virtualizer = Virtualizer::new([SuitField::from_u16(played); 4]);
        let relative = virtualizer.absolute_to_virtual(card(Suit::Clubs, Denomination::Two));
        assert_eq!(relative, expected.map(|rank| VirtualCard { suit: Suit::Clubs, rank }));
    }
}

#[test]
fn absolute_given_played() {
    let cases: [(VirtualRank, u16, Option<Denomination>); 3] = [
        (VirtualRank::Five, 0b0000_0011_0000_1000, Some(Denomination::Two)),
        (VirtualRank::Six, 0b0000_0011_0100_1000, Some(Denomination::Two)),
        (VirtualRank::Jack, 0b0000_0011_0100_1001, Some(Denomination::Nine)),
    ];
    for (rank, played, expected) in cases {
        let virtualizer = Virtualizer::new([SuitField::from_u16(played); 4]);
        let absolute = virtualizer.virtual_to_absolute(VirtualCard { suit: Suit::Clubs, rank });
        assert_eq!(absolute, expected.map(|denomination| card(Suit::Clubs, denomination)));
    }
}

#[test]
fn virtual_card_from_str() {
    assert_eq!(
        VirtualCard::from_str("CA"),
        Ok(VirtualCard { suit: Suit::Clubs, rank: VirtualRank::Ace })
    );
    assert_eq!(
        VirtualCard::from_str("♠T"),
        Ok(VirtualCard { suit: Suit::Spades, rank: VirtualRank::Ten })
    );
    assert_eq!(VirtualCard::from_str("AC"), Err(()));
    assert_eq!(VirtualCard::from_str("CAK"), Err(()));
    assert_eq!(VirtualCard::from_str(""), Err(()));
}

#[test]
fn mutate() {
    let fields = [
        0b0001_0100_1101_1000_0000_0000_0000_0000,
        0b0001_0101_0011_1010_0000_0000_0000_0000,
        0b0001_0110_0100_1110_0000_0000_0000_0000,
        0b0001_0111_1001_0011_0000_0000_0000_0000,
    ];
    let mutated = TTKey::mutate(fields);
    let expected = [
        [0b0001_0100, 0b0001_0101, 0b0001_0110, 0b0001_0111],
        [0b1101_1000, 0b0011_1010, 0b0100_1110, 0b1001_0011],
        [0b0000_0000, 0b0000_0000, 0b0000_0000, 0b0000_0000],
        [0b0000_0000, 0b0000_0000, 0b0000_0000, 0b0000_0000],
    ];
    assert_eq!(mutated, expected)
}

#[test]
fn calc_id() {
    let tt_key = TTKey::new(
        5,
        Some(Suit::Clubs),
        PlayerPosition::South,
        [
            0b0001_0100_1101_1000_0000_0000_0000_0000,
            0b0001_0101_0011_1010_0000_0000_0000_0000,
            0b0001_0110_0100_1110_0000_0000_0000_0000,
            0b0001_0111_1001_0011_0000_0000_0000_0000,
        ],
    );
    let id = tt_key.calc_id();
    // 0bNNNN_00LL_0TTT_SSSS_sAHH_HHhA_DDDD_dAcA
    let expected = [
        0b0101_0010_0001_0101_1101_0110_0101_0100,
        0b1101_1000_0011_1010_0100_1110_1001_0011,
        0,
        0,
    ];
    assert_eq!(id, expected);
}

#[test]
fn calc_id_without_trumps() {
    let tt_key = TTKey::new(13, None, PlayerPosition::West, [0, 0, 0, 0x0300_0102]);
    let id = tt_key.calc_id();
    assert_eq!(id, [0b1101_0011_0000_0000_1100_0000_0000_0000, 0x0000_0000, 0x0000_0001, 0x0000_0002]);
}

#[test]
fn transposition_table_bounds_tighten() {
    let key = TTKey::new(7, None, PlayerPosition::North, [1, 2, 3, 4]);
    let other = TTKey::new(7, None, PlayerPosition::East, [1, 2, 3, 4]);
    let mut table = TranspositionTable::new();
    assert!(table.lookup(&key).is_none());
    table.update_upper_bound(&key, 5);
    assert_eq!(table.lookup(&key), Some(&TTValue { at_least: 0, at_most: 5 }));
    table.update_lower_bound(&key, 2);
    assert_eq!(table.lookup(&key), Some(&TTValue { at_least: 2, at_most: 5 }));
    table.update_upper_bound(&key, 6);
    assert_eq!(table.lookup(&key), Some(&TTValue { at_least: 2, at_most: 5 }));
    table.update_lower_bound(&key, 1);
    assert_eq!(table.lookup(&key), Some(&TTValue { at_least: 2, at_most: 5 }));
    table.update_lower_bound(&other, 3);
    assert_eq!(table.lookup(&other), Some(&TTValue { at_least: 3, at_most: 7 }));
    assert_eq!(table.lookup(&key), Some(&TTValue { at_least: 2, at_most: 5 }));
    table.clear();
    assert!(table.lookup(&key).is_none());
    assert!(table.lookup(&other).is_none());
}

fn four_clubs_manager() -> DistFieldManager {
    let hands = [
        CardTracker::from_cards(&cards(&["CA"])),
        CardTracker::from_cards(&cards(&["CK"])),
        CardTracker::from_cards(&cards(&["CQ"])),
        CardTracker::from_cards(&cards(&["CJ"])),
    ];
    DistFieldManager::new_for_game(&hands)
}

#[test]
fn distribution_owners_at_start() {
    let manager = four_clubs_manager();
    let clubs = |rank| VirtualCard { suit: Suit::Clubs, rank };
    assert_eq!(manager.owner_of_winning_rank_in(Suit::Clubs), Some(PlayerPosition::North));
    assert_eq!(manager.owner_of_runner_up_in(Suit::Clubs), Some(PlayerPosition::East));
    assert_eq!(manager.owner_of(&clubs(VirtualRank::Queen)), Some(PlayerPosition::South));
    assert_eq!(manager.owner_of(&clubs(VirtualRank::Jack)), Some(PlayerPosition::West));
    assert_eq!(manager.owner_of(&clubs(VirtualRank::Ten)), None);
    assert_eq!(manager.owner_of_winning_rank_in(Suit::Spades), None);
    let field = manager.get_field();
    assert_eq!(field.cards_in_suit(Suit::Clubs) >> 26, 4);
    assert_eq!(field.cards_in_suit(Suit::Spades), 0);
}

#[test]
fn distribution_remove_then_add_restores() {
    let mut manager = four_clubs_manager();
    let start = manager.get_field();
    let king = VirtualCard { suit: Suit::Clubs, rank: VirtualRank::King };
    manager.remove_cards(&[king]);
    assert_eq!(manager.owner_of_winning_rank_in(Suit::Clubs), Some(PlayerPosition::North));
    assert_eq!(manager.owner_of_runner_up_in(Suit::Clubs), Some(PlayerPosition::South));
    assert_eq!(
        manager.owner_of(&VirtualCard { suit: Suit::Clubs, rank: VirtualRank::Queen }),
        Some(PlayerPosition::West)
    );
    assert_eq!(manager.owner_of(&VirtualCard { suit: Suit::Clubs, rank: VirtualRank::Jack }), None);
    manager.add_cards(&[king], PlayerPosition::East);
    assert_eq!(manager.get_field(), start);
    manager.step_back();
    manager.step_back();
    assert_eq!(manager.get_field(), start);
}

#[test]
fn distribution_removes_lowest_first() {
    let mut manager = four_clubs_manager();
    // the Queen's holder (South) and the Ace's holder (North) leave; the list order does not matter
    let queen = VirtualCard { suit: Suit::Clubs, rank: VirtualRank::Queen };
    let ace = VirtualCard { suit: Suit::Clubs, rank: VirtualRank::Ace };
    manager.remove_cards(&[ace, queen]);
    assert_eq!(manager.owner_of_winning_rank_in(Suit::Clubs), Some(PlayerPosition::East));
    assert_eq!(manager.owner_of_runner_up_in(Suit::Clubs), Some(PlayerPosition::West));
    assert_eq!(manager.get_field().cards_in_suit(Suit::Clubs) >> 26, 2);
}

#[test]
fn distribution_field_new_keeps_words() {
    let field = DistributionField::new([1, 2, 3, 4]);
    assert_eq!(field.cards_in_suit(Suit::Clubs), 1);
    assert_eq!(field.cards_in_suit(Suit::Spades), 4);
}

#[test]
fn double_dummy_result_display() {
    let ddr = DoubleDummyResult {
        max_tricks: [0, 1, 2, 3, 4, 1, 2, 3, 4, 5, 2, 3, 4, 5, 6, 3, 4, 5, 6, 7],
    };
    assert_eq!(
        ddr.to_string(),
        "  NT ♠S ♥H ♦D ♣C\nN  4  3  2  1  0 \nE  5  4  3  2  1 \nS  6  5  4  3  2 \nW  7  6  5  4  3 \n"
    );
}

#[test]
fn double_dummy_result_get_after_set() {
    let mut ddr = DoubleDummyResult::new();
    ddr.set_tricks_for_declarer_in_strain(9, PlayerPosition::South, Strain::NoTrump);
    ddr.set_tricks_for_declarer_in_strain(10, PlayerPosition::East, Strain::Trump(Suit::Hearts));
    assert_eq!(ddr.get_tricks_for_declarer_in_strain(PlayerPosition::South, Strain::NoTrump), 9);
    assert_eq!(
        ddr.get_tricks_for_declarer_in_strain(PlayerPosition::East, Strain::Trump(Suit::Hearts)),
        10
    );
    assert_eq!(ddr.get_tricks_for_declarer_in_strain(PlayerPosition::North, Strain::NoTrump), 0);
    assert_eq!(ddr.max_tricks[14], 9);
    assert_eq!(ddr.max_tricks[7], 10);
    let wide = DoubleDummyResult { max_tricks: [13; 20] };
    assert!(wide.to_string().starts_with("  NT ♠S ♥H ♦D ♣C\nN 13 13 13 13 13 \n"));
}

#[test]
fn statistics_merge_and_count() {
    let mut a = DdsStatistics::default();
    a.node_count = [1, 2, 3, 4];
    a.n_first_moves = [1, 1, 1, 1];
    let mut b = DdsStatistics::default();
    b.node_count = [10, 20, 30, 40];
    b.n_first_move_is_best = [0, 1, 0, 1];
    a.merge(&b);
    assert_eq!(a.get_node_count_per_position(), [11, 22, 33, 44]);
    assert_eq!(a.get_node_count(), 110);
    assert_eq!(a.n_first_moves, [1, 1, 1, 1]);
    assert_eq!(a.n_first_move_is_best, [0, 1, 0, 1]);
}

#[test]
fn config_default() {
    let config = DdsConfig::default();
    assert!(config.move_ordering);
    assert!(config.check_quick_tricks);
    assert!(config.quick_tricks_in_second_hand);
    assert!(config.use_transposition_table);
    assert!(config.check_losing_tricks);
    assert!(!config.pre_estimate);
    assert!(config.multi_threading);
}

fn nt_tricks(mine: &[&str], partners: &[&str]) -> [usize; 4] {
    let virtualizer = nothing_played();
    let my_tracker = CardTracker::from_cards(&cards(mine));
    let partners_tracker = CardTracker::from_cards(&cards(partners));
    let my_cards = VirtualCardTracker::from_card_tracker(&my_tracker, &virtualizer);
    let partners_cards = VirtualCardTracker::from_card_tracker(&partners_tracker, &virtualizer);
    nt_high_card_tricks_per_suit(&my_cards, &partners_cards)
}

#[test]
fn nt_high_card_tricks() {
    assert_eq!(nt_tricks(&["CA", "CK"], &["C2", "H2"]), [2, 0, 0, 0]);
    assert_eq!(nt_tricks(&["CA", "H2"], &["C2", "CK"]), [1, 0, 0, 0]);
    assert_eq!(nt_tricks(&["CA", "H2", "H7"], &["CK", "C2", "HA"]), [2, 0, 1, 0]);
    assert_eq!(nt_tricks(&["SA", "SQ", "SJ"], &["SK", "ST", "S9", "S8"]), [0, 0, 0, 4]);
}

#[test]
fn high_cards_skip_cards_out_of_play() {
    // the Ace and King of Clubs are gone: Queen and Jack are the two top cards
    let virtualizer = Virtualizer::new([
        SuitField::from_u16(0b0001_1000_0000_0000),
        SuitField::empty(),
        SuitField::empty(),
        SuitField::empty(),
    ]);
    let tracker = CardTracker::from_cards(&cards(&["CQ", "CJ", "C9"]));
    let my_cards = VirtualCardTracker::from_card_tracker(&tracker, &virtualizer);
    assert_eq!(my_cards.count_high_cards_in(Suit::Clubs), 2);
    assert!(my_cards.contains_winning_rank_in(Suit::Clubs));
    assert!(my_cards.contains_runner_up_in(Suit::Clubs));
    assert_eq!(
        my_cards.all_ranks_in(Suit::Clubs),
        vec![VirtualRank::Jack, VirtualRank::King, VirtualRank::Ace]
    );
    assert_eq!(
        my_cards.highest_card_in(Suit::Clubs),
        Some(VirtualCard { suit: Suit::Clubs, rank: VirtualRank::Ace })
    );
}

#[test]
fn combined_high_cards() {
    let virtualizer = nothing_played();
    let mine = CardTracker::from_cards(&cards(&["SA", "SJ", "DQ", "CQ", "CJ"]));
    let partners = CardTracker::from_cards(&cards(&["SQ", "HA", "HK", "HQ", "HT"]));
    let my_cards = VirtualCardTracker::from_card_tracker(&mine, &virtualizer);
    let partners_cards = VirtualCardTracker::from_card_tracker(&partners, &virtualizer);
    assert_eq!(
        my_cards.count_combined_high_cards_per_suit(&partners_cards),
        [[0, 0, 0, 1], [0, 0, 3, 0]]
    );
}

#[test]
fn trump_tricks_cut_by_ruffs() {
    let virtualizer = nothing_played();
    let mine = CardTracker::from_cards(&cards(&["HA", "HK", "SA"]));
    let partners = CardTracker::from_cards(&cards(&["H2", "S2", "S3"]));
    let lhos = CardTracker::from_cards(&cards(&["H3", "S4", "S5"]));
    let rhos = CardTracker::from_cards(&cards(&["D2", "S6", "S7"]));
    let my_cards = VirtualCardTracker::from_card_tracker(&mine, &virtualizer);
    let partners_cards = VirtualCardTracker::from_card_tracker(&partners, &virtualizer);
    let lhos_cards = VirtualCardTracker::from_card_tracker(&lhos, &virtualizer);
    let rhos_cards = VirtualCardTracker::from_card_tracker(&rhos, &virtualizer);
    // Spades are trumps; both opponents keep trumps, so Hearts count only while both follow
    let per_suit = trump_high_card_tricks_per_suit(
        &my_cards,
        &partners_cards,
        &lhos_cards,
        &rhos_cards,
        Suit::Spades,
    );
    assert_eq!(per_suit, [0, 0, 0, 1]);
    assert_eq!(
        quick_tricks_for_leader(&my_cards, &lhos_cards, &partners_cards, &rhos_cards, Some(Suit::Spades)),
        1
    );
    // without trumps the two top Hearts and the Ace of Spades all count
    assert_eq!(
        quick_tricks_for_leader(&my_cards, &lhos_cards, &partners_cards, &rhos_cards, None),
        3
    );
}

#[test]
fn quick_tricks_second_hand() {
    let virtualizer = nothing_played();
    let mine = CardTracker::from_cards(&cards(&["HA", "HK", "S2"]));
    let partners = CardTracker::from_cards(&cards(&["C2", "C3", "C4"]));
    let lhos = CardTracker::from_cards(&cards(&["D2", "D3", "D4"]));
    let my_cards = VirtualCardTracker::from_card_tracker(&mine, &virtualizer);
    let partners_cards = VirtualCardTracker::from_card_tracker(&partners, &virtualizer);
    let lhos_cards = VirtualCardTracker::from_card_tracker(&lhos, &virtualizer);
    // no trumps, Hearts led: my two top Hearts
    assert_eq!(
        quick_tricks_for_second_hand(&my_cards, &lhos_cards, &partners_cards, None, Suit::Hearts),
        2
    );
    // Spades trumps, Diamonds led: I ruff with my small trump; my left-hand opponent follows
    assert_eq!(
        quick_tricks_for_second_hand(
            &my_cards,
            &lhos_cards,
            &partners_cards,
            Some(Suit::Spades),
            Suit::Diamonds
        ),
        1
    );
}

fn estimation(trump_suit: Option<Suit>) -> EstimationState {
    EstimationState {
        lead_suit: None,
        trump_suit,
        my_seat: PlayerPosition::North,
        // North, East, South, West; Clubs to Spades
        card_counts: [[2, 1, 0, 0], [1, 1, 1, 0], [0, 1, 1, 1], [0, 0, 1, 2]],
        high_card_counts: [[0, 0, 0, 0], [1, 0, 0, 0], [0, 1, 0, 0], [0, 0, 0, 2]],
        our_combined_high_card_count: [[0, 0, 0, 0], [0, 1, 0, 0]],
        ace_owners: [
            Some(PlayerPosition::East),
            Some(PlayerPosition::South),
            None,
            Some(PlayerPosition::West),
        ],
        king_owners: [None, None, None, Some(PlayerPosition::West)],
    }
}

#[test]
fn losing_tricks_without_trumps() {
    // North leads: East (left-hand) holds the top Club, the side the top Diamond and Heart; the
    // side could win at most one Diamond and one Heart, North holds three cards: one trick lost
    assert_eq!(losing_tricks_for_leader(estimation(None)), 1);
}

#[test]
fn losing_tricks_with_trumps() {
    // West (right-hand opponent) holds the two top Spades
    assert_eq!(losing_tricks_for_leader(estimation(Some(Suit::Spades))), 2);
    // East (left-hand opponent) holds the top Club
    assert_eq!(losing_tricks_for_leader(estimation(Some(Suit::Clubs))), 1);
    // no-one on the other side holds a top Diamond; North has no single top trump
    assert_eq!(losing_tricks_for_leader(estimation(Some(Suit::Diamonds))), 0);
}

#[test]
fn cards_in_play_close_up_to_the_top() {
    // only the Eight, Five and Three of Clubs are still in play: they act as Ace, King and Queen
    let in_play: u16 = (1 << 6) | (1 << 3) | (1 << 1);
    let played = 0b0001_1111_1111_1111 & !in_play;
    let virtualizer = Virtualizer::new([SuitField::from_u16(played), SuitField::empty(), SuitField::empty(), SuitField::empty()]);
    let virtual_rank = |d: Denomination| virtualizer.absolute_to_virtual(card(Suit::Clubs, d)).map(|v| v.rank);
    assert_eq!(virtual_rank(Denomination::Eight), Some(VirtualRank::Ace));
    assert_eq!(virtual_rank(Denomination::Five), Some(VirtualRank::King));
    assert_eq!(virtual_rank(Denomination::Three), Some(VirtualRank::Queen));
    assert_eq!(virtual_rank(Denomination::Ace), None);
    assert_eq!(
        virtualizer.virtual_to_absolute(VirtualCard { suit: Suit::Clubs, rank: VirtualRank::Ace }),
        Some(card(Suit::Clubs, Denomination::Eight))
    );
    assert_eq!(virtualizer.virtual_to_absolute(VirtualCard { suit: Suit::Clubs, rank: VirtualRank::Jack }), None);
}

#[test]
fn estimation_state_of_a_position() {
    let hands = [
        CardTracker::from_cards(&cards(&["SA", "SK"])),
        CardTracker::from_cards(&cards(&["SQ", "HA"])),
        CardTracker::from_cards(&cards(&["SJ", "HQ"])),
        CardTracker::from_cards(&cards(&["HK", "HJ"])),
    ];
    let distribution = DistFieldManager::new_for_game(&hands);
    let virtualizer = nothing_played();
    let seats = [
        VirtualCardTracker::from_card_tracker(&hands[0], &virtualizer),
        VirtualCardTracker::from_card_tracker(&hands[1], &virtualizer),
        VirtualCardTracker::from_card_tracker(&hands[2], &virtualizer),
        VirtualCardTracker::from_card_tracker(&hands[3], &virtualizer),
    ];
    let e = create_estimation_state(PlayerPosition::North, None, None, &seats, &distribution);
    assert_eq!(e.my_seat, PlayerPosition::North);
    assert_eq!(e.card_counts, [[0, 0, 0, 2], [0, 0, 1, 1], [0, 0, 1, 1], [0, 0, 2, 0]]);
    assert_eq!(e.ace_owners, [None, None, Some(PlayerPosition::East), Some(PlayerPosition::North)]);
    assert_eq!(e.king_owners, [None, None, Some(PlayerPosition::West), Some(PlayerPosition::North)]);
    assert_eq!(e.high_card_counts, [[0, 0, 0, 2], [0, 0, 1, 0], [0, 0, 0, 0], [0, 0, 0, 0]]);
    assert_eq!(e.our_combined_high_card_count, [[0, 0, 0, 2], [0, 0, 0, 0]]);
    assert_eq!(losing_tricks_for_leader(e), 0);
}

#[test]
fn virtual_card_tracker_queries() {
    let virtualizer = nothing_played();
    let tracker = CardTracker::from_cards(&cards(&["SK", "S4", "HA", "D9", "D8"]));
    let mine = VirtualCardTracker::from_card_tracker(&tracker, &virtualizer);
    assert!(mine.has_doubleton_runner_up_in(Suit::Spades));
    assert!(mine.has_singleton_winner_in(Suit::Hearts));
    assert!(mine.is_void_in(Suit::Clubs));
    assert!(mine.has_cards_in(Suit::Diamonds));
    assert_eq!(mine.count_cards(), 5);
    assert_eq!(mine.count_cards_per_suit(), [0, 2, 1, 2]);
    assert!(mine.contains(&VirtualCard { suit: Suit::Spades, rank: VirtualRank::King }));
    assert!(!mine.contains_in(&VirtualRank::Ace, Suit::Spades));
    assert_eq!(mine.count_cards_higher_than(&VirtualCard { suit: Suit::Spades, rank: VirtualRank::Four }), 1);
    assert_eq!(mine.count_cards_lower_than(&VirtualCard { suit: Suit::Diamonds, rank: VirtualRank::Nine }), 2);
    assert_eq!(
        mine.lowest_card_in(Suit::Diamonds),
        Some(VirtualCard { suit: Suit::Diamonds, rank: VirtualRank::Eight })
    );
    assert_eq!(mine.count_high_cards_per_suit(), [0, 0, 1, 0]);
    assert_eq!(mine.all_cards().len(), 5);
}

#[test]
fn distribution_step_back_after_add_restores() {
    let mut manager = four_clubs_manager();
    let start = manager.get_field();
    let ten = VirtualCard { suit: Suit::Clubs, rank: VirtualRank::Ten };
    manager.add_cards(&[ten], PlayerPosition::West);
    assert_ne!(manager.get_field(), start);
    manager.step_back();
    assert_eq!(manager.get_field(), start);
}
