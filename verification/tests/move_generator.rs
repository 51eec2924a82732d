use bridge_buddy::card::{Card, Denomination, Suit};
use bridge_buddy::dds::card_tracker::CardTracker;
use bridge_buddy::dds::distribution_field::DistFieldManager;
use bridge_buddy::dds::move_generator::{DdsMove, MoveGenerator, PlayView};
use bridge_buddy::dds::suit_field::SuitField;
use bridge_buddy::dds::virtual_card::{VirtualCard, VirtualRank};
use bridge_buddy::dds::virtual_card_tracker::VirtualCardTracker;
use bridge_buddy::dds::virtualizer::Virtualizer;
use bridge_buddy::deal::PlayerPosition;

fn vc(text: &str) -> VirtualCard {
    VirtualCard::from_str(text).unwrap()
}

fn cards(text: &[&str]) -> Vec<Card> {
    text.iter()
        .map(|t| {
            let v = vc(t);
            Card { suit: v.suit, denomination: Denomination::from_index(v.rank.index()) }
        })
        .collect()
}

#[test]
fn one_move_per_sequence() {
    let moves = MoveGenerator::select_one_move_per_sequence(vec![
        vc("C2"),
        vc("C3"),
        vc("C5"),
        vc("C6"),
        vc("C7"),
        vc("D2"),
    ]);
    let summary: Vec<(VirtualCard, usize)> = moves.iter().map(|m| (m.card, m.sequence_length)).collect();
    assert_eq!(summary, vec![(vc("C3"), 2), (vc("C7"), 3), (vc("D2"), 1)]);
    assert!(moves.iter().all(|m| m.priority == 0));
    assert!(MoveGenerator::select_one_move_per_sequence(vec![]).is_empty());
}

#[test]
fn sort_by_priority() {
    let mut moves = vec![
        DdsMove { card: vc("C2"), sequence_length: 1, priority: 3 },
        DdsMove { card: vc("C4"), sequence_length: 1, priority: 7 },
        DdsMove { card: vc("C6"), sequence_length: 1, priority: -1 },
        DdsMove { card: vc("C8"), sequence_length: 1, priority: 7 },
    ];
    MoveGenerator::sort_moves_by_priority_descending(&mut moves);
    let priorities: Vec<isize> = moves.iter().map(|m| m.priority).collect();
    assert_eq!(priorities, vec![7, 7, 3, -1]);
    let mut seen: Vec<VirtualCard> = moves.iter().map(|m| m.card).collect();
    seen.sort();
    assert_eq!(seen, vec![vc("C2"), vc("C4"), vc("C6"), vc("C8")]);
}

#[test]
fn random_priorities_keep_the_moves() {
    let mut moves = vec![DdsMove::new(vc("C2")), DdsMove::new(vc("HA"))];
    MoveGenerator::randomize_priority(&mut moves);
    assert_eq!(moves.len(), 2);
    assert_eq!(moves[0].card, vc("C2"));
    assert_eq!(moves[1].card, vc("HA"));
}

struct Table {
    trackers: [CardTracker; 4],
    virtualizer: Virtualizer,
    distribution: DistFieldManager,
}

fn table(north: &[&str], east: &[&str], south: &[&str], west: &[&str]) -> Table {
    let trackers = [
        CardTracker::from_cards(&cards(north)),
        CardTracker::from_cards(&cards(east)),
        CardTracker::from_cards(&cards(south)),
        CardTracker::from_cards(&cards(west)),
    ];
    let distribution = DistFieldManager::new_for_game(&trackers);
    Table { trackers, virtualizer: Virtualizer::new([SuitField::empty(); 4]), distribution }
}

fn view<'a>(
    t: &'a Table,
    next_to_play: PlayerPosition,
    trump_suit: Option<Suit>,
    trick: &[VirtualCard],
    winner: PlayerPosition,
) -> PlayView<'a> {
    let winning = trick.iter().copied().max_by_key(|c| (c.suit == trick[0].suit, c.rank));
    PlayView {
        next_to_play,
        suit_to_follow: trick.first().map(|c| c.suit),
        trump_suit,
        cards: [
            VirtualCardTracker::from_card_tracker(&t.trackers[0], &t.virtualizer),
            VirtualCardTracker::from_card_tracker(&t.trackers[1], &t.virtualizer),
            VirtualCardTracker::from_card_tracker(&t.trackers[2], &t.virtualizer),
            VirtualCardTracker::from_card_tracker(&t.trackers[3], &t.virtualizer),
        ],
        distribution: &t.distribution,
        currently_winning_card: winning,
        current_trick_winner: winner,
        count_played_cards: trick.len(),
        count_cards_in_current_trick: trick.len(),
    }
}

#[test]
fn discards_follow_suit_weights() {
    let t = table(&["S2", "SK", "SA"], &["SQ", "H2", "H3"], &["S3", "S4", "H4"], &["SJ", "H5", "H6"]);
    let v = view(&t, PlayerPosition::North, None, &[], PlayerPosition::North);
    let mut moves = vec![DdsMove::new(vc("S2"))];
    MoveGenerator::calc_priority_nt_void(&mut moves, &v);
    // three Spades weigh 3 * 64 / 36 = 5; the Two has rank 0
    assert_eq!(moves[0].priority, 5);
    let weights = MoveGenerator::suit_weights_for_discarding(&v);
    assert_eq!(weights, [0, 0, 0, 5]);
}

#[test]
fn cheapest_winner() {
    let t = table(&["S2", "SK", "SA"], &["SQ", "H2", "H3"], &["S3", "S4", "H4"], &["SJ", "H5", "H6"]);
    let v = view(&t, PlayerPosition::North, None, &[vc("SQ")], PlayerPosition::East);
    let mut king = DdsMove::new(vc("SK"));
    MoveGenerator::try_to_win_as_cheaply_as_possible(&v, &mut king);
    assert_eq!(king.priority, 50 - 11);
    let mut two = DdsMove::new(vc("S2"));
    MoveGenerator::try_to_win_as_cheaply_as_possible(&v, &mut two);
    assert_eq!(two.priority, 0);
}

#[test]
fn leading_moves_are_sequences_in_priority_order() {
    let t = table(&["S2", "SK", "SA"], &["SQ", "H2", "H3"], &["S3", "S4", "H4"], &["SJ", "H5", "H6"]);
    let v = view(&t, PlayerPosition::North, None, &[], PlayerPosition::North);
    let moves = MoveGenerator::generate_moves(&v, true);
    assert_eq!(moves.len(), 2);
    assert!(moves[0].priority >= moves[1].priority);
    let mut summary: Vec<(VirtualCard, usize)> = moves.iter().map(|m| (m.card, m.sequence_length)).collect();
    summary.sort();
    assert_eq!(summary, vec![(vc("S2"), 1), (vc("SA"), 2)]);
    let unordered = MoveGenerator::generate_moves(&v, false);
    assert_eq!(unordered.len(), 2);
    assert_eq!(unordered[0].card, vc("S2"));
    assert_eq!(unordered[1].card, vc("SA"));
}

#[test]
fn second_hand_must_follow_suit() {
    let t = table(&["S2", "SK", "SA"], &["SQ", "H2", "H3"], &["S3", "S4", "H4"], &["SJ", "H5", "H6"]);
    let v = view(&t, PlayerPosition::East, None, &[vc("SA")], PlayerPosition::North);
    let moves = MoveGenerator::generate_moves(&v, true);
    assert_eq!(moves.len(), 1);
    assert_eq!(moves[0].card, vc("SQ"));
    assert_eq!(moves[0].card.rank, VirtualRank::Queen);
}

#[test]
fn last_hand_ruffs_cheaply() {
    // West is void in Clubs and ruffs with the lowest Heart when trumps are Hearts
    let t = table(&["C2", "S5"], &["C3", "S6"], &["C4", "S7"], &["H5", "H6"]);
    let v = view(
        &t,
        PlayerPosition::West,
        Some(Suit::Hearts),
        &[vc("C2"), vc("C3"), vc("C4")],
        PlayerPosition::South,
    );
    let moves = MoveGenerator::generate_moves(&v, true);
    assert_eq!(moves.len(), 1);
    assert_eq!(moves[0].card, vc("H6"));
    assert_eq!(moves[0].sequence_length, 2);
    // -20 for a trump, less the rank, and 50 for the first trump when the opponents are winning
    assert_eq!(moves[0].priority, -20 - 4 + 50);
}
