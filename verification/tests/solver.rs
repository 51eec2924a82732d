use bridge_buddy::card::{Card, Denomination, Suit};
use bridge_buddy::dds::card_tracker::CardTracker;
use bridge_buddy::dds::dds_config::DdsConfig;
use bridge_buddy::dds::double_dummy_result::Strain;
use bridge_buddy::dds::double_dummy_runner::{get_initial_estimate, DoubleDummyRunner};
use bridge_buddy::dds::double_dummy_solver::{strain_at, DoubleDummySolver};
use bridge_buddy::dds::double_dummy_state::DoubleDummyState;
use bridge_buddy::dds::rank_compression::move_up_ranks;
use bridge_buddy::dds::trick_manager::TrickManager;
use bridge_buddy::dds::virtual_card::{VirtualCard, VirtualRank};
use bridge_buddy::dds::virtual_state::VirtualState;
use bridge_buddy::deal::{Deal, PlayerPosition};
use bridge_buddy::evaluator::ForumDPlus2015Evaluator;

fn card(suit: Suit, denomination: Denomination) -> Card {
    Card { suit, denomination }
}

fn whole_suit(suit: Suit) -> CardTracker {
    let cards: Vec<Card> = (0..13).map(|i| card(suit, Denomination::from_index(i))).collect();
    CardTracker::from_cards(&cards)
}

fn one_card(suit: Suit, denomination: Denomination) -> CardTracker {
    CardTracker::from_cards(&[card(suit, denomination)])
}

#[test]
fn trick_winner_follows_suit_and_trumps() {
    let mut tricks = TrickManager::new(PlayerPosition::North, Some(Suit::Hearts), 2);
    tricks.play(card(Suit::Spades, Denomination::Two));
    assert_eq!(tricks.next_to_play(), PlayerPosition::East);
    assert_eq!(tricks.suit_to_follow(), Some(Suit::Spades));
    tricks.play(card(Suit::Spades, Denomination::King));
    assert_eq!(tricks.current_trick_winner(), PlayerPosition::East);
    tricks.play(card(Suit::Hearts, Denomination::Two));
    assert_eq!(tricks.current_trick_winner(), PlayerPosition::South);
    assert_eq!(tricks.currently_winning_card(), Some(card(Suit::Hearts, Denomination::Two)));
    assert!(!tricks.would_win_over_current_winner(&card(Suit::Spades, Denomination::Ace)));
    assert!(tricks.would_win_over_current_winner(&card(Suit::Hearts, Denomination::Three)));
    tricks.play(card(Suit::Spades, Denomination::Ace));
    assert!(tricks.trick_complete());
    assert_eq!(tricks.last_trick_winner(), Some(PlayerPosition::South));
    assert_eq!(tricks.next_to_play(), PlayerPosition::South);
    assert_eq!(tricks.tricks_won_by_axis(PlayerPosition::North), 1);
    assert_eq!(tricks.tricks_won_by_axis(PlayerPosition::West), 0);
    assert_eq!(tricks.tricks_left(), 1);
    assert_eq!(
        tricks.cards_in_last_trick(),
        vec![
            card(Suit::Spades, Denomination::Two),
            card(Suit::Spades, Denomination::King),
            card(Suit::Hearts, Denomination::Two),
            card(Suit::Spades, Denomination::Ace),
        ]
    );
}

#[test]
fn taking_back_a_card_restores_the_trick() {
    let mut tricks = TrickManager::new(PlayerPosition::West, None, 1);
    assert_eq!(tricks.undo(), None);
    tricks.play(card(Suit::Clubs, Denomination::Ten));
    tricks.play(card(Suit::Clubs, Denomination::Jack));
    tricks.play(card(Suit::Diamonds, Denomination::Ace));
    tricks.play(card(Suit::Clubs, Denomination::Two));
    assert_eq!(tricks.last_trick_winner(), Some(PlayerPosition::North));
    assert_eq!(tricks.tricks_won_by_axis(PlayerPosition::South), 1);
    assert_eq!(tricks.undo(), Some(card(Suit::Clubs, Denomination::Two)));
    assert_eq!(tricks.last_trick_winner(), None);
    assert_eq!(tricks.tricks_won_by_axis(PlayerPosition::South), 0);
    assert_eq!(tricks.next_to_play(), PlayerPosition::South);
    assert_eq!(tricks.count_played_cards(), 3);
}

#[test]
fn double_dummy_state_moves_cards_between_hands_and_tricks() {
    let hands = [
        one_card(Suit::Spades, Denomination::Ace),
        one_card(Suit::Hearts, Denomination::Two),
        one_card(Suit::Spades, Denomination::King),
        one_card(Suit::Spades, Denomination::Queen),
    ];
    let mut game = DoubleDummyState::new(hands, PlayerPosition::East, None, 1);
    assert_eq!(game.count_cards_in_suit_for_player(Suit::Hearts, PlayerPosition::East), 1);
    game.play(card(Suit::Hearts, Denomination::Two));
    assert_eq!(game.cards_of(PlayerPosition::East).count_cards(), 0);
    assert!(game.played_cards().contains(&card(Suit::Hearts, Denomination::Two)));
    assert_eq!(game.next_to_play(), PlayerPosition::South);
    assert_eq!(game.undo(), Some(card(Suit::Hearts, Denomination::Two)));
    assert_eq!(game.cards_of(PlayerPosition::East).count_cards(), 1);
    assert!(!game.played_cards().contains(&card(Suit::Hearts, Denomination::Two)));
    assert!(game.player_is_leading());
}

#[test]
fn virtual_state_play_and_undo_give_back_the_position() {
    let hands = [
        CardTracker::from_cards(&[card(Suit::Spades, Denomination::Ace), card(Suit::Hearts, Denomination::Two)]),
        CardTracker::from_cards(&[card(Suit::Spades, Denomination::King), card(Suit::Hearts, Denomination::Three)]),
        CardTracker::from_cards(&[card(Suit::Spades, Denomination::Queen), card(Suit::Hearts, Denomination::Four)]),
        CardTracker::from_cards(&[card(Suit::Spades, Denomination::Jack), card(Suit::Hearts, Denomination::Five)]),
    ];
    let mut state = VirtualState::new(hands, PlayerPosition::North, None, 2);
    let key_before = state.generate_tt_key();
    let ace = VirtualCard { suit: Suit::Spades, rank: VirtualRank::Ace };
    for _ in 0..4 {
        let next = state.next_to_play();
        let first = state.cards_of(next).all_cards()[1];
        assert!(state.play(&first).is_ok());
    }
    assert!(state.player_is_leading());
    assert_eq!(state.tricks_won_by_axis(PlayerPosition::South), 1);
    assert_eq!(state.tricks_left(), 1);
    assert!(state.is_last_trick());
    // the Ace of Spades has been played: the highest heart left is now a virtual Ace
    assert!(state.play(&ace).is_err());
    assert_eq!(state.next_to_play(), PlayerPosition::North);
    assert_eq!(state.last_trick_winner(), Some(PlayerPosition::North));
    for _ in 0..4 {
        state.undo();
    }
    assert_eq!(state.count_played_cards(), 0);
    assert_eq!(state.next_to_play(), PlayerPosition::North);
    assert_eq!(state.tricks_won_by_axis(PlayerPosition::North), 0);
    assert_eq!(state.generate_tt_key(), key_before);
    assert_eq!(state.owner_of(ace), Some(PlayerPosition::North));
}

#[test]
fn virtual_state_rejects_a_card_the_player_does_not_hold() {
    let hands = [
        one_card(Suit::Spades, Denomination::Ace),
        one_card(Suit::Hearts, Denomination::Two),
        one_card(Suit::Spades, Denomination::King),
        one_card(Suit::Spades, Denomination::Queen),
    ];
    let mut state = VirtualState::new(hands, PlayerPosition::North, None, 1);
    let kings = VirtualCard { suit: Suit::Spades, rank: VirtualRank::King };
    assert!(state.play(&kings).is_err());
    assert_eq!(state.count_played_cards(), 0);
    let aces = VirtualCard { suit: Suit::Spades, rank: VirtualRank::Ace };
    assert!(state.play(&aces).is_ok());
    assert_eq!(state.currently_winning_card(), Some(aces));
    assert_eq!(state.current_trick_winner(), PlayerPosition::North);
}

#[test]
fn runner_scores_a_single_trick() {
    let hands = [
        one_card(Suit::Spades, Denomination::Ace),
        one_card(Suit::Hearts, Denomination::Two),
        one_card(Suit::Spades, Denomination::King),
        one_card(Suit::Spades, Denomination::Queen),
    ];
    let mut runner = DoubleDummyRunner::default();
    // East leads the Two of Hearts and wins the trick at no trumps
    assert_eq!(runner.solve_initial_position(hands, Strain::NoTrump, PlayerPosition::East), 1);
    // with Spades as trumps South ruffs
    assert_eq!(runner.solve_initial_position(hands, Strain::Trump(Suit::Spades), PlayerPosition::East), 0);
    assert_eq!(runner.solve_for_all_declarers(hands, Strain::Trump(Suit::Hearts)), [0, 1, 0, 1]);
    assert!(runner.get_statistics().get_node_count() > 0);
}

#[test]
fn solver_table_of_a_one_card_deal() {
    let hands = [
        one_card(Suit::Spades, Denomination::Ace),
        one_card(Suit::Hearts, Denomination::Two),
        one_card(Suit::Spades, Denomination::King),
        one_card(Suit::Spades, Denomination::Queen),
    ];
    let mut solver = DoubleDummySolver::default();
    let result = solver.solve(hands);
    assert_eq!(
        result.max_tricks,
        [0, 0, 0, 1, 0, 0, 0, 1, 0, 0, 1, 1, 0, 1, 1, 0, 0, 1, 0, 0]
    );
}

#[test]
fn solver_table_of_four_long_suits() {
    let hands = [
        whole_suit(Suit::Spades),
        whole_suit(Suit::Hearts),
        whole_suit(Suit::Diamonds),
        whole_suit(Suit::Clubs),
    ];
    let expected = [0, 13, 0, 13, 0, 13, 0, 13, 0, 0, 0, 13, 0, 13, 0, 13, 0, 13, 0, 0];
    let mut solver = DoubleDummySolver::new(DdsConfig::default());
    assert_eq!(solver.solve(hands).max_tricks, expected);
    let mut config = DdsConfig::default();
    config.multi_threading = false;
    config.move_ordering = false;
    let mut single = DoubleDummySolver::new(config);
    assert_eq!(single.solve(hands).max_tricks, expected);
}

#[test]
fn solver_agrees_with_and_without_its_shortcuts() {
    let hands = [
        CardTracker::from_cards(&[
            card(Suit::Spades, Denomination::Ace),
            card(Suit::Spades, Denomination::Two),
            card(Suit::Hearts, Denomination::King),
        ]),
        CardTracker::from_cards(&[
            card(Suit::Spades, Denomination::King),
            card(Suit::Hearts, Denomination::Ace),
            card(Suit::Clubs, Denomination::Two),
        ]),
        CardTracker::from_cards(&[
            card(Suit::Spades, Denomination::Queen),
            card(Suit::Diamonds, Denomination::Ace),
            card(Suit::Clubs, Denomination::Three),
        ]),
        CardTracker::from_cards(&[
            card(Suit::Hearts, Denomination::Queen),
            card(Suit::Diamonds, Denomination::King),
            card(Suit::Clubs, Denomination::Ace),
        ]),
    ];
    let mut full = DoubleDummySolver::default();
    let with_shortcuts = full.solve(hands);
    let plain = DdsConfig {
        move_ordering: false,
        check_quick_tricks: false,
        quick_tricks_in_second_hand: false,
        use_transposition_table: false,
        check_losing_tricks: false,
        pre_estimate: false,
        multi_threading: false,
    };
    let mut bare = DoubleDummySolver::new(plain);
    let without = bare.solve(hands);
    assert_eq!(with_shortcuts.max_tricks, without.max_tricks);
    for tricks in without.max_tricks {
        assert!(tricks <= 3);
    }
}

#[test]
fn strains_are_solved_no_trumps_first() {
    assert_eq!(strain_at(0), Strain::NoTrump);
    assert_eq!(strain_at(1), Strain::Trump(Suit::Spades));
    assert_eq!(strain_at(4), Strain::Trump(Suit::Clubs));
}

#[test]
fn initial_estimate_comes_from_the_hand_evaluation() {
    let deal = Deal::new_from_number(3);
    let leader = PlayerPosition::East;
    let mine = deal.hand_of(PlayerPosition::East);
    let partners = deal.hand_of(PlayerPosition::West);
    let ptc = ForumDPlus2015Evaluator::playing_trick_count_halves(&mine) as usize / 2
        + ForumDPlus2015Evaluator::playing_trick_count_halves(&partners) as usize / 2;
    assert_eq!(get_initial_estimate(&deal, Strain::NoTrump, leader), ptc.min(13));
    let ltc = ForumDPlus2015Evaluator::losing_trick_count_halves(&mine) as usize / 2;
    assert_eq!(get_initial_estimate(&deal, Strain::Trump(Suit::Hearts), leader), 13 - ltc);
}

#[test]
fn a_given_first_question_does_not_change_the_answer() {
    let hands = [
        one_card(Suit::Spades, Denomination::Ace),
        one_card(Suit::Hearts, Denomination::Two),
        one_card(Suit::Spades, Denomination::King),
        one_card(Suit::Spades, Denomination::Queen),
    ];
    let mut runner = DoubleDummyRunner::default();
    for first in [0usize, 1] {
        assert_eq!(
            runner.solve_initial_position_from(hands, Strain::NoTrump, PlayerPosition::East, Some(first)),
            1
        );
        assert_eq!(
            runner.solve_initial_position_from(hands, Strain::Trump(Suit::Spades), PlayerPosition::East, Some(first)),
            0
        );
    }
}

/// The tricks the side of `next` takes from here with best play by both sides, tried card by
/// card; `trick` holds the cards played to the current trick with their seats.
fn best_play(hands: &mut Vec<Vec<Card>>, trick: &mut Vec<(usize, Card)>, next: usize, trumps: Option<Suit>) -> usize {
    let remaining = (hands.iter().map(|h| h.len()).sum::<usize>() + trick.len()) / 4;
    if remaining == 0 {
        return 0;
    }
    let hand = hands[next].clone();
    let follow: Vec<Card> = match trick.first() {
        Some((_, lead)) => hand.iter().copied().filter(|c| c.suit == lead.suit).collect(),
        None => Vec::new(),
    };
    let legal = if follow.is_empty() { hand.clone() } else { follow };
    let mut best = 0;
    for c in legal {
        let at = hands[next].iter().position(|x| *x == c).unwrap();
        hands[next].remove(at);
        trick.push((next, c));
        let mine = if trick.len() == 4 {
            let mut winner = trick[0];
            for &(seat, played) in trick.iter().skip(1) {
                let beats = if played.suit == winner.1.suit {
                    played.denomination.index() > winner.1.denomination.index()
                } else {
                    Some(played.suit) == trumps
                };
                if beats {
                    winner = (seat, played);
                }
            }
            let saved = trick.clone();
            trick.clear();
            let rest = best_play(hands, trick, winner.0, trumps);
            *trick = saved;
            if winner.0 % 2 == next % 2 { 1 + rest } else { remaining - 1 - rest }
        } else {
            remaining - best_play(hands, trick, (next + 1) % 4, trumps)
        };
        trick.pop();
        hands[next].insert(at, c);
        best = best.max(mine);
    }
    best
}

/// Twelve cards dealt three to a seat, picked from the pack by a simple generator.
fn small_deal(seed: u64) -> Vec<Vec<Card>> {
    let mut pack: Vec<Card> = Vec::new();
    for s in 0..4u8 {
        for d in 0..13u8 {
            pack.push(card(Suit::from_index(s), Denomination::from_index(d)));
        }
    }
    let mut x = seed;
    let mut hands = vec![Vec::new(), Vec::new(), Vec::new(), Vec::new()];
    for i in 0..12 {
        x = x.wrapping_mul(6364136223846793005).wrapping_add(1442695040888963407);
        let k = ((x >> 33) % pack.len() as u64) as usize;
        hands[i % 4].push(pack.remove(k));
    }
    hands
}

#[test]
fn search_without_shortcuts_finds_the_perfect_play_tricks() {
    let exhaustive = DdsConfig {
        move_ordering: true,
        check_quick_tricks: false,
        quick_tricks_in_second_hand: false,
        use_transposition_table: false,
        check_losing_tricks: false,
        pre_estimate: false,
        multi_threading: true,
    };
    for seed in 1..9u64 {
        let mut hands = small_deal(seed);
        let trackers = [
            CardTracker::from_cards(&hands[0]),
            CardTracker::from_cards(&hands[1]),
            CardTracker::from_cards(&hands[2]),
            CardTracker::from_cards(&hands[3]),
        ];
        let table = DoubleDummySolver::new(exhaustive).solve(trackers).max_tricks;
        let mut unordered = exhaustive;
        unordered.move_ordering = false;
        unordered.multi_threading = false;
        let single = DoubleDummySolver::new(unordered).solve(trackers).max_tricks;
        for declarer in 0..4usize {
            for column in 0..5usize {
                let trumps = if column == 4 { None } else { Some(Suit::from_index(column as u8)) };
                let leader = (declarer + 1) % 4;
                let defenders = best_play(&mut hands, &mut Vec::new(), leader, trumps);
                assert_eq!(table[5 * declarer + column], 3 - defenders);
                assert_eq!(single[5 * declarer + column], 3 - defenders);
            }
        }
    }
}

#[test]
fn double_dummy_state_answers_questions_about_the_play() {
    let hands = [
        CardTracker::from_cards(&[card(Suit::Spades, Denomination::Ace), card(Suit::Hearts, Denomination::Two)]),
        CardTracker::from_cards(&[card(Suit::Spades, Denomination::King), card(Suit::Clubs, Denomination::Three)]),
        CardTracker::from_cards(&[card(Suit::Hearts, Denomination::Queen), card(Suit::Hearts, Denomination::Four)]),
        CardTracker::from_cards(&[card(Suit::Spades, Denomination::Jack), card(Suit::Hearts, Denomination::Five)]),
    ];
    let mut game = DoubleDummyState::new(hands, PlayerPosition::North, Some(Suit::Hearts), 2);
    assert_eq!(game.valid_moves().len(), 2);
    assert!(game.player_is_void_in(Suit::Hearts, PlayerPosition::East));
    assert!(game.player_has_singleton_in(Suit::Spades, PlayerPosition::North));
    assert!(game.player_has_doubleton_in(Suit::Hearts, PlayerPosition::South));
    assert_eq!(game.count_trump_cards_for_player(PlayerPosition::South), 2);
    assert_eq!(game.count_this_sides_trump_cards(), 3);
    assert_eq!(game.count_opponents_trump_cards(), 1);
    assert!(game.partner_has_higher_cards_than_opponents(Suit::Hearts, PlayerPosition::North));
    game.play(card(Suit::Spades, Denomination::Ace));
    // East must follow with the King of Spades
    assert_eq!(game.valid_moves(), vec![card(Suit::Spades, Denomination::King)]);
    assert_eq!(game.suit_to_follow(), Some(Suit::Spades));
    assert!(!game.would_win_over_current_winner(&card(Suit::Spades, Denomination::King)));
    game.play(card(Suit::Spades, Denomination::King));
    // South has no Spades: both of its Hearts may be played, and either ruffs
    assert_eq!(game.valid_moves_for(PlayerPosition::South).len(), 2);
    assert!(game.would_win_over_current_winner(&card(Suit::Hearts, Denomination::Four)));
    game.play(card(Suit::Hearts, Denomination::Four));
    assert_eq!(game.current_trick_winner(), PlayerPosition::South);
    assert_eq!(game.currently_winning_card(), Some(card(Suit::Hearts, Denomination::Four)));
    game.play(card(Suit::Spades, Denomination::Jack));
    assert_eq!(game.last_trick_winner(), Some(PlayerPosition::South));
    assert_eq!(game.tricks_won_by_axis(PlayerPosition::North), 1);
    assert_eq!(game.out_of_play_cards().len(), 4);
    assert_eq!(game.list_played_cards()[2], card(Suit::Hearts, Denomination::Four));
    assert_eq!(game.count_played_cards(), 4);
    assert_eq!(game.count_cards_in_current_trick(), 0);
    assert!(game.is_last_trick());
    assert_eq!(game.tricks_left(), 1);
    assert_eq!(game.trump_suit(), Some(Suit::Hearts));
    assert_eq!(game.remaining_cards_of(PlayerPosition::South), vec![card(Suit::Hearts, Denomination::Queen)]);
    assert!(game.remaining_cards_of_player_in_suit(PlayerPosition::East, Suit::Spades).is_empty());
    assert!(game.player_has_higher_cards_in_suit_than_other(PlayerPosition::South, Suit::Hearts, PlayerPosition::North));
}

#[test]
fn virtual_state_counts_trumps_by_side() {
    let hands = [
        CardTracker::from_cards(&[card(Suit::Spades, Denomination::Ace), card(Suit::Hearts, Denomination::Two)]),
        CardTracker::from_cards(&[card(Suit::Spades, Denomination::King), card(Suit::Clubs, Denomination::Three)]),
        CardTracker::from_cards(&[card(Suit::Hearts, Denomination::Queen), card(Suit::Hearts, Denomination::Four)]),
        CardTracker::from_cards(&[card(Suit::Spades, Denomination::Jack), card(Suit::Hearts, Denomination::Five)]),
    ];
    let mut state = VirtualState::new(hands, PlayerPosition::North, Some(Suit::Hearts), 2);
    assert_eq!(state.count_this_sides_trump_cards(), 3);
    assert_eq!(state.count_opponents_trump_cards(), 1);
    assert!(state.partner_has_higher_cards_than_opponents(Suit::Hearts, PlayerPosition::North));
    let ace = VirtualCard { suit: Suit::Spades, rank: VirtualRank::Ace };
    assert!(state.would_win_over_current_winner(ace));
    assert!(state.play(&ace).is_ok());
    let king = VirtualCard { suit: Suit::Spades, rank: VirtualRank::King };
    assert!(!state.would_win_over_current_winner(king));
}

/// The tricks North-South take when North leads `lead` and every seat then plays as well as
/// it can.
fn after_lead(hands: &[Vec<Card>], lead: Card, trumps: Option<Suit>) -> usize {
    let mut rest: Vec<Vec<Card>> = hands.to_vec();
    let at = rest[0].iter().position(|x| *x == lead).unwrap();
    rest[0].remove(at);
    let tricks = hands[0].len();
    tricks - best_play(&mut rest, &mut vec![(0, lead)], 1, trumps)
}

#[test]
fn touching_cards_bring_the_same_tricks() {
    let hands = vec![
        vec![card(Suit::Spades, Denomination::King), card(Suit::Spades, Denomination::Queen), card(Suit::Hearts, Denomination::Two)],
        vec![card(Suit::Spades, Denomination::Ace), card(Suit::Hearts, Denomination::Ace), card(Suit::Clubs, Denomination::Two)],
        vec![card(Suit::Spades, Denomination::Two), card(Suit::Hearts, Denomination::King), card(Suit::Hearts, Denomination::Queen)],
        vec![card(Suit::Spades, Denomination::Jack), card(Suit::Clubs, Denomination::Ace), card(Suit::Clubs, Denomination::King)],
    ];
    for trumps in [None, Some(Suit::Spades), Some(Suit::Hearts)] {
        let king = after_lead(&hands, card(Suit::Spades, Denomination::King), trumps);
        let queen = after_lead(&hands, card(Suit::Spades, Denomination::Queen), trumps);
        assert_eq!(king, queen);
    }
    // at no trumps East wins the first trick with the Ace of Spades and keeps the lead
    assert_eq!(after_lead(&hands, card(Suit::Spades, Denomination::King), None), 0);
}

#[test]
fn only_the_order_of_the_cards_in_play_counts() {
    let low = vec![
        vec![card(Suit::Spades, Denomination::Eight), card(Suit::Hearts, Denomination::Two), card(Suit::Clubs, Denomination::Two)],
        vec![card(Suit::Spades, Denomination::Five), card(Suit::Hearts, Denomination::Three), card(Suit::Clubs, Denomination::Three)],
        vec![card(Suit::Spades, Denomination::Three), card(Suit::Hearts, Denomination::Four), card(Suit::Clubs, Denomination::Four)],
        vec![card(Suit::Diamonds, Denomination::Two), card(Suit::Hearts, Denomination::Five), card(Suit::Clubs, Denomination::Five)],
    ];
    // the Eight, Five and Three of Spades become the Ace, King and Queen
    let high: Vec<Vec<Card>> = low
        .iter()
        .map(|hand| {
            hand.iter()
                .map(|c| match (c.suit, c.denomination) {
                    (Suit::Spades, Denomination::Eight) => card(Suit::Spades, Denomination::Ace),
                    (Suit::Spades, Denomination::Five) => card(Suit::Spades, Denomination::King),
                    (Suit::Spades, Denomination::Three) => card(Suit::Spades, Denomination::Queen),
                    _ => *c,
                })
                .collect()
        })
        .collect();
    for leader in 0..4usize {
        for trumps in [None, Some(Suit::Spades), Some(Suit::Hearts), Some(Suit::Diamonds)] {
            let a = best_play(&mut low.clone(), &mut Vec::new(), leader, trumps);
            let b = best_play(&mut high.clone(), &mut Vec::new(), leader, trumps);
            assert_eq!(a, b);
        }
    }
    let trackers = |hands: &Vec<Vec<Card>>| {
        [
            CardTracker::from_cards(&hands[0]),
            CardTracker::from_cards(&hands[1]),
            CardTracker::from_cards(&hands[2]),
            CardTracker::from_cards(&hands[3]),
        ]
    };
    let exhaustive = DdsConfig {
        move_ordering: true,
        check_quick_tricks: false,
        quick_tricks_in_second_hand: false,
        use_transposition_table: false,
        check_losing_tricks: false,
        pre_estimate: false,
        multi_threading: false,
    };
    let table_low = DoubleDummySolver::new(exhaustive).solve(trackers(&low)).max_tricks;
    let table_high = DoubleDummySolver::new(exhaustive).solve(trackers(&high)).max_tricks;
    assert_eq!(table_low, table_high);
}

/// A deal of two cards a hand: North ♠6 ♥5, East ♣8 ♥Q, South ♠7 ♥K, West ♦T ♠2.
fn short_deal() -> [CardTracker; 4] {
    [
        CardTracker::from_cards(&[card(Suit::Spades, Denomination::Six), card(Suit::Hearts, Denomination::Five)]),
        CardTracker::from_cards(&[card(Suit::Clubs, Denomination::Eight), card(Suit::Hearts, Denomination::Queen)]),
        CardTracker::from_cards(&[card(Suit::Spades, Denomination::Seven), card(Suit::Hearts, Denomination::King)]),
        CardTracker::from_cards(&[card(Suit::Diamonds, Denomination::Ten), card(Suit::Spades, Denomination::Two)]),
    ]
}

#[test]
fn short_deal_records_cards_at_their_own_ranks() {
    // The records place each card at its own rank, so with a suit not dealt in full the top
    // place is empty and reads as North's: here East holds the only club.
    let state = VirtualState::new(short_deal(), PlayerPosition::West, Some(Suit::Clubs), 2);
    let e = state.create_estimation_state();
    assert_eq!(e.ace_owners[Suit::Clubs.index() as usize], Some(PlayerPosition::North));
    assert_eq!(e.card_counts[PlayerPosition::East.index() as usize][Suit::Clubs.index() as usize], 1);
    // Moved up to the top ranks, East's Eight of clubs is the Ace, and the records say so.
    let moved = move_up_ranks(&short_deal());
    assert!(moved[1].contains(&card(Suit::Clubs, Denomination::Ace)));
    assert!(moved[2].contains(&card(Suit::Spades, Denomination::Ace)));
    assert!(moved[0].contains(&card(Suit::Spades, Denomination::King)));
    assert!(moved[3].contains(&card(Suit::Spades, Denomination::Queen)));
    let state = VirtualState::new(moved, PlayerPosition::West, Some(Suit::Clubs), 2);
    let e = state.create_estimation_state();
    assert_eq!(e.ace_owners[Suit::Clubs.index() as usize], Some(PlayerPosition::East));
}

#[test]
fn shortcuts_judge_a_short_deal_right() {
    // With clubs trumps and South declaring, West leads the Ten of diamonds, East keeps the
    // Eight of clubs and ruffs the spade that follows: South's side takes no trick. The
    // solver moves the cards of each suit up to the top ranks before searching, so the search
    // with its shortcuts finds that too.
    let mut hands: Vec<Vec<Card>> = vec![
        vec![card(Suit::Spades, Denomination::Six), card(Suit::Hearts, Denomination::Five)],
        vec![card(Suit::Clubs, Denomination::Eight), card(Suit::Hearts, Denomination::Queen)],
        vec![card(Suit::Spades, Denomination::Seven), card(Suit::Hearts, Denomination::King)],
        vec![card(Suit::Diamonds, Denomination::Ten), card(Suit::Spades, Denomination::Two)],
    ];
    assert_eq!(best_play(&mut hands, &mut Vec::new(), 3, Some(Suit::Clubs)), 2);
    let plain = DdsConfig {
        move_ordering: true,
        check_quick_tricks: false,
        quick_tricks_in_second_hand: false,
        use_transposition_table: false,
        check_losing_tricks: false,
        pre_estimate: false,
        multi_threading: false,
    };
    let without = DoubleDummySolver::new(plain).solve(short_deal()).max_tricks;
    let with_shortcuts = DoubleDummySolver::default().solve(short_deal()).max_tricks;
    assert_eq!(without[5 * 2], 0);
    assert_eq!(with_shortcuts, without);
    let mut losing_only = plain;
    losing_only.check_losing_tricks = true;
    assert_eq!(DoubleDummySolver::new(losing_only).solve(short_deal()).max_tricks, without);
}

#[test]
fn quick_tricks_miscount_blocked_winners() {
    // North ♦7 ♥A ♠9 ♠8, East ♣9 ♥8 ♣5 ♦9, South ♥9 ♦6 ♥Q ♠Q, West ♦Q ♦T ♣2 ♦3; no trumps,
    // East declaring, South on lead. North's singleton Ace of hearts and South's singleton
    // Queen of spades each block a suit, so North and South take three tricks, not four:
    // East takes one. The quick-trick estimate counts four for North and South.
    let cards = [
        vec![
            card(Suit::Diamonds, Denomination::Seven),
            card(Suit::Hearts, Denomination::Ace),
            card(Suit::Spades, Denomination::Eight),
            card(Suit::Spades, Denomination::Nine),
        ],
        vec![
            card(Suit::Clubs, Denomination::Nine),
            card(Suit::Hearts, Denomination::Eight),
            card(Suit::Clubs, Denomination::Five),
            card(Suit::Diamonds, Denomination::Nine),
        ],
        vec![
            card(Suit::Hearts, Denomination::Nine),
            card(Suit::Diamonds, Denomination::Six),
            card(Suit::Hearts, Denomination::Queen),
            card(Suit::Spades, Denomination::Queen),
        ],
        vec![
            card(Suit::Diamonds, Denomination::Queen),
            card(Suit::Diamonds, Denomination::Ten),
            card(Suit::Clubs, Denomination::Two),
            card(Suit::Diamonds, Denomination::Three),
        ],
    ];
    let mut hands: Vec<Vec<Card>> = cards.to_vec();
    assert_eq!(best_play(&mut hands, &mut Vec::new(), 2, None), 3);
    let trackers = [
        CardTracker::from_cards(&cards[0]),
        CardTracker::from_cards(&cards[1]),
        CardTracker::from_cards(&cards[2]),
        CardTracker::from_cards(&cards[3]),
    ];
    let plain = DdsConfig {
        move_ordering: true,
        check_quick_tricks: false,
        quick_tricks_in_second_hand: false,
        use_transposition_table: false,
        check_losing_tricks: false,
        pre_estimate: false,
        multi_threading: false,
    };
    let east_no_trumps = 5 * 1 + 4;
    assert_eq!(DoubleDummySolver::new(plain).solve(trackers).max_tricks[east_no_trumps], 1);
    let mut quick_only = plain;
    quick_only.check_quick_tricks = true;
    assert_eq!(DoubleDummySolver::new(quick_only).solve(trackers).max_tricks[east_no_trumps], 0);
    assert_eq!(DoubleDummySolver::default().solve(trackers).max_tricks[east_no_trumps], 0);
}
