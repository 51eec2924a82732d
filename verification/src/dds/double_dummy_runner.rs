//! One search at a time: how many tricks the side on lead takes from a position, found by
//! asking again and again whether it takes at least a given number, helped by estimates and by
//! a table of bounds for positions already searched.
use crate::card::{Card, Suit};
use crate::dds::card_tracker::CardTracker;
use crate::dds::rank_compression::{lemma_moved_up_same_value, move_up_ranks};
use crate::dds::dds_config::DdsConfig;
use crate::dds::dds_statistics::{counts_grow, DdsStatistics};
use crate::dds::double_dummy_result::Strain;
use crate::dds::double_dummy_state::{hand_size, lemma_holds_bit, seat_offset};
use crate::dds::move_generator::MoveGenerator;
use crate::dds::suit_field::ones;
use crate::dds::transposition_table::{
    with_lower_bound, with_upper_bound, TTKey, TTValue, TranspositionTable,
};
use crate::dds::trick_estimations::{
    lemma_losing_tricks_bound, lemma_nt_sums_fit, lemma_quick_tricks_for_leader_bound,
    lemma_quick_tricks_for_second_hand_bound, losing_tricks_for_leader, quick_tricks_for_leader,
    quick_tricks_for_leader_spec, quick_tricks_for_second_hand, quick_tricks_for_second_hand_spec,
    sum_below, EstimationState,
};
use crate::dds::virtual_card::VirtualCard;
use crate::dds::virtual_card_tracker::{lemma_virtual_view, virtual_view};
use crate::dds::virtual_state::{
    lemma_candidate_held, lemma_cards_in_spec_nonempty, lemma_listed_card_held,
    lemma_undo_undoes_play, VirtualState,
};
use crate::dds::move_generator::{candidate_cards, sequences, DdsMove, PlayView};
use crate::dds::perfect_play::{
    lemma_finished_value_for, lemma_forced_play, lemma_position_step, lemma_seat_offset,
    lemma_value_at_most, lemma_value_bounds, lemma_value_is_best, outcome, value, value_for, Position,
};
use crate::dds::touching_moves::{card_of, lemma_candidate_legal, lemma_moves_cover, shows};
use crate::deal::{Deal, PlayerPosition};
use crate::evaluator::{holding, suit_losers, suit_playing_tricks, ForumDPlus2015Evaluator};
use crate::hand::{count_suit, Hand};
use vstd::prelude::*;

verus! {

/// The hands of a deal of `n` tricks (North, East, South, West): within the thirteen
/// denominations, `n` cards each, and no card held twice.
pub open spec fn valid_hands(hands: [CardTracker; 4], n: nat) -> bool {
    &&& 1 <= n <= 13
    &&& forall|i: int| 0 <= i < 4 ==> (#[trigger] hands@[i]).within_ranks()
    &&& forall|i: int| 0 <= i < 4 ==> hand_size(#[trigger] hands@[i]) == n
    &&& forall|i: int, j: int, c: Card|
        #![trigger hands@[i]@.contains(c), hands@[j]@.contains(c)]
        0 <= i < 4 && 0 <= j < 4 && hands@[i]@.contains(c) && hands@[j]@.contains(c) ==> i == j
}

/// No bound in the table is above the tricks left in its position.
pub open spec fn bounds_fit(table: Map<TTKey, TTValue>) -> bool {
    forall|k: TTKey| #[trigger]
        table.contains_key(k) ==> table[k].at_least <= k.tricks_left && table[k].at_most
            <= k.tricks_left
}

/// `k` is the key of the position.
pub open spec fn key_of(k: TTKey, state: VirtualState) -> bool {
    &&& k.tricks_left == state.tricks().left()
    &&& k.trumps == state.tricks().trump()
    &&& k.lead == state.tricks().next()
    &&& forall|s: Suit| #[trigger]
        k.remaining_cards@[s.rank() as int] == state.distribution().current().word(s)
}

/// A position has one key.
pub proof fn lemma_key_of_unique(k1: TTKey, k2: TTKey, state: VirtualState)
    requires
        key_of(k1, state),
        key_of(k2, state),
    ensures
        k1 == k2,
{
    assert(k1.remaining_cards@[Suit::Clubs.rank() as int] == k2.remaining_cards@[Suit::Clubs.rank() as int]);
    assert(k1.remaining_cards@[Suit::Diamonds.rank() as int] == k2.remaining_cards@[Suit::Diamonds.rank() as int]);
    assert(k1.remaining_cards@[Suit::Hearts.rank() as int] == k2.remaining_cards@[Suit::Hearts.rank() as int]);
    assert(k1.remaining_cards@[Suit::Spades.rank() as int] == k2.remaining_cards@[Suit::Spades.rank() as int]);
    assert(k1.remaining_cards =~= k2.remaining_cards);
}

/// The tricks the side of the seat to play has won.
pub open spec fn current_tricks(state: VirtualState) -> int {
    state.tricks().won_by(state.tricks().next()) as int
}

/// A score of the position: at least the tricks the side to play has won, at most those and
/// all the tricks left.
pub open spec fn score_in_range(state: VirtualState, score: int) -> bool {
    current_tricks(state) <= score <= current_tricks(state) + state.tricks().left()
}

/// The trumps of a strain.
pub open spec fn trumps_of(strain: Strain) -> Option<Suit> {
    match strain {
        Strain::Trump(s) => Some(s),
        Strain::NoTrump => None,
    }
}

/// The position before the opening lead: the hands (North to West), no card played, the
/// opening leader, the trumps of the strain and one trick per card of a hand.
pub open spec fn deal_start(
    hands: [CardTracker; 4],
    strain: Strain,
    opening_leader: PlayerPosition,
) -> Position {
    Position {
        hands: Seq::new(4, |i: int| hands@[i]@),
        played: Seq::empty(),
        opening: opening_leader,
        trumps: trumps_of(strain),
        n: hand_size(hands@[0]),
    }
}

/// The bounds a table holds for a key, if any.
pub open spec fn table_entry(table: Map<TTKey, TTValue>, k: TTKey) -> Option<TTValue> {
    if table.contains_key(k) {
        Some(table[k])
    } else {
        None
    }
}

/// What known bounds settle, with `won` tricks won: the lower bound when it reaches the
/// estimate, else the upper bound when it falls short of it, else nothing.
pub open spec fn table_answer(entry: Option<TTValue>, won: int, estimate: int) -> Option<usize> {
    match entry {
        None => None,
        Some(v) => if won + v.at_least >= estimate {
            Some((won + v.at_least) as usize)
        } else if won + v.at_most < estimate {
            Some((won + v.at_most) as usize)
        } else {
            None
        },
    }
}

/// A total of tricks the side surely takes settles the question when it reaches the estimate.
pub open spec fn reached(total: int, estimate: int) -> Option<usize> {
    if total >= estimate {
        Some(total as usize)
    } else {
        None
    }
}

/// A total of tricks the side takes at most settles the question when it falls short of the
/// estimate.
pub open spec fn short_of(total: int, estimate: int) -> Option<usize> {
    if total < estimate {
        Some(total as usize)
    } else {
        None
    }
}

/// `after` is the table `before` with the lower bound `bound` recorded under the key of the
/// state, which `key` holds.
#[verifier::opaque]
pub open spec fn records_lower(
    before: Map<TTKey, TTValue>,
    after: Map<TTKey, TTValue>,
    key: Option<TTKey>,
    state: VirtualState,
    bound: int,
) -> bool {
    key matches Some(k) && key_of(k, state) && after == before.insert(
        k,
        with_lower_bound(table_entry(before, k), bound as usize, k.tricks_left),
    )
}

/// `after` is the table `before` with the upper bound `bound` recorded under the key of the
/// state, which `key` holds.
#[verifier::opaque]
pub open spec fn records_upper(
    before: Map<TTKey, TTValue>,
    after: Map<TTKey, TTValue>,
    key: Option<TTKey>,
    state: VirtualState,
    bound: int,
) -> bool {
    key matches Some(k) && key_of(k, state) && after == before.insert(
        k,
        with_upper_bound(table_entry(before, k), bound as usize),
    )
}

/// `r` is what the bounds `table` holds under the key of the state, which `key` holds, settle
/// about the estimate.
#[verifier::opaque]
pub open spec fn answers_from_table(
    table: Map<TTKey, TTValue>,
    key: Option<TTKey>,
    state: VirtualState,
    estimate: int,
    r: Option<usize>,
) -> bool {
    key matches Some(k) && key_of(k, state) && r == table_answer(
        table_entry(table, k),
        current_tricks(state),
        estimate,
    )
}

/// The quick tricks of the side on lead, read from the four seats' cards.
pub open spec fn leader_quick_tricks(state: VirtualState) -> int {
    let me = state.tricks().next();
    quick_tricks_for_leader_spec(
        virtual_view::<'static>(state.hand(me), state.converter()),
        virtual_view::<'static>(state.hand(me.turned(1)), state.converter()),
        virtual_view::<'static>(state.hand(me.turned(2)), state.converter()),
        virtual_view::<'static>(state.hand(me.turned(3)), state.converter()),
        state.tricks().trump(),
    )
}

/// The quick tricks of the side of the second player to a trick, read from its cards, its
/// partner's and the next player's.
pub open spec fn second_hand_quick_tricks(state: VirtualState) -> int {
    let me = state.tricks().next();
    quick_tricks_for_second_hand_spec(
        virtual_view::<'static>(state.hand(me), state.converter()),
        virtual_view::<'static>(state.hand(me.turned(1)), state.converter()),
        virtual_view::<'static>(state.hand(me.turned(2)), state.converter()),
        state.tricks().trump(),
        state.tricks().lead_suit().unwrap(),
    )
}

/// A score found against an estimate bounds the tricks the side ends with: at or above the
/// estimate, the side takes at least the score; below it, at most the score.
pub open spec fn bounds_value(score: int, value: int, estimate: int) -> bool {
    &&& score >= estimate ==> value >= score
    &&& score < estimate ==> value <= score
}

/// The score of a child position, seen from the seat that played the card leading to it.
proof fn lemma_child_score(
    s0: VirtualState,
    s1: VirtualState,
    card: Card,
    child: int,
    score: int,
)
    requires
        s0.wf(),
        s1.wf(),
        s1.played_to(s0, card),
        score_in_range(s1, child),
        s0.tricks().next().same_side(s1.tricks().next()) ==> score == child,
        !s0.tricks().next().same_side(s1.tricks().next()) ==> score == s0.tricks().total() - child,
    ensures
        score_in_range(s0, score),
{
    let t0 = s0.tricks();
    let t1 = s1.tricks();
    let me = t0.next();
    let new = t1.next();
    t0.lemma_won_step(t1, card, me);
    t1.lemma_won_sides(me, new);
    t1.lemma_wf_bounds();
    t0.lemma_wf_bounds();
}

/// The last trick is played out card by card, each seat holding one card: the position is
/// worth the tricks the side on lead has won once it is over.
proof fn lemma_last_trick_value(
    s0: VirtualState,
    s1: VirtualState,
    s2: VirtualState,
    s3: VirtualState,
    s4: VirtualState,
    c1: Card,
    c2: Card,
    c3: Card,
    c4: Card,
)
    requires
        s0.wf(),
        s1.wf(),
        s2.wf(),
        s3.wf(),
        s4.wf(),
        s0.tricks().left() == 1,
        s0.tricks().in_trick() == 0,
        s1.played_to(s0, c1),
        s2.played_to(s1, c2),
        s3.played_to(s2, c3),
        s4.played_to(s3, c4),
    ensures
        value(s0.position()) == s4.tricks().won_by(s0.tricks().next()),
{
    let lead = s0.tricks().next();
    s0.lemma_position();
    s1.lemma_position();
    s2.lemma_position();
    s3.lemma_position();
    s4.lemma_position();
    s1.lemma_position_played(s0, c1);
    s2.lemma_position_played(s1, c2);
    s3.lemma_position_played(s2, c3);
    s4.lemma_position_played(s3, c4);
    let p0 = s0.position();
    let p1 = s1.position();
    let p2 = s2.position();
    let p3 = s3.position();
    let p4 = s4.position();
    lemma_position_step(p0, c1, lead);
    lemma_position_step(p1, c2, lead);
    lemma_position_step(p2, c3, lead);
    lemma_position_step(p3, c4, lead);
    let l = p0.leader();
    lemma_seat_offset(l, 0);
    lemma_seat_offset(l, 1);
    lemma_seat_offset(l, 2);
    lemma_seat_offset(l, 3);
    assert(p0.hand(p0.next()).len() == 1);
    assert(p1.hand(p1.next()).len() == 1);
    assert(p2.hand(p2.next()).len() == 1);
    assert(p3.hand(p3.next()).len() == 1);
    lemma_forced_play(p0, c1, lead);
    lemma_forced_play(p1, c2, lead);
    lemma_forced_play(p2, c3, lead);
    lemma_forced_play(p3, c4, lead);
    lemma_finished_value_for(p4, lead);
}

/// The cards the moves stand for in a state.
pub open spec fn cards_of_moves(state: VirtualState, moves: Seq<DdsMove>) -> Seq<Card> {
    Seq::new(moves.len(), |i: int| card_of(state, moves[i].card))
}

/// The moves found for a state: each stands for a card the seat to play may play, and every
/// card it may play brings the outcome of one of them.
proof fn lemma_moves_found(state: VirtualState, view: PlayView, moves: Seq<DdsMove>)
    requires
        state.wf(),
        state.tricks().left() >= 1,
        view.next_to_play == state.tricks().next(),
        view.suit_to_follow == state.tricks().lead_suit(),
        forall|p: PlayerPosition| #[trigger] view.hand(p).tracker() == state.hand(p),
        forall|p: PlayerPosition| #[trigger] view.hand(p).converter() == state.converter(),
        crate::dds::move_generator::can_order_moves(view),
        forall|i: int| 0 <= i < moves.len() ==> candidate_cards(view).contains((#[trigger] moves[i]).card),
        forall|k: int|
            #![trigger sequences(candidate_cards(view))[k]]
            0 <= k < sequences(candidate_cards(view)).len() ==> exists|i: int|
                0 <= i < moves.len() && (#[trigger] moves[i]).card == sequences(
                    candidate_cards(view),
                )[k].card,
    ensures
        forall|i: int|
            0 <= i < moves.len() ==> state.position().legal(
                #[trigger] cards_of_moves(state, moves)[i],
            ),
        forall|c: Card|
            #![trigger state.position().legal(c)]
            state.position().legal(c) ==> exists|i: int|
                0 <= i < moves.len() && #[trigger] outcome(
                    state.position(),
                    cards_of_moves(state, moves)[i],
                ) == outcome(state.position(), c),
{
    let tried = cards_of_moves(state, moves);
    assert(shows(view, state));
    assert forall|i: int| 0 <= i < moves.len() implies state.position().legal(#[trigger] tried[i]) by {
        lemma_candidate_legal(state, view, moves[i].card);
    }
    lemma_moves_cover(state, view);
    let seqs = sequences(candidate_cards(view));
    assert forall|c: Card| #![trigger state.position().legal(c)] state.position().legal(c) implies exists|i: int|
        0 <= i < moves.len() && #[trigger] outcome(state.position(), tried[i])
            == outcome(state.position(), c) by {
        let k = choose|k: int|
            0 <= k < seqs.len() && #[trigger] outcome(state.position(), card_of(state, seqs[k].card))
                == outcome(state.position(), c);
        assert(seqs[k] == seqs[k]);
        let i = choose|i: int| 0 <= i < moves.len() && (#[trigger] moves[i]).card == seqs[k].card;
        assert(outcome(state.position(), tried[i]) == outcome(state.position(), c));
    }
}

/// States in the same position stand for the same position of the play and read virtual cards
/// alike.
proof fn lemma_same_position_model(a: VirtualState, b: VirtualState, vc: VirtualCard)
    requires
        a.same_position(b),
    ensures
        a.position() == b.position(),
        card_of(a, vc) == card_of(b, vc),
{
    assert(a.position().hands =~= b.position().hands);
}

/// Every tried card is one the seat may play, and every card it may play brings the outcome
/// of a tried card.
#[verifier::opaque]
pub open spec fn covers(pos: Position, tried: Seq<Card>) -> bool {
    &&& forall|i: int| 0 <= i < tried.len() ==> pos.legal(#[trigger] tried[i])
    &&& forall|c: Card|
        #![trigger pos.legal(c)]
        pos.legal(c) ==> exists|i: int|
            0 <= i < tried.len() && #[trigger] outcome(pos, tried[i]) == outcome(pos, c)
}

/// The first `k` tried cards bring at most `highest`.
#[verifier::opaque]
pub open spec fn tried_below(pos: Position, tried: Seq<Card>, k: int, highest: int) -> bool {
    forall|i: int| 0 <= i < k ==> outcome(pos, #[trigger] tried[i]) <= highest
}

/// Scoring one more tried card below the estimate keeps the tried cards at most the highest
/// score.
proof fn lemma_tried_step(pos: Position, tried: Seq<Card>, k: int, before: int, after: int)
    requires
        tried_below(pos, tried, k, before),
        before <= after,
        outcome(pos, tried[k]) <= after,
    ensures
        tried_below(pos, tried, k + 1, after),
{
    reveal(tried_below);
}

/// A move found worth at least the estimate shows the position worth at least its score.
proof fn lemma_cut(pos: Position, tried: Seq<Card>, k: int, score: int, estimate: int)
    requires
        !pos.finished(),
        covers(pos, tried),
        0 <= k < tried.len(),
        bounds_value(score, outcome(pos, tried[k]), estimate),
        score >= estimate,
    ensures
        bounds_value(score, value(pos), estimate),
{
    reveal(covers);
    assert(pos.legal(tried[k]));
    lemma_value_is_best(pos);
}

/// When every card the seat may play brings the outcome of a tried card, and every tried card
/// scored below the estimate with its outcome at most the highest score, the position is worth
/// at most that score.
#[verifier::spinoff_prover]
proof fn lemma_all_below(pos: Position, tried: Seq<Card>, highest: int, estimate: int)
    requires
        !pos.finished(),
        0 <= highest,
        covers(pos, tried),
        tried_below(pos, tried, tried.len() as int, highest),
        highest < estimate,
    ensures
        bounds_value(highest, value(pos), estimate),
{
    reveal(covers);
    reveal(tried_below);
    assert forall|c: Card| #![trigger pos.legal(c)] pos.legal(c) implies outcome(pos, c) <= highest by {
        let i = choose|i: int| 0 <= i < tried.len() && #[trigger] outcome(pos, tried[i]) == outcome(pos, c);
        assert(outcome(pos, tried[i]) <= highest);
    }
    lemma_value_at_most(pos, highest);
}

/// A count one higher, unless it is already the largest `usize`.
pub open spec fn one_more(n: usize) -> usize {
    if n < usize::MAX {
        (n + 1) as usize
    } else {
        n
    }
}

/// Counts that grow twice grow.
proof fn lemma_counts_grow_trans(a: DdsStatistics, b: DdsStatistics, c: DdsStatistics)
    requires
        counts_grow(a, b),
        counts_grow(b, c),
    ensures
        counts_grow(a, c),
{
    assert forall|i: int| 0 <= i < 4 implies a.node_count@[i] <= #[trigger] c.node_count@[i]
        && a.n_first_moves@[i] <= c.n_first_moves@[i] && a.n_first_move_is_best@[i]
        <= c.n_first_move_is_best@[i] && a.n_one_of_first_two_moves_is_best@[i]
        <= c.n_one_of_first_two_moves_is_best@[i] by {
        assert(a.node_count@[i] <= b.node_count@[i]);
        assert(b.node_count@[i] <= c.node_count@[i]);
    }
}

/// The same position has the same key.
proof fn lemma_key_of_same(k: TTKey, a: VirtualState, b: VirtualState)
    requires
        key_of(k, a),
        a.same_position(b),
    ensures
        key_of(k, b),
{
}

/// Being the same position is transitive.
proof fn lemma_same_position_trans(a: VirtualState, b: VirtualState, c: VirtualState)
    requires
        a.same_position(b),
        b.same_position(c),
    ensures
        a.same_position(c),
{
}

/// A card playable in a position is playable in the same position.
proof fn lemma_playable_same(a: VirtualState, b: VirtualState, card: VirtualCard)
    requires
        a.playable(card),
        b.same_position(a),
    ensures
        b.playable(card),
{
    assert(b.converter().out_of_play(card.suit) == a.converter().out_of_play(card.suit));
}

/// The playing tricks of a hand, in half tricks.
pub open spec fn playing_trick_halves(h: Hand) -> int {
    suit_playing_tricks(holding(h@, Suit::Clubs)) + suit_playing_tricks(holding(h@, Suit::Diamonds))
        + suit_playing_tricks(holding(h@, Suit::Hearts)) + suit_playing_tricks(
        holding(h@, Suit::Spades),
    )
}

/// The losing tricks of a hand, in half tricks.
pub open spec fn losing_trick_halves(h: Hand) -> int {
    suit_losers(holding(h@, Suit::Clubs)) + suit_losers(holding(h@, Suit::Diamonds)) + suit_losers(
        holding(h@, Suit::Hearts),
    ) + suit_losers(holding(h@, Suit::Spades))
}

/// A suit never has more half losers than twice its length.
proof fn lemma_losers_within_length(h: Seq<crate::card::Denomination>)
    ensures
        0 <= suit_losers(h) <= 2 * h.len(),
{
}

/// A hand of thirteen cards has at most thirteen losing tricks.
proof fn lemma_losing_tricks_at_most_thirteen(h: Hand)
    requires
        h@.len() == 13,
    ensures
        0 <= losing_trick_halves(h) <= 26,
{
    lemma_losers_within_length(holding(h@, Suit::Clubs));
    lemma_losers_within_length(holding(h@, Suit::Diamonds));
    lemma_losers_within_length(holding(h@, Suit::Hearts));
    lemma_losers_within_length(holding(h@, Suit::Spades));
    crate::hand::lemma_suit_counts_sum(h@);
    assert(holding(h@, Suit::Clubs).len() == count_suit(h@, Suit::Clubs));
    assert(holding(h@, Suit::Diamonds).len() == count_suit(h@, Suit::Diamonds));
    assert(holding(h@, Suit::Hearts).len() == count_suit(h@, Suit::Hearts));
    assert(holding(h@, Suit::Spades).len() == count_suit(h@, Suit::Spades));
}

/// The first question of a search of a full deal: at no trumps, the whole playing tricks of
/// the opening leader and of the partner added, at most thirteen; with trumps, thirteen less
/// the whole losing tricks of the opening leader.
pub fn get_initial_estimate(deal: &Deal, strain: Strain, opening_leader: PlayerPosition) -> (e:
    usize)
    ensures
        e <= 13,
        e == match strain {
            Strain::NoTrump => {
                let both = playing_trick_halves(deal@[opening_leader.rank() as int]) / 2
                    + playing_trick_halves(deal@[opening_leader.turned(2).rank() as int]) / 2;
                if both < 13 {
                    both
                } else {
                    13
                }
            },
            Strain::Trump(_) => 13 - losing_trick_halves(deal@[opening_leader.rank() as int]) / 2,
        },
{
    let my_hand = deal.hand_of(opening_leader);
    let partners_hand = deal.hand_of(opening_leader.partner());
    match strain {
        Strain::NoTrump => {
            let my_ptc = (ForumDPlus2015Evaluator::playing_trick_count_halves(&my_hand) / 2) as usize;
            let partners_ptc = (ForumDPlus2015Evaluator::playing_trick_count_halves(&partners_hand)
                / 2) as usize;
            if my_ptc + partners_ptc < 13 {
                my_ptc + partners_ptc
            } else {
                13
            }
        },
        Strain::Trump(_) => {
            let my_ltc = (ForumDPlus2015Evaluator::losing_trick_count_halves(&my_hand) / 2) as usize;
            let partners_ltc = (ForumDPlus2015Evaluator::losing_trick_count_halves(&my_hand) / 2) as usize;
            let min_ltc = if my_ltc < partners_ltc {
                my_ltc
            } else {
                partners_ltc
            };
            proof {
                use_type_invariant(&my_hand);
                my_hand.lemma_well_formed();
                lemma_losing_tricks_at_most_thirteen(my_hand);
            }
            13 - min_ltc
        },
    }
}

/// A search: the configuration, the table of bounds of positions searched, the counts gathered,
/// and the key of the position being searched once it has been computed.
pub struct DoubleDummyRunner {
    config: DdsConfig,
    transposition_table: TranspositionTable,
    statistics: DdsStatistics,
    current_node_tt_key: Option<TTKey>,
}

impl DoubleDummyRunner {
    /// The techniques the search uses.
    pub closed spec fn settings(self) -> DdsConfig {
        self.config
    }

    /// The bounds known per position.
    pub closed spec fn table(self) -> Map<TTKey, TTValue> {
        self.transposition_table@
    }

    /// The key of the position being searched, once computed.
    pub closed spec fn cached_key(self) -> Option<TTKey> {
        self.current_node_tt_key
    }

    /// The counts gathered.
    pub closed spec fn counts(self) -> DdsStatistics {
        self.statistics
    }

    /// No bound in the table is above the tricks left in its position.
    pub open spec fn wf(self) -> bool {
        bounds_fit(self.table())
    }

    /// The key computed, if any, is that of the position.
    pub open spec fn key_fits(self, state: VirtualState) -> bool {
        self.cached_key() matches Some(k) ==> key_of(k, state)
    }

    /// A search with the given techniques, an empty table and no counts.
    pub fn with_config(config: DdsConfig) -> (r: Self)
        ensures
            r.settings() == config,
            r.table() == Map::<TTKey, TTValue>::empty(),
            r.cached_key() is None,
            r.wf(),
    {
        Self {
            config,
            transposition_table: TranspositionTable::new(),
            statistics: DdsStatistics::default(),
            current_node_tt_key: None,
        }
    }

    /// The techniques the search uses.
    pub fn get_config(&self) -> (c: DdsConfig)
        ensures
            c == self.settings(),
    {
        self.config
    }

    /// The counts gathered so far.
    pub fn get_statistics(&self) -> (s: DdsStatistics)
        ensures
            s == self.counts(),
    {
        self.statistics
    }

    /// For each declarer (North to West), the tricks declarer takes in the strain, the left-hand
    /// opponent leading.
    pub fn solve_for_all_declarers(&mut self, hands: [CardTracker; 4], strain: Strain) -> (r: [usize;
        4])
        requires
            old(self).wf(),
            old(self).cached_key() is None,
            valid_hands(hands, hand_size(hands@[0])),
        ensures
            counts_grow(old(self).counts(), final(self).counts()),
            final(self).wf(),
            final(self).cached_key() is None,
            final(self).settings() == old(self).settings(),
            forall|i: int| 0 <= i < 4 ==> #[trigger] r@[i] <= hand_size(hands@[0]),
            old(self).settings().exhaustive() ==> forall|i: int|
                0 <= i < 4 ==> #[trigger] r@[i] == hand_size(hands@[0]) - value(
                    deal_start(hands, strain, PlayerPosition::of_rank(i as u8).turned(1)),
                ),
    {
        let n = hands[0].count_cards();
        let mut result = [0usize; 4];
        let mut d: u8 = 0;
        while d < 4
            invariant
                0 <= d <= 4,
                n == hand_size(hands@[0]),
                self.wf(),
                self.cached_key() is None,
                self.settings() == old(self).settings(),
                counts_grow(old(self).counts(), self.counts()),
                valid_hands(hands, hand_size(hands@[0])),
                forall|i: int| 0 <= i < 4 ==> #[trigger] result@[i] <= n,
                self.settings().exhaustive() ==> forall|i: int|
                    0 <= i < d ==> #[trigger] result@[i] == n - value(
                        deal_start(hands, strain, PlayerPosition::of_rank(i as u8).turned(1)),
                    ),
            decreases 4 - d,
        {
            let declarer = PlayerPosition::from_index(d);
            let opening_leader = declarer.after(1);
            let ghost c_before = self.counts();
            let defenders = self.solve_initial_position(hands, strain, opening_leader);
            proof {
                lemma_counts_grow_trans(old(self).counts(), c_before, self.counts());
            }
            result[d as usize] = n - defenders;
            d = d + 1;
        }
        result
    }

    /// The tricks the side of the opening leader takes in the strain; searching without
    /// shortcuts, those it takes when every seat plays as well as it can.
    pub fn solve_initial_position(
        &mut self,
        hands: [CardTracker; 4],
        strain: Strain,
        opening_leader: PlayerPosition,
    ) -> (defenders: usize)
        requires
            old(self).wf(),
            old(self).cached_key() is None,
            valid_hands(hands, hand_size(hands@[0])),
        ensures
            counts_grow(old(self).counts(), final(self).counts()),
            final(self).wf(),
            final(self).cached_key() is None,
            final(self).settings() == old(self).settings(),
            defenders <= hand_size(hands@[0]),
            old(self).settings().exhaustive() ==> defenders == value(
                deal_start(hands, strain, opening_leader),
            ),
    {
        self.solve_initial_position_from(hands, strain, opening_leader, None)
    }

    /// The tricks the side of the opening leader takes in the strain, the first question being
    /// whether it takes `first_estimate` tricks when one is given; searching without shortcuts,
    /// those it takes when every seat plays as well as it can.
    pub fn solve_initial_position_from(
        &mut self,
        hands: [CardTracker; 4],
        strain: Strain,
        opening_leader: PlayerPosition,
        first_estimate: Option<usize>,
    ) -> (defenders: usize)
        requires
            old(self).wf(),
            old(self).cached_key() is None,
            valid_hands(hands, hand_size(hands@[0])),
            first_estimate matches Some(e) ==> e <= hand_size(hands@[0]),
        ensures
            counts_grow(old(self).counts(), final(self).counts()),
            final(self).wf(),
            final(self).cached_key() is None,
            final(self).settings() == old(self).settings(),
            defenders <= hand_size(hands@[0]),
            old(self).settings().exhaustive() ==> defenders == value(
                deal_start(hands, strain, opening_leader),
            ),
    {
        let moved = move_up_ranks(&hands);
        proof {
            lemma_moved_up_same_value(hands, moved, strain, opening_leader);
        }
        let n = moved[0].count_cards();
        let trumps = match strain {
            Strain::Trump(suit) => Some(suit),
            Strain::NoTrump => None,
        };
        let mut start_state = VirtualState::new(moved, opening_leader, trumps, n);
        let ghost initial = start_state;
        proof {
            initial.tricks().lemma_wf_bounds();
            assert(initial.tricks().completed() == 0);
            assert(current_tricks(initial) == 0);
            initial.lemma_position();
            lemma_value_bounds(initial.position());
            assert(initial.position().hands =~= deal_start(moved, strain, opening_leader).hands);
            assert(initial.position() == deal_start(moved, strain, opening_leader));
        }
        let mut at_least: usize = 0;
        let mut at_most: usize = n;
        let mut first_round = true;
        while at_least < at_most
            invariant
                n == hand_size(moved@[0]),
                1 <= n <= 13,
                at_least <= n,
                at_most <= n,
                first_round ==> at_least == 0 && at_most == n,
                first_estimate matches Some(e) ==> e <= n,
                initial.wf(),
                initial.tricks().left() == n,
                initial.tricks().total() == n,
                initial.tricks().in_trick() == 0,
                current_tricks(initial) == 0,
                start_state.wf(),
                start_state.same_position(initial),
                self.wf(),
                self.key_fits(start_state),
                self.settings() == old(self).settings(),
                counts_grow(old(self).counts(), self.counts()),
                self.settings().exhaustive() ==> at_least <= value(initial.position()) <= at_most,
                initial.position() == deal_start(moved, strain, opening_leader),
            decreases (n - at_least) + at_most + if first_round {
                1int
            } else {
                0
            },
        {
            let estimate = match first_estimate {
                Some(e) => if first_round {
                    e
                } else {
                    (at_least + at_most + 1) / 2
                },
                None => (at_least + at_most + 1) / 2,
            };
            first_round = false;
            let ghost before = start_state;
            let ghost c_before = self.counts();
            let score = self.score_node(&mut start_state, estimate);
            proof {
                lemma_counts_grow_trans(old(self).counts(), c_before, self.counts());
                assert(score_in_range(before, score as int));
                assert(current_tricks(before) == current_tricks(initial));
                assert(before.tricks().left() == initial.tricks().left());
                lemma_same_position_model(before, initial, VirtualCard { suit: Suit::Clubs, rank: crate::dds::virtual_card::VirtualRank::Two });
            }
            if score >= estimate {
                at_least = score;
            } else {
                at_most = score;
            }
        }
        self.current_node_tt_key = None;
        at_least
    }

    /// The tricks the side of the seat to play takes, found to be at least `estimate` if it
    /// takes that many and below it otherwise; the position is given back as it was.
    #[verifier::spinoff_prover]
    #[verifier::rlimit(60)]
    fn score_node(&mut self, state: &mut VirtualState, estimate: usize) -> (score: usize)
        requires
            old(self).wf(),
            old(self).key_fits(*old(state)),
            old(state).wf(),
            old(state).tricks().left() >= 1,
            old(state).tricks().left() == 1 ==> old(state).tricks().in_trick() == 0,
            estimate <= old(state).tricks().total() + 1,
        ensures
            counts_grow(old(self).counts(), final(self).counts()),
            final(self).wf(),
            final(self).key_fits(*old(state)),
            final(self).settings() == old(self).settings(),
            final(state).wf(),
            final(state).same_position(*old(state)),
            score_in_range(*old(state), score as int),
            old(self).settings().exhaustive() ==> bounds_value(
                score as int,
                value(old(state).position()),
                estimate as int,
            ),
        decreases 4 * old(state).tricks().total() - old(state).played().len(), 1nat,
    {
        proof {
            old(state).tricks().lemma_wf_bounds();
        }
        let position = state.count_cards_in_current_trick();
        self.count_node(position);
        if state.is_last_trick() {
            return self.score_terminal_node(state);
        }
        match self.try_early_node_score(state, estimate) {
            Some(early_score) => {
                return early_score;
            },
            None => {},
        }
        let ghost at_entry = *state;
        let available_moves = {
            let view = state.view();
            let moves = MoveGenerator::generate_moves(&view, self.config.move_ordering);
            proof {
                let me = at_entry.tricks().next();
                assert(view.seat(0) == me) by {
                    assert(me.turned(0) == me);
                }
                assert(view.hand(me).in_play_only());
                assert(view.hand(me).tracker() == at_entry.hand(me));
                assert(view.hand(me).converter() == at_entry.converter());
                assert forall|i: int| 0 <= i < moves@.len() implies at_entry.playable(
                    (#[trigger] moves@[i]).card,
                ) by {
                    let vc = moves@[i].card;
                    lemma_candidate_held(view, vc);
                    let d = crate::dds::virtualizer::absolute_of(
                        at_entry.converter().out_of_play(vc.suit),
                        vc.rank,
                    ).unwrap();
                    lemma_holds_bit(at_entry.hand(me), Card { suit: vc.suit, denomination: d });
                }
                lemma_moves_found(at_entry, view, moves@);
            }
            moves
        };
        let ghost tried = cards_of_moves(at_entry, available_moves@);
        proof {
            assert(at_entry == *old(state));
            reveal(covers);
            reveal(tried_below);
        }
        let n_moves = available_moves.len();
        let mut highest_score: usize = 0;
        let mut first_move_is_best = true;
        let mut one_of_first_two_moves_is_best = true;
        let mut moves_tried: usize = 0;
        while moves_tried < n_moves
            invariant
                0 <= moves_tried <= n_moves,
                n_moves == available_moves@.len(),
                n_moves > 0,
                position < 4,
                position == at_entry.tricks().in_trick(),
                at_entry.wf(),
                at_entry.tricks().left() >= 2,
                at_entry.played().len() < 4 * at_entry.tricks().total(),
                state.wf(),
                state.same_position(at_entry),
                self.wf(),
                self.key_fits(at_entry),
                self.settings() == old(self).settings(),
                counts_grow(old(self).counts(), self.counts()),
                estimate <= at_entry.tricks().total() + 1,
                forall|i: int|
                    0 <= i < n_moves ==> at_entry.playable((#[trigger] available_moves@[i]).card),
                highest_score <= current_tricks(at_entry) + at_entry.tricks().left(),
                moves_tried > 0 ==> highest_score >= current_tricks(at_entry),
                at_entry == *old(state),
                tried == cards_of_moves(at_entry, available_moves@),
                self.settings().exhaustive() ==> tried_below(
                    at_entry.position(),
                    tried,
                    moves_tried as int,
                    highest_score as int,
                ),
                moves_tried > 0 ==> highest_score < estimate,
                moves_tried == 0 ==> highest_score == 0,
                covers(at_entry.position(), tried),
            decreases n_moves - moves_tried,
        {
            let ghost s_before = *state;
            let candidate_move = available_moves[moves_tried];
            let ghost c_top = self.counts();
            if moves_tried == 0 && n_moves > 1 {
                self.count_first_move(position);
            }
            proof {
                lemma_counts_grow_trans(old(self).counts(), c_top, self.counts());
            }
            let ghost c_mid = self.counts();
            proof {
                assert(at_entry.playable(available_moves@[moves_tried as int].card));
                lemma_playable_same(at_entry, *state, candidate_move.card);
            }
            let ghost highest_before = highest_score;
            let score = self.score_move(state, candidate_move.card, estimate);
            proof {
                lemma_counts_grow_trans(old(self).counts(), c_mid, self.counts());
                lemma_same_position_trans(*state, s_before, at_entry);
                lemma_same_position_model(s_before, at_entry, candidate_move.card);
                assert(tried[moves_tried as int] == card_of(at_entry, candidate_move.card));
                if self.settings().exhaustive() && score >= estimate {
                    lemma_cut(
                        at_entry.position(),
                        tried,
                        moves_tried as int,
                        score as int,
                        estimate as int,
                    );
                }
            }
            if score >= estimate {
                if self.config.use_transposition_table && state.player_is_leading() {
                    let add_tricks = score - state.tricks_won_by_axis(state.next_to_play());
                    self.store_lower_bound_in_tt(state, add_tricks);
                }
                proof {
                    if self.cached_key() is Some {
                        lemma_key_of_same(self.cached_key().unwrap(), *state, at_entry);
                    }
                }
                let ghost c_cut = self.counts();
                if moves_tried == 0 && n_moves > 1 {
                    self.count_best_first(position);
                } else if moves_tried == 1 && n_moves > 1 {
                    self.count_best_of_two(position);
                }
                proof {
                    lemma_counts_grow_trans(old(self).counts(), c_cut, self.counts());
                }
                return score;
            } else if score > highest_score {
                highest_score = score;
                if moves_tried == 1 {
                    first_move_is_best = false;
                } else if moves_tried == 2 {
                    one_of_first_two_moves_is_best = false;
                }
            }
            proof {
                if self.settings().exhaustive() {
                    lemma_tried_step(
                        at_entry.position(),
                        tried,
                        moves_tried as int,
                        highest_before as int,
                        highest_score as int,
                    );
                }
            }
            moves_tried = moves_tried + 1;
        }
        proof {
            if self.settings().exhaustive() {
                lemma_all_below(at_entry.position(), tried, highest_score as int, estimate as int);
            }
        }
        if self.config.use_transposition_table && state.player_is_leading() {
            let add_tricks = highest_score - state.tricks_won_by_axis(state.next_to_play());
            self.store_upper_bound_in_tt(state, add_tricks);
        }
        proof {
            if self.cached_key() is Some {
                lemma_key_of_same(self.cached_key().unwrap(), *state, at_entry);
            }
        }
        let ghost c_end = self.counts();
        if first_move_is_best && n_moves > 1 {
            self.count_best_first(position);
        } else if one_of_first_two_moves_is_best && n_moves > 1 {
            self.count_best_of_two(position);
        }
        proof {
            lemma_counts_grow_trans(old(self).counts(), c_end, self.counts());
        }
        highest_score
    }
}


impl DoubleDummyRunner {
    /// Counts one more node searched at the given place of a trick; a count at the largest
    /// `usize` stays there.
    fn count_node(&mut self, position: usize)
        requires
            position < 4,
        ensures
            final(self).counts().node_count@ == old(self).counts().node_count@.update(
                position as int,
                one_more(old(self).counts().node_count@[position as int]),
            ),
            final(self).counts().n_first_moves == old(self).counts().n_first_moves,
            final(self).counts().n_first_move_is_best == old(self).counts().n_first_move_is_best,
            final(self).counts().n_one_of_first_two_moves_is_best == old(
                self,
            ).counts().n_one_of_first_two_moves_is_best,
            counts_grow(old(self).counts(), final(self).counts()),
            final(self).table() == old(self).table(),
            final(self).cached_key() == old(self).cached_key(),
            final(self).settings() == old(self).settings(),
    {
        self.statistics.node_count[position] = self.statistics.node_count[position].saturating_add(1);
    }

    /// Counts one more node where the first of several moves was tried.
    fn count_first_move(&mut self, position: usize)
        requires
            position < 4,
        ensures
            final(self).counts().n_first_moves@ == old(self).counts().n_first_moves@.update(
                position as int,
                one_more(old(self).counts().n_first_moves@[position as int]),
            ),
            final(self).counts().node_count == old(self).counts().node_count,
            final(self).counts().n_first_move_is_best == old(self).counts().n_first_move_is_best,
            final(self).counts().n_one_of_first_two_moves_is_best == old(
                self,
            ).counts().n_one_of_first_two_moves_is_best,
            counts_grow(old(self).counts(), final(self).counts()),
            final(self).table() == old(self).table(),
            final(self).cached_key() == old(self).cached_key(),
            final(self).settings() == old(self).settings(),
    {
        self.statistics.n_first_moves[position] = self.statistics.n_first_moves[position].saturating_add(
            1,
        );
    }

    /// Counts one more node where the first move tried was the best: it was also one of the
    /// first two.
    fn count_best_first(&mut self, position: usize)
        requires
            position < 4,
        ensures
            final(self).counts().n_first_move_is_best@ == old(
                self,
            ).counts().n_first_move_is_best@.update(
                position as int,
                one_more(old(self).counts().n_first_move_is_best@[position as int]),
            ),
            final(self).counts().n_one_of_first_two_moves_is_best@ == old(
                self,
            ).counts().n_one_of_first_two_moves_is_best@.update(
                position as int,
                one_more(old(self).counts().n_one_of_first_two_moves_is_best@[position as int]),
            ),
            final(self).counts().node_count == old(self).counts().node_count,
            final(self).counts().n_first_moves == old(self).counts().n_first_moves,
            counts_grow(old(self).counts(), final(self).counts()),
            final(self).table() == old(self).table(),
            final(self).cached_key() == old(self).cached_key(),
            final(self).settings() == old(self).settings(),
    {
        self.statistics.n_first_move_is_best[position] =
            self.statistics.n_first_move_is_best[position].saturating_add(1);
        self.statistics.n_one_of_first_two_moves_is_best[position] =
            self.statistics.n_one_of_first_two_moves_is_best[position].saturating_add(1);
    }

    /// Counts one more node where one of the first two moves tried was the best.
    fn count_best_of_two(&mut self, position: usize)
        requires
            position < 4,
        ensures
            final(self).counts().n_one_of_first_two_moves_is_best@ == old(
                self,
            ).counts().n_one_of_first_two_moves_is_best@.update(
                position as int,
                one_more(old(self).counts().n_one_of_first_two_moves_is_best@[position as int]),
            ),
            final(self).counts().node_count == old(self).counts().node_count,
            final(self).counts().n_first_moves == old(self).counts().n_first_moves,
            final(self).counts().n_first_move_is_best == old(self).counts().n_first_move_is_best,
            counts_grow(old(self).counts(), final(self).counts()),
            final(self).table() == old(self).table(),
            final(self).cached_key() == old(self).cached_key(),
            final(self).settings() == old(self).settings(),
    {
        self.statistics.n_one_of_first_two_moves_is_best[position] =
            self.statistics.n_one_of_first_two_moves_is_best[position].saturating_add(1);
    }
}

impl DoubleDummyRunner {
    /// The score of a move: the card is played, the position after it scored from the side of
    /// the seat that plays next, and the card taken back.
    #[verifier::spinoff_prover]
    fn score_move(&mut self, state: &mut VirtualState, card: VirtualCard, estimate: usize) -> (score:
        usize)
        requires
            old(self).wf(),
            old(state).wf(),
            old(state).tricks().left() >= 2,
            estimate <= old(state).tricks().total() + 1,
            old(state).playable(card),
        ensures
            counts_grow(old(self).counts(), final(self).counts()),
            final(self).wf(),
            final(self).cached_key() == old(self).cached_key(),
            final(self).settings() == old(self).settings(),
            final(state).wf(),
            final(state).same_position(*old(state)),
            score_in_range(*old(state), score as int),
            old(self).settings().exhaustive() ==> bounds_value(
                score as int,
                outcome(old(state).position(), card_of(*old(state), card)),
                estimate as int,
            ),
        decreases 4 * old(state).tricks().total() - old(state).played().len(), 0nat,
    {
        let n_tricks = state.total_tricks();
        let current_player = state.next_to_play();
        let tt_key_temp_storage = self.current_node_tt_key;
        self.current_node_tt_key = None;
        let ghost s0 = *state;
        let played = state.play(&card);
        let ghost absolute = Card {
            suit: card.suit,
            denomination: crate::dds::virtualizer::absolute_of(
                s0.converter().out_of_play(card.suit),
                card.rank,
            ).unwrap(),
        };
        proof {
            assert(played is Ok);
            s0.tricks().lemma_wf_bounds();
            state.tricks().lemma_wf_bounds();
            s0.tricks().lemma_won_step(state.tricks(), absolute, s0.tricks().next());
        }
        let ghost s1 = *state;
        let new_player = state.next_to_play();
        let same_side = current_player.same_axis(&new_player);
        let child = if same_side {
            self.score_node(state, estimate)
        } else {
            self.score_node(state, n_tricks + 1 - estimate)
        };
        proof {
            let t1 = s1.tricks();
            t1.lemma_won_sides(t1.next(), t1.next().turned(1));
            t1.lemma_wf_bounds();
        }
        let score = if same_side {
            child
        } else {
            n_tricks - child
        };
        let ghost s2 = *state;
        proof {
            lemma_child_score(s0, s1, absolute, child as int, score as int);
            s0.lemma_position();
            s1.lemma_position();
            s1.lemma_position_played(s0, absolute);
            s0.tricks().lemma_wf_bounds();
        }
        state.undo();
        proof {
            lemma_undo_undoes_play(s0, s1, s2, *state, absolute);
        }
        self.current_node_tt_key = tt_key_temp_storage;
        score
    }


    /// The score of the last trick: its four cards played out, one each.
    #[verifier::spinoff_prover]
    fn score_terminal_node(&mut self, state: &mut VirtualState) -> (score: usize)
        requires
            old(self).wf(),
            old(self).key_fits(*old(state)),
            old(state).wf(),
            old(state).tricks().left() == 1,
            old(state).tricks().in_trick() == 0,
        ensures
            final(self).counts() == old(self).counts(),
            final(self).wf(),
            final(self).key_fits(*old(state)),
            final(self).settings() == old(self).settings(),
            final(state).wf(),
            final(state).same_position(*old(state)),
            score_in_range(*old(state), score as int),
            score == value(old(state).position()),
    {
        let lead = state.next_to_play();
        let ghost s0 = *state;
        Self::play_first_card(state);
        let ghost s1 = *state;
        Self::play_first_card(state);
        let ghost s2 = *state;
        Self::play_first_card(state);
        let ghost s3 = *state;
        Self::play_first_card(state);
        let ghost s4 = *state;
        let score = state.tricks_won_by_axis(lead);
        proof {
            let c1 = choose|c: Card| s1.played_to(s0, c);
            let c2 = choose|c: Card| s2.played_to(s1, c);
            let c3 = choose|c: Card| s3.played_to(s2, c);
            let c4 = choose|c: Card| s4.played_to(s3, c);
            s0.tricks().lemma_won_step(s1.tricks(), c1, lead);
            s1.tricks().lemma_won_step(s2.tricks(), c2, lead);
            s2.tricks().lemma_won_step(s3.tricks(), c3, lead);
            s3.tricks().lemma_won_step(s4.tricks(), c4, lead);
            assert(s4.tricks().completed() == s0.tricks().completed() + 1);
            lemma_last_trick_value(s0, s1, s2, s3, s4, c1, c2, c3, c4);
        }
        let winner_of_last_trick = state.last_trick_winner().unwrap();
        state.undo();
        proof {
            let c4 = choose|c: Card| s4.played_to(s3, c);
            lemma_undo_undoes_play(s3, s4, s4, *state, c4);
        }
        let ghost u3 = *state;
        state.undo();
        proof {
            let c3 = choose|c: Card| s3.played_to(s2, c);
            lemma_undo_undoes_play(s2, s3, u3, *state, c3);
        }
        let ghost u2 = *state;
        state.undo();
        proof {
            let c2 = choose|c: Card| s2.played_to(s1, c);
            lemma_undo_undoes_play(s1, s2, u2, *state, c2);
        }
        let ghost u1 = *state;
        state.undo();
        proof {
            let c1 = choose|c: Card| s1.played_to(s0, c);
            lemma_undo_undoes_play(s0, s1, u1, *state, c1);
        }
        if self.config.use_transposition_table && state.player_is_leading() {
            self.store_terminal_node_in_tt(state, winner_of_last_trick);
        }
        score
    }

    /// Plays the first card the seat to play holds, Clubs first and lowest first.
    #[verifier::spinoff_prover]
    fn play_first_card(state: &mut VirtualState)
        requires
            old(state).wf(),
            old(state).tricks().left() >= 1,
        ensures
            final(state).wf(),
            exists|c: Card| final(state).played_to(*old(state), c),
    {
        let next = state.next_to_play();
        let first = {
            let cards = state.cards_of(next);
            proof {
                state.lemma_hand_in_play(next);
                state.lemma_unplayed_hand_size(next);
                assert(next == state.tricks().leader().turned(state.tricks().in_trick()));
                assert(seat_offset(next, state.tricks().leader()) == state.tricks().in_trick());
                assert forall|s: Suit| #[trigger] cards.held(s) <= crate::dds::suit_field::ALL_RANKS
                    && cards.out(s) <= crate::dds::suit_field::ALL_RANKS && cards.held(s) & cards.out(
                    s,
                ) == 0 by {}
            }
            let all = cards.all_cards();
            proof {
                let h = state.hand(next);
                if h.field(Suit::Clubs).bits() != 0 {
                    lemma_cards_in_spec_nonempty(cards, Suit::Clubs);
                } else if h.field(Suit::Diamonds).bits() != 0 {
                    lemma_cards_in_spec_nonempty(cards, Suit::Diamonds);
                } else if h.field(Suit::Hearts).bits() != 0 {
                    lemma_cards_in_spec_nonempty(cards, Suit::Hearts);
                } else if h.field(Suit::Spades).bits() != 0 {
                    lemma_cards_in_spec_nonempty(cards, Suit::Spades);
                } else {
                    crate::dds::virtual_state::lemma_ones_zero(16);
                }
                let a = cards.cards_in_spec(Suit::Clubs);
                let b = cards.cards_in_spec(Suit::Diamonds);
                let hh = cards.cards_in_spec(Suit::Hearts);
                let sp = cards.cards_in_spec(Suit::Spades);
                let vc = all@[0];
                if a.len() > 0 {
                    assert(a[0] == vc);
                    assert(a.contains(vc));
                    lemma_listed_card_held(cards, Suit::Clubs, vc);
                } else if b.len() > 0 {
                    assert(b[0] == vc);
                    assert(b.contains(vc));
                    lemma_listed_card_held(cards, Suit::Diamonds, vc);
                } else if hh.len() > 0 {
                    assert(hh[0] == vc);
                    assert(hh.contains(vc));
                    lemma_listed_card_held(cards, Suit::Hearts, vc);
                } else {
                    assert(sp[0] == vc);
                    assert(sp.contains(vc));
                    lemma_listed_card_held(cards, Suit::Spades, vc);
                }
                let d = crate::dds::virtualizer::absolute_of(cards.out(vc.suit), vc.rank).unwrap();
                lemma_holds_bit(h, Card { suit: vc.suit, denomination: d });
            }
            all[0]
        };
        let played = state.play(&first);
        proof {
            assert(played is Ok);
        }
    }

    /// The key of the position, computed once per position searched.
    fn get_tt_key(&mut self, state: &VirtualState) -> (k: TTKey)
        requires
            old(self).key_fits(*state),
            state.wf(),
        ensures
            final(self).counts() == old(self).counts(),
            key_of(k, *state),
            final(self).cached_key() == Some(k),
            final(self).table() == old(self).table(),
            final(self).settings() == old(self).settings(),
    {
        match self.current_node_tt_key {
            None => {
                let tt_key = state.generate_tt_key();
                self.current_node_tt_key = Some(tt_key);
                tt_key
            },
            Some(tt_key) => tt_key,
        }
    }

    /// Records that the side to play takes at least `bound` more tricks from the position.
    #[verifier::spinoff_prover]
    fn store_lower_bound_in_tt(&mut self, state: &VirtualState, bound: usize)
        requires
            old(self).wf(),
            old(self).key_fits(*state),
            state.wf(),
            bound <= state.tricks().left(),
        ensures
            final(self).counts() == old(self).counts(),
            final(self).wf(),
            final(self).key_fits(*state),
            final(self).settings() == old(self).settings(),
            records_lower(
                old(self).table(),
                final(self).table(),
                final(self).cached_key(),
                *state,
                bound as int,
            ),
    {
        let tt_key = self.get_tt_key(state);
        self.transposition_table.update_lower_bound(&tt_key, bound);
        proof {
            assert forall|k: TTKey| #[trigger] self.table().contains_key(k) implies self.table()[k].at_least
                <= k.tricks_left && self.table()[k].at_most <= k.tricks_left by {
                if k != tt_key {
                    assert(old(self).table().contains_key(k));
                }
            }
            assert(records_lower(
                old(self).table(),
                self.table(),
                self.cached_key(),
                *state,
                bound as int,
            )) by {
                reveal(records_lower);
            }
        }
    }

    /// Records that the side to play takes at most `bound` more tricks from the position.
    #[verifier::spinoff_prover]
    fn store_upper_bound_in_tt(&mut self, state: &VirtualState, bound: usize)
        requires
            old(self).wf(),
            old(self).key_fits(*state),
            state.wf(),
            bound <= state.tricks().left(),
        ensures
            final(self).counts() == old(self).counts(),
            final(self).wf(),
            final(self).key_fits(*state),
            final(self).settings() == old(self).settings(),
            records_upper(
                old(self).table(),
                final(self).table(),
                final(self).cached_key(),
                *state,
                bound as int,
            ),
    {
        let tt_key = self.get_tt_key(state);
        self.transposition_table.update_upper_bound(&tt_key, bound);
        proof {
            assert forall|k: TTKey| #[trigger] self.table().contains_key(k) implies self.table()[k].at_least
                <= k.tricks_left && self.table()[k].at_most <= k.tricks_left by {
                if k != tt_key {
                    assert(old(self).table().contains_key(k));
                }
            }
            assert(records_upper(
                old(self).table(),
                self.table(),
                self.cached_key(),
                *state,
                bound as int,
            )) by {
                reveal(records_upper);
            }
        }
    }

    /// Records the last trick of a position: the side on lead takes it or not.
    #[verifier::spinoff_prover]
    fn store_terminal_node_in_tt(&mut self, state: &VirtualState, winner_of_last_trick: PlayerPosition)
        requires
            old(self).wf(),
            old(self).key_fits(*state),
            state.wf(),
            state.tricks().left() == 1,
        ensures
            final(self).counts() == old(self).counts(),
            final(self).wf(),
            final(self).key_fits(*state),
            final(self).settings() == old(self).settings(),
            winner_of_last_trick.same_side(state.tricks().next()) ==> records_lower(
                old(self).table(),
                final(self).table(),
                final(self).cached_key(),
                *state,
                1,
            ),
            !winner_of_last_trick.same_side(state.tricks().next()) ==> records_upper(
                old(self).table(),
                final(self).table(),
                final(self).cached_key(),
                *state,
                0,
            ),
    {
        if winner_of_last_trick.same_axis(&state.next_to_play()) {
            self.store_lower_bound_in_tt(state, 1);
        } else {
            self.store_upper_bound_in_tt(state, 0);
        }
    }

    /// The bounds the table knows for the position, when they settle whether the side to play
    /// takes `estimate` tricks.
    fn try_find_node_in_tt(&mut self, state: &VirtualState, estimate: usize) -> (r: Option<usize>)
        requires
            old(self).wf(),
            old(self).key_fits(*state),
            state.wf(),
        ensures
            final(self).counts() == old(self).counts(),
            final(self).wf(),
            final(self).key_fits(*state),
            final(self).settings() == old(self).settings(),
            r matches Some(x) ==> score_in_range(*state, x as int),
            answers_from_table(
                old(self).table(),
                final(self).cached_key(),
                *state,
                estimate as int,
                r,
            ),
            final(self).table() == old(self).table(),
    {
        let tt_key = self.get_tt_key(state);
        proof {
            reveal(answers_from_table);
        }
        match self.transposition_table.lookup(&tt_key) {
            None => None,
            Some(tt_value) => {
                proof {
                    assert(self.table().contains_key(tt_key));
                    state.tricks().lemma_wf_bounds();
                    state.tricks().lemma_won_sides(state.tricks().next(), state.tricks().next());
                    crate::dds::trick_manager::lemma_tricks_won_bound(
                        state.tricks().opening(),
                        state.tricks().trump(),
                        state.played(),
                        state.tricks().completed(),
                        state.tricks().next(),
                    );
                }
                let current_tricks = state.tricks_won_by_axis(state.next_to_play());
                let lower = current_tricks + tt_value.at_least;
                let upper = current_tricks + tt_value.at_most;
                if lower >= estimate {
                    Some(lower)
                } else if upper < estimate {
                    Some(upper)
                } else {
                    None
                }
            },
        }
    }

    /// The tricks the side to play has won.
    fn current_tricks(state: &VirtualState) -> (n: usize)
        requires
            state.wf(),
        ensures
            n == current_tricks(*state),
    {
        state.tricks_won_by_axis(state.next_to_play())
    }

    /// The tricks the side to play has won and all the tricks left.
    fn maximum_achievable_tricks(state: &VirtualState) -> (n: usize)
        requires
            state.wf(),
        ensures
            n == current_tricks(*state) + state.tricks().left(),
    {
        proof {
            state.tricks().lemma_wf_bounds();
            crate::dds::trick_manager::lemma_tricks_won_bound(
                state.tricks().opening(),
                state.tricks().trump(),
                state.played(),
                state.tricks().completed(),
                state.tricks().next(),
            );
        }
        state.tricks_left() + state.tricks_won_by_axis(state.next_to_play())
    }

    /// A score found without searching the moves: from the tricks already won or still
    /// possible, the table, or the estimates, as the configuration allows.
    fn try_early_node_score(&mut self, state: &VirtualState, estimate: usize) -> (r: Option<usize>)
        requires
            old(self).wf(),
            old(self).key_fits(*state),
            state.wf(),
            state.tricks().left() >= 1,
        ensures
            final(self).counts() == old(self).counts(),
            final(self).wf(),
            final(self).key_fits(*state),
            final(self).settings() == old(self).settings(),
            r matches Some(x) ==> score_in_range(*state, x as int),
            old(self).settings().exhaustive() ==> (r matches Some(x) ==> bounds_value(
                x as int,
                value(state.position()),
                estimate as int,
            )),
            current_tricks(*state) >= estimate ==> r == Some(current_tricks(*state) as usize),
            current_tricks(*state) < estimate && current_tricks(*state) + state.tricks().left()
                < estimate ==> r == Some((current_tricks(*state) + state.tricks().left()) as usize),
            current_tricks(*state) < estimate <= current_tricks(*state) + state.tricks().left()
                && state.tricks().in_trick() == 1 && old(self).settings().quick_tricks_in_second_hand
                ==> r == reached(current_tricks(*state) + second_hand_quick_tricks(*state), estimate as int),
            current_tricks(*state) < estimate <= current_tricks(*state) + state.tricks().left()
                && state.tricks().in_trick() == 0 && (old(self).settings().use_transposition_table
                ==> forall|k: TTKey| #[trigger] key_of(k, *state) ==> table_answer(
                table_entry(old(self).table(), k),
                current_tricks(*state),
                estimate as int,
            ) is None) && old(self).settings().check_quick_tricks && current_tricks(*state)
                + leader_quick_tricks(*state) >= estimate ==> r == Some(
                (current_tricks(*state) + leader_quick_tricks(*state)) as usize,
            ),
            current_tricks(*state) < estimate <= current_tricks(*state) + state.tricks().left()
                && !(state.tricks().in_trick() == 0 && old(self).settings().use_transposition_table)
                && !(state.tricks().in_trick() == 0 && old(self).settings().check_quick_tricks)
                && !(state.tricks().in_trick() == 1 && old(self).settings().quick_tricks_in_second_hand)
                && !(state.tricks().in_trick() == 0 && old(self).settings().check_losing_tricks)
                ==> r is None && *final(self) == *old(self),
            current_tricks(*state) < estimate <= current_tricks(*state) + state.tricks().left()
                && state.tricks().in_trick() == 0 && (old(self).settings().use_transposition_table
                ==> forall|k: TTKey| #[trigger] key_of(k, *state) ==> table_answer(
                table_entry(old(self).table(), k),
                current_tricks(*state),
                estimate as int,
            ) is None) && (old(self).settings().check_quick_tricks ==> current_tricks(*state)
                + leader_quick_tricks(*state) < estimate) && old(self).settings().check_losing_tricks
                ==> forall|e: EstimationState| #[trigger] state.estimates(e) ==> r == short_of(
                current_tricks(*state) + state.tricks().left() - e.losing_tricks_spec(),
                estimate as int,
            ),
            current_tricks(*state) < estimate <= current_tricks(*state) + state.tricks().left()
                && state.tricks().in_trick() == 0 && old(self).settings().use_transposition_table
                ==> forall|k: TTKey| #[trigger] key_of(k, *state) && table_answer(
                table_entry(old(self).table(), k),
                current_tricks(*state),
                estimate as int,
            ) is Some ==> r == table_answer(
                table_entry(old(self).table(), k),
                current_tricks(*state),
                estimate as int,
            ),
    {
        proof {
            state.lemma_position();
            lemma_value_bounds(state.position());
        }
        let current_tricks = Self::current_tricks(state);
        if current_tricks >= estimate {
            return Some(current_tricks);
        }
        let maximum_tricks = Self::maximum_achievable_tricks(state);
        if maximum_tricks < estimate {
            return Some(maximum_tricks);
        }
        if self.config.use_transposition_table && state.player_is_leading() {
            let ghost before = self.table();
            let found = self.try_find_node_in_tt(state, estimate);
            proof {
                reveal(answers_from_table);
                assert forall|k: TTKey| #[trigger] key_of(k, *state) implies table_answer(
                    table_entry(before, k),
                    current_tricks as int,
                    estimate as int,
                ) == found by {
                    lemma_key_of_unique(k, self.cached_key().unwrap(), *state);
                }
            }
            match found {
                Some(tt_score) => {
                    return Some(tt_score);
                },
                None => {},
            }
        }
        if self.config.check_quick_tricks && state.player_is_leading() {
            match self.try_score_using_quick_tricks_for_leader(state, estimate) {
                Some(qt_score) => {
                    return Some(qt_score);
                },
                None => {},
            }
        }
        if self.config.quick_tricks_in_second_hand && state.count_cards_in_current_trick() == 1 {
            match self.try_score_using_quick_tricks_for_second_hand(state, estimate) {
                Some(qt_score) => {
                    return Some(qt_score);
                },
                None => {},
            }
        }
        if self.config.check_losing_tricks && state.player_is_leading() {
            let estimation_state = state.create_estimation_state();
            let lt = self.try_score_using_losing_tricks(state, estimate, estimation_state);
            proof {
                assert forall|e: EstimationState| #[trigger] state.estimates(e) implies lt == short_of(
                    current_tricks as int + state.tricks().left() - e.losing_tricks_spec(),
                    estimate as int,
                ) by {
                    state.lemma_estimates_unique(e, estimation_state);
                }
            }
            match lt {
                Some(lt_score) => {
                    return Some(lt_score);
                },
                None => {},
            }
        }
        None
    }

    /// With the lead, the tricks won and those the side surely loses settle whether it takes
    /// `estimate` tricks when they leave it short.
    #[verifier::spinoff_prover]
    fn try_score_using_losing_tricks(
        &mut self,
        state: &VirtualState,
        estimate: usize,
        estimation_state: EstimationState,
    ) -> (r: Option<usize>)
        requires
            old(self).wf(),
            old(self).key_fits(*state),
            state.wf(),
            state.tricks().left() >= 1,
            state.tricks().in_trick() == 0,
            estimation_state.my_seat == state.tricks().next(),
            estimation_state.trump_suit == state.tricks().trump(),
            forall|p: PlayerPosition, s: Suit|
                #[trigger] estimation_state.count_of(p, s) == ones(state.hand(p).field(s).bits(), 16),
            forall|p: PlayerPosition, s: Suit|
                #[trigger] estimation_state.high_of(p, s) <= 1 || estimation_state.high_of(p, s)
                    <= ones(state.hand(p).field(s).bits(), 16),
        ensures
            final(self).counts() == old(self).counts(),
            final(self).wf(),
            final(self).key_fits(*state),
            final(self).settings() == old(self).settings(),
            r matches Some(x) ==> score_in_range(*state, x as int),
            r == short_of(
                current_tricks(*state) + state.tricks().left() - estimation_state.losing_tricks_spec(),
                estimate as int,
            ),
            r is Some && old(self).settings().use_transposition_table ==> records_upper(
                old(self).table(),
                final(self).table(),
                final(self).cached_key(),
                *state,
                state.tricks().left() - estimation_state.losing_tricks_spec(),
            ),
            !(r is Some && old(self).settings().use_transposition_table) ==> final(self).table()
                == old(self).table() && final(self).cached_key() == old(self).cached_key(),
    {
        proof {
            let e = estimation_state;
            let m = state.tricks().left();
            assert forall|p: PlayerPosition, s: Suit| #[trigger] e.count_of(p, s) <= m by {
                state.lemma_unplayed_hand_size(p);
                assert(ones(state.hand(p).field(s).bits(), 16) <= m);
            }
            assert forall|p: PlayerPosition, s: Suit| #[trigger] e.high_of(p, s) <= m by {
                state.lemma_unplayed_hand_size(p);
                assert(ones(state.hand(p).field(s).bits(), 16) <= m);
            }
            assert forall|p: PlayerPosition, s: Suit| #[trigger] e.count_of(p, s) <= 16 by {
                crate::dds::virtual_card_tracker::lemma_ones_at_most(
                    state.hand(p).field(s).bits(),
                    16,
                );
            }
            let me = e.my_seat;
            state.lemma_unplayed_hand_size(me);
            reveal_with_fuel(sum_below, 5);
            assert(sum_below(|s: Suit| e.count_of(me, s), 4) == hand_size(state.hand(me))) by {
                assert(Suit::of_rank(0) == Suit::Clubs);
                assert(Suit::of_rank(1) == Suit::Diamonds);
                assert(Suit::of_rank(2) == Suit::Hearts);
                assert(Suit::of_rank(3) == Suit::Spades);
                assert(e.count_of(me, Suit::Clubs) == ones(state.hand(me).field(Suit::Clubs).bits(), 16));
                assert(e.count_of(me, Suit::Diamonds) == ones(state.hand(me).field(Suit::Diamonds).bits(), 16));
                assert(e.count_of(me, Suit::Hearts) == ones(state.hand(me).field(Suit::Hearts).bits(), 16));
                assert(e.count_of(me, Suit::Spades) == ones(state.hand(me).field(Suit::Spades).bits(), 16));
            }
            lemma_losing_tricks_bound(e, m);
            lemma_nt_sums_fit(e);
        }
        let losing_tricks = losing_tricks_for_leader(estimation_state);
        let total_with_losing_tricks = Self::maximum_achievable_tricks(state) - losing_tricks;
        if total_with_losing_tricks < estimate {
            if self.config.use_transposition_table {
                self.store_upper_bound_in_tt(
                    state,
                    total_with_losing_tricks - Self::current_tricks(state),
                );
            }
            return Some(total_with_losing_tricks);
        }
        None
    }

    /// With the lead, the tricks won and the quick tricks settle that the side takes
    /// `estimate` tricks when they reach it.
    fn try_score_using_quick_tricks_for_leader(&mut self, state: &VirtualState, estimate: usize) -> (r:
        Option<usize>)
        requires
            old(self).wf(),
            old(self).key_fits(*state),
            state.wf(),
            state.tricks().left() >= 1,
            state.tricks().in_trick() == 0,
        ensures
            final(self).counts() == old(self).counts(),
            final(self).wf(),
            final(self).key_fits(*state),
            final(self).settings() == old(self).settings(),
            r matches Some(x) ==> score_in_range(*state, x as int),
            r == reached(current_tricks(*state) + leader_quick_tricks(*state), estimate as int),
            r is Some && old(self).settings().use_transposition_table ==> records_lower(
                old(self).table(),
                final(self).table(),
                final(self).cached_key(),
                *state,
                leader_quick_tricks(*state),
            ),
            !(r is Some && old(self).settings().use_transposition_table) ==> final(self).table()
                == old(self).table() && final(self).cached_key() == old(self).cached_key(),
    {
        let me = state.next_to_play();
        let mine = state.cards_of(me);
        let lho = state.cards_of(me.after(1));
        let partner = state.cards_of(me.partner());
        let rho = state.cards_of(me.after(3));
        let quick_tricks = quick_tricks_for_leader(&mine, &lho, &partner, &rho, state.trump_suit());
        proof {
            lemma_virtual_view(mine);
            lemma_virtual_view(lho);
            lemma_virtual_view(partner);
            lemma_virtual_view(rho);
            assert(quick_tricks == leader_quick_tricks(*state));
            lemma_quick_tricks_for_leader_bound(mine, lho, partner, rho, state.tricks().trump());
            state.lemma_unplayed_hand_size(me);
            state.tricks().lemma_wf_bounds();
            crate::dds::trick_manager::lemma_tricks_won_bound(
                state.tricks().opening(),
                state.tricks().trump(),
                state.played(),
                state.tricks().completed(),
                me,
            );
        }
        let total_with_quick_tricks = state.tricks_won_by_axis(me) + quick_tricks;
        if total_with_quick_tricks >= estimate {
            if self.config.use_transposition_table && state.player_is_leading() {
                self.store_lower_bound_in_tt(state, quick_tricks);
            }
            Some(total_with_quick_tricks)
        } else {
            None
        }
    }

    /// Second to play, the tricks won and the quick tricks of the side settle that it takes
    /// `estimate` tricks when they reach it.
    fn try_score_using_quick_tricks_for_second_hand(
        &mut self,
        state: &VirtualState,
        estimate: usize,
    ) -> (r: Option<usize>)
        requires
            old(self).wf(),
            old(self).key_fits(*state),
            state.wf(),
            state.tricks().left() >= 1,
            state.tricks().in_trick() == 1,
        ensures
            final(self).counts() == old(self).counts(),
            final(self).wf(),
            final(self).key_fits(*state),
            final(self).settings() == old(self).settings(),
            r matches Some(x) ==> score_in_range(*state, x as int),
            r == reached(current_tricks(*state) + second_hand_quick_tricks(*state), estimate as int),
            *final(self) == *old(self),
    {
        let me = state.next_to_play();
        let mine = state.cards_of(me);
        let lho = state.cards_of(me.after(1));
        let partner = state.cards_of(me.partner());
        let lead = state.suit_to_follow().unwrap();
        let quick_tricks = quick_tricks_for_second_hand(
            &mine,
            &lho,
            &partner,
            state.trump_suit(),
            lead,
        );
        proof {
            lemma_virtual_view(mine);
            lemma_virtual_view(lho);
            lemma_virtual_view(partner);
            assert(quick_tricks == second_hand_quick_tricks(*state));
            let leader = state.tricks().leader();
            assert(me == leader.turned(1));
            assert(seat_offset(me, leader) == 1);
            assert(seat_offset(me.turned(2), leader) == 3);
            state.lemma_unplayed_hand_size(me);
            state.lemma_unplayed_hand_size(me.turned(2));
            lemma_quick_tricks_for_second_hand_bound(
                mine,
                lho,
                partner,
                state.tricks().trump(),
                lead,
                state.tricks().left(),
            );
            state.tricks().lemma_wf_bounds();
            crate::dds::trick_manager::lemma_tricks_won_bound(
                state.tricks().opening(),
                state.tricks().trump(),
                state.played(),
                state.tricks().completed(),
                me,
            );
        }
        let total_with_quick_tricks = state.tricks_won_by_axis(me) + quick_tricks;
        if total_with_quick_tricks >= estimate {
            Some(total_with_quick_tricks)
        } else {
            None
        }
    }
}


impl Default for DoubleDummyRunner {
    /// A search with the default techniques, an empty table and no counts.
    fn default() -> (r: Self)
        ensures
            r.settings() == (DdsConfig {
                move_ordering: true,
                check_quick_tricks: true,
                quick_tricks_in_second_hand: true,
                use_transposition_table: true,
                check_losing_tricks: true,
                pre_estimate: false,
                multi_threading: true,
            }),
            r.table() == Map::<TTKey, TTValue>::empty(),
            r.cached_key() is None,
            r.wf(),
    {
        Self::with_config(DdsConfig::default())
    }
}

} // verus!
