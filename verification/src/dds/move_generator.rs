//! The moves worth trying from a position, one per sequence of touching cards, and the order
//! in which to try them.
use crate::card::Suit;
use crate::dds::distribution_field::{in_play, DistFieldManager};
use crate::dds::suit_field::ones;
use crate::dds::virtual_card::{VirtualCard, VirtualRank};
use crate::dds::virtual_card_tracker::{top_run, VirtualCardTracker};
use crate::dds::card_tracker::low_mask_through;
use crate::dds::virtualizer::absolute_of;
use crate::deal::PlayerPosition;
use rand::Rng;
use vstd::prelude::*;

verus! {

/// A move to try: the card, how many touching cards it stands for, and how early to try it.
#[derive(Debug, Clone, Copy, PartialEq, Eq, Structural)]
pub struct DdsMove {
    pub card: VirtualCard,
    pub sequence_length: usize,
    pub priority: isize,
}

/// Whether card `a` ranks above card `b`: by suit (Clubs lowest), then by rank.
pub open spec fn beats(a: VirtualCard, b: VirtualCard) -> bool {
    a.order() > b.order()
}

/// Whether a possible card ranks above another possible card; no card ranks below every card.
pub open spec fn beats_maybe(a: Option<VirtualCard>, b: Option<VirtualCard>) -> bool {
    match (a, b) {
        (Some(x), Some(y)) => beats(x, y),
        (Some(_), None) => true,
        _ => false,
    }
}

/// The moves for a list of cards: each run of touching cards (in list order) becomes one move,
/// of its last card, counting the cards of the run.
pub open spec fn sequences(cards: Seq<VirtualCard>) -> Seq<DdsMove>
    decreases cards.len(),
{
    if cards.len() == 0 {
        Seq::empty()
    } else {
        let before = sequences(cards.drop_last());
        let card = cards.last();
        if before.len() > 0 && touches(before.last().card, card) {
            before.update(
                before.len() - 1,
                DdsMove {
                    card,
                    sequence_length: (before.last().sequence_length + 1) as usize,
                    priority: 0,
                },
            )
        } else {
            before.push(DdsMove { card, sequence_length: 1, priority: 0 })
        }
    }
}

/// Each card of a list is worth what the card of one of its moves is worth, for any worth that
/// touching cards of the list share; the last move is that of the last card.
pub proof fn lemma_sequences_cover(cards: Seq<VirtualCard>, f: spec_fn(VirtualCard) -> int)
    requires
        forall|x: VirtualCard, y: VirtualCard|
            #![trigger cards.contains(x), cards.contains(y)]
            cards.contains(x) && cards.contains(y) && touches(x, y) ==> f(x) == f(y),
    ensures
        cards.len() > 0 ==> sequences(cards).len() > 0 && sequences(cards).last().card
            == cards.last(),
        forall|i: int|
            #![trigger cards[i]]
            0 <= i < cards.len() ==> exists|k: int|
                0 <= k < sequences(cards).len() && #[trigger] f(sequences(cards)[k].card) == f(
                    cards[i],
                ),
    decreases cards.len(),
{
    if cards.len() > 0 {
        let prefix = cards.drop_last();
        let last_index = cards.len() - 1;
        assert forall|x: VirtualCard| prefix.contains(x) implies cards.contains(x) by {
            let j = choose|j: int| 0 <= j < prefix.len() && prefix[j] == x;
            assert(cards[j] == x);
        }
        lemma_sequences_cover(prefix, f);
        let before = sequences(prefix);
        let seqs = sequences(cards);
        let merged = before.len() > 0 && touches(before.last().card, cards.last());
        assert(cards[last_index] == cards.last());
        assert forall|i: int| #![trigger cards[i]] 0 <= i < cards.len() implies exists|k: int|
            0 <= k < seqs.len() && #[trigger] f(seqs[k].card) == f(cards[i]) by {
            if i == last_index {
                assert(f(seqs[seqs.len() - 1].card) == f(cards[i]));
            } else {
                assert(prefix[i] == cards[i]);
                let k = choose|k: int|
                    0 <= k < before.len() && #[trigger] f(before[k].card) == f(prefix[i]);
                if merged && k == before.len() - 1 {
                    assert(cards.contains(prefix.last())) by {
                        assert(cards[last_index - 1] == prefix.last());
                    }
                    assert(cards.contains(cards.last()));
                    assert(f(prefix.last()) == f(cards.last()));
                    assert(f(seqs[seqs.len() - 1].card) == f(cards[i]));
                } else {
                    assert(seqs[k] == before[k]);
                    assert(f(seqs[k].card) == f(cards[i]));
                }
            }
        }
    }
}

/// Whether two cards are of the same suit and next to each other in it.
pub open spec fn touches(a: VirtualCard, b: VirtualCard) -> bool {
    a.suit == b.suit && (a.rank.rank() + 1 == b.rank.rank() || b.rank.rank() + 1 == a.rank.rank())
}

/// The priorities are small enough that the ordering bonuses cannot overflow.
pub open spec fn priority_in_range(p: isize) -> bool {
    -0x1000_0000 <= p <= 0x1000_0000
}

/// Every move keeps its card and run length, and its priority changes by `delta` of its index.
pub open spec fn adds(before: Seq<DdsMove>, after: Seq<DdsMove>, delta: spec_fn(int) -> int) -> bool {
    &&& after.len() == before.len()
    &&& forall|i: int|
        0 <= i < before.len() ==> (#[trigger] after[i]).card == before[i].card
            && after[i].sequence_length == before[i].sequence_length && after[i].priority
            == before[i].priority + delta(i)
}

/// The priorities of all moves are in range.
pub open spec fn priorities_in_range(moves: Seq<DdsMove>) -> bool {
    forall|i: int| 0 <= i < moves.len() ==> priority_in_range(#[trigger] moves[i].priority)
}

/// The priorities are in descending order.
pub open spec fn sorted_by_priority(moves: Seq<DdsMove>) -> bool {
    forall|i: int, j: int|
        0 <= i < j < moves.len() ==> #[trigger] moves[i].priority >= #[trigger] moves[j].priority
}

/// Draws a priority at random (rand's `Rng::gen` on the thread's generator). Nothing is stated
/// of the result: any value can come.
#[verifier::external_body]
fn random_priority() -> isize {
    rand::thread_rng().gen()
}

impl DdsMove {
    /// The move of a single card, with no priority yet.
    pub fn new(card: VirtualCard) -> (m: Self)
        ensures
            m == (DdsMove { card, sequence_length: 1, priority: 0 }),
    {
        Self { card, sequence_length: 1, priority: 0 }
    }
}

/// Computes which moves to try from a position and in what order.
pub struct MoveGenerator {}

impl MoveGenerator {
    /// One move per run of touching cards of the list: the run's last card, with the run's
    /// length.
    pub fn select_one_move_per_sequence(cards: Vec<VirtualCard>) -> (moves: Vec<DdsMove>)
        ensures
            moves@ == sequences(cards@),
    {
        let mut moves: Vec<DdsMove> = Vec::new();
        let mut i: usize = 0;
        while i < cards.len()
            invariant
                0 <= i <= cards@.len(),
                moves@ == sequences(cards@.take(i as int)),
                forall|k: int| 0 <= k < moves@.len() ==> #[trigger] moves@[k].sequence_length <= i,
                moves@.len() <= i,
            decreases cards@.len() - i,
        {
            let card = cards[i];
            proof {
                assert(cards@.take(i as int + 1).drop_last() =~= cards@.take(i as int));
            }
            let n = moves.len();
            if n > 0 && moves[n - 1].card.touches(&card) {
                let last = moves[n - 1];
                moves.set(n - 1, DdsMove { card, sequence_length: last.sequence_length + 1, priority: 0 });
            } else {
                moves.push(DdsMove::new(card));
            }
            i = i + 1;
        }
        proof {
            assert(cards@.take(cards@.len() as int) =~= cards@);
        }
        moves
    }

    /// Puts the moves in descending order of priority.
    pub fn sort_moves_by_priority_descending(moves: &mut Vec<DdsMove>)
        ensures
            final(moves)@.to_multiset() == old(moves)@.to_multiset(),
            sorted_by_priority(final(moves)@),
    {
        let n = moves.len();
        let mut i: usize = 1;
        if n == 0 {
            return;
        }
        while i < n
            invariant
                1 <= i <= n,
                n == moves@.len(),
                moves@.to_multiset() == old(moves)@.to_multiset(),
                sorted_by_priority(moves@.take(i as int)),
            decreases n - i,
        {
            let mut j = i;
            proof {
                assert forall|a: int, b: int|
                    0 <= a < b < i implies #[trigger] moves@[a].priority >= #[trigger] moves@[b].priority by {
                    assert(moves@.take(i as int)[a] == moves@[a]);
                    assert(moves@.take(i as int)[b] == moves@[b]);
                }
            }
            while j > 0 && moves[j - 1].priority < moves[j].priority
                invariant
                    0 <= j <= i < n,
                    n == moves@.len(),
                    moves@.to_multiset() == old(moves)@.to_multiset(),
                    forall|a: int, b: int|
                        0 <= a < b <= i && b != j && a != j ==> #[trigger] moves@[a].priority
                            >= #[trigger] moves@[b].priority,
                    forall|a: int, b: int|
                        0 <= a < j && j < b <= i ==> #[trigger] moves@[a].priority
                            >= #[trigger] moves@[b].priority,
                    forall|b: int|
                        j < b <= i ==> moves@[j as int].priority > #[trigger] moves@[b].priority,
                decreases j,
            {
                let upper = moves[j - 1];
                let lower = moves[j];
                let ghost before = moves@;
                moves.set(j - 1, lower);
                moves.set(j, upper);
                proof {
                    assert(moves@ =~= before.update(j - 1, lower).update(j as int, upper));
                    lemma_swap_multiset(before, j - 1, j as int);
                }
                j = j - 1;
            }
            i = i + 1;
            proof {
                assert forall|a: int, b: int|
                    0 <= a < b < i implies #[trigger] moves@.take(i as int)[a].priority
                        >= #[trigger] moves@.take(i as int)[b].priority by {
                }
            }
        }
        proof {
            assert(moves@.take(n as int) =~= moves@);
        }
    }

    /// Gives every move a random priority.
    pub fn randomize_priority(moves: &mut Vec<DdsMove>)
        ensures
            final(moves)@.len() == old(moves)@.len(),
            forall|i: int|
                0 <= i < old(moves)@.len() ==> (#[trigger] final(moves)@[i]).card == old(
                    moves,
                )@[i].card && final(moves)@[i].sequence_length == old(moves)@[i].sequence_length,
    {
        let mut i: usize = 0;
        while i < moves.len()
            invariant
                0 <= i <= moves@.len(),
                moves@.len() == old(moves)@.len(),
                forall|k: int|
                    0 <= k < old(moves)@.len() ==> (#[trigger] moves@[k]).card == old(moves)@[k].card
                        && moves@[k].sequence_length == old(moves)@[k].sequence_length,
            decreases moves@.len() - i,
        {
            let mut candidate = moves[i];
            candidate.priority = random_priority();
            moves.set(i, candidate);
            i = i + 1;
        }
    }
}

proof fn lemma_swap_multiset(s: Seq<DdsMove>, i: int, j: int)
    requires
        0 <= i < s.len(),
        0 <= j < s.len(),
    ensures
        s.update(i, s[j]).update(j, s[i]).to_multiset() == s.to_multiset(),
{
    broadcast use vstd::seq_lib::group_to_multiset_ensures;
    let t = s.update(i, s[j]);
    assert(t.to_multiset() == s.to_multiset().remove(s[i]).insert(s[j]));
    assert(t.update(j, s[i]).to_multiset() == t.to_multiset().remove(t[j]).insert(s[i]));
    if i == j {
        assert(s.update(i, s[j]).update(j, s[i]) =~= s);
    } else {
        assert(t[j] == s[j]);
    }
}

/// What the move ordering reads of a position.
pub struct PlayView<'a> {
    /// The seat to play.
    pub next_to_play: PlayerPosition,
    /// The suit led to the current trick, if a card has been led.
    pub suit_to_follow: Option<Suit>,
    pub trump_suit: Option<Suit>,
    /// The cards of each seat, North to West, read through virtual ranks.
    pub cards: [VirtualCardTracker<'a>; 4],
    /// Who holds each card still in play.
    pub distribution: &'a DistFieldManager,
    /// The card winning the current trick so far, if a card has been played to it.
    pub currently_winning_card: Option<VirtualCard>,
    /// The seat winning the current trick so far.
    pub current_trick_winner: PlayerPosition,
    pub count_played_cards: usize,
    pub count_cards_in_current_trick: usize,
}

impl<'a> PlayView<'a> {
    /// The cards of a seat.
    pub open spec fn hand(self, p: PlayerPosition) -> VirtualCardTracker<'a> {
        self.cards@[p.rank() as int]
    }

    /// The number of cards of a seat in a suit.
    pub open spec fn count(self, p: PlayerPosition, s: Suit) -> int {
        ones(self.hand(p).held(s), 16) as int
    }

    /// Whether a seat holds the card of virtual rank `v` in a suit.
    pub open spec fn holds(self, p: PlayerPosition, s: Suit, v: int) -> bool {
        self.hand(p).holds(s, v)
    }

    /// The holder of a virtual rank of a suit, by the current distribution record.
    pub open spec fn owner(self, s: Suit, v: VirtualRank) -> Option<PlayerPosition> {
        self.distribution.current().owner_spec(VirtualCard { suit: s, rank: v })
    }

    /// The hands hold only cards in play, the distribution record can be read, and the number of
    /// cards played is far below what could overflow the weights.
    pub open spec fn well_formed(self) -> bool {
        &&& forall|p: PlayerPosition| #[trigger] self.hand(p).in_play_only()
        &&& self.distribution.history().len() > 0
        &&& forall|s: Suit| #[trigger] in_play(self.distribution.current().word(s)) <= 13
        &&& self.count_played_cards < 0x0100_0000
    }

    /// The seat `k` places after the seat to play.
    pub open spec fn seat(self, k: int) -> PlayerPosition {
        self.next_to_play.turned(k)
    }
}

/// The weight of discarding from a suit: low for a guarded second-best card or a lone top card,
/// else growing with length.
pub open spec fn discard_weight(view: PlayView, s: Suit) -> int {
    let me = view.seat(0);
    if view.count(me, s) == 2 && view.holds(me, s, 11) {
        1
    } else if view.count(me, s) == 1 && view.holds(me, s, 12) {
        0
    } else {
        view.count(me, s) * 64 / 36
    }
}

/// The bonus for winning as cheaply as possible: a card above the winning one gets 50 less its
/// rank, any other loses its rank.
pub open spec fn cheap_win_delta(winning: VirtualCard, card: VirtualCard) -> int {
    if card.rank.rank() > winning.rank.rank() {
        50 - card.rank.rank()
    } else {
        -(card.rank.rank() as int)
    }
}

/// The length of an opponent in a suit as the leading weights count it: four per card, a void
/// counting as the number of cards played plus four.
pub open spec fn opponent_length(view: PlayView, p: PlayerPosition, s: Suit) -> int {
    if view.count(p, s) == 0 {
        view.count_played_cards + 4
    } else {
        view.count(p, s) * 4
    }
}

/// Whether the partner can ruff a side suit led to the opponents' ruffs and still win: compared
/// by highest trump with each opponent who can ruff.
pub open spec fn partner_dominates_trump(
    view: PlayView,
    t: Suit,
    lho_can_ruff: bool,
    rho_can_ruff: bool,
    partner_can_ruff: bool,
) -> bool {
    let partners_top = view.hand(view.seat(2)).highest_spec(t);
    partner_can_ruff && if lho_can_ruff && rho_can_ruff {
        beats_maybe(partners_top, view.hand(view.seat(1)).highest_spec(t)) && beats_maybe(
            partners_top,
            view.hand(view.seat(3)).highest_spec(t),
        )
    } else if lho_can_ruff {
        beats_maybe(partners_top, partners_top)
    } else if rho_can_ruff {
        beats_maybe(partners_top, view.hand(view.seat(3)).highest_spec(t))
    } else {
        true
    }
}

/// The bonus for leading a suit in a trump contract.
pub open spec fn trump_lead_bonus(view: PlayView, t: Suit, s: Suit) -> int {
    let me = view.seat(0);
    let lho = view.seat(1);
    let partner = view.seat(2);
    let rho = view.seat(3);
    if s == t {
        let ours = max_of(view.count(me, t), view.count(partner, t));
        let theirs = max_of(view.count(lho, t), view.count(rho, t));
        if ours > theirs {
            5
        } else {
            0
        }
    } else {
        let lho_can_ruff = view.count(lho, s) == 0 && view.count(lho, t) != 0;
        let rho_can_ruff = view.count(rho, s) == 0 && view.count(rho, t) != 0;
        let partner_can_ruff = view.count(partner, s) == 0 && view.count(partner, t) != 0;
        let i_can_ruff_partners_return = view.count(me, s) == 1 && view.count(me, t) != 0
            && view.count(partner, s) >= 2;
        if lho_can_ruff || rho_can_ruff {
            if partner_dominates_trump(view, t, lho_can_ruff, rho_can_ruff, partner_can_ruff) {
                30
            } else {
                -30
            }
        } else if partner_can_ruff {
            20
        } else if i_can_ruff_partners_return {
            16
        } else {
            0
        }
    }
}

/// The part of the leading bonus from who holds the top cards of a suit.
pub open spec fn top_cards_bonus(view: PlayView, s: Suit) -> int {
    let lho = view.seat(1);
    let partner = view.seat(2);
    let rho = view.seat(3);
    let partner_dominates = view.hand(partner).held(s) > view.hand(lho).held(s)
        && view.hand(partner).held(s) > view.hand(rho).held(s);
    (if partner_dominates {
        25int
    } else {
        0
    }) + (if view.holds(rho, s, 12) {
        -18int
    } else {
        0
    }) + (if view.holds(lho, s, 11) && view.holds(partner, s, 12) {
        30int
    } else {
        0
    }) + (if view.holds(lho, s, 12) && view.holds(partner, s, 11) {
        12int
    } else {
        0
    })
}

/// The part of the leading bonus from who holds the second and third cards of a suit.
pub open spec fn runner_up_bonus(view: PlayView, s: Suit) -> int {
    let me = view.seat(0);
    let lho = view.seat(1);
    let partner = view.seat(2);
    let rho = view.seat(3);
    let runner_up = view.owner(s, VirtualRank::King);
    let partner_owns_both_2nd_and_3rd = runner_up == Some(partner) && view.owner(
        s,
        VirtualRank::Queen,
    ) == Some(partner);
    let partner_owns_2nd_and_we_own_3rd = runner_up == Some(partner) && runner_up == Some(me);
    let we_own_2nd_and_partner_owns_3rd = runner_up == Some(me) && runner_up == Some(partner);
    (if runner_up == Some(partner) || runner_up == Some(me) {
        12int
    } else if runner_up == Some(lho) && view.count(lho, s) == 1 {
        11
    } else if runner_up == Some(rho) && view.count(rho, s) == 1 {
        15
    } else {
        0
    }) + (if partner_owns_both_2nd_and_3rd {
        26int
    } else if view.count(partner, s) >= 2 && (partner_owns_2nd_and_we_own_3rd
        || we_own_2nd_and_partner_owns_3rd) {
        25
    } else {
        0
    })
}

/// The part of the leading bonus from the strain: ruffs with trumps, a lone top card of an
/// opponent without.
pub open spec fn strain_bonus(view: PlayView, s: Suit) -> int {
    let me = view.seat(0);
    let lho = view.seat(1);
    let partner = view.seat(2);
    let rho = view.seat(3);
    let runner_up = view.owner(s, VirtualRank::King);
    match view.trump_suit {
        Some(t) => trump_lead_bonus(view, t, s),
        None => if ((view.count(rho, s) == 1 && view.holds(rho, s, 12)) || (view.count(lho, s) == 1
            && view.holds(lho, s, 12))) && (runner_up == Some(partner) || runner_up == Some(me)) {
            20
        } else {
            0
        },
    }
}

/// The bonus for leading a suit: who holds its top cards, who can ruff it.
pub open spec fn leading_bonus(view: PlayView, s: Suit) -> int {
    top_cards_bonus(view, s) + runner_up_bonus(view, s) + strain_bonus(view, s)
}

/// The weight of leading a suit: its bonus, less a share of the opponents' length in it.
pub open spec fn leading_weight(view: PlayView, s: Suit) -> int {
    leading_bonus(view, s) - ((opponent_length(view, view.seat(1), s) + opponent_length(
        view,
        view.seat(3),
        s,
    )) * 16) / 15
}

/// The priority a lead gets: the weight of its suit and its rank, and 50 more for leading from
/// a sequence (two cards with trumps, three without).
pub open spec fn leading_delta(view: PlayView, m: DdsMove) -> int {
    let base = leading_weight(view, m.card.suit) + m.card.rank.rank();
    let needed: usize = match view.trump_suit {
        Some(_) => 2,
        None => 3,
    };
    if m.sequence_length >= needed {
        base + 50
    } else {
        base
    }
}

/// The larger of two integers.
pub open spec fn max_of(a: int, b: int) -> int {
    if a >= b {
        a
    } else {
        b
    }
}

fn is_seat(o: Option<PlayerPosition>, p: PlayerPosition) -> (b: bool)
    ensures
        b == (o == Some(p)),
{
    match o {
        Some(q) => q == p,
        None => false,
    }
}

fn card_order(c: &VirtualCard) -> (n: u8)
    ensures
        n == c.order(),
{
    c.suit.index() * 13 + c.rank.index()
}

fn card_beats(a: &VirtualCard, b: &VirtualCard) -> (r: bool)
    ensures
        r == beats(*a, *b),
{
    card_order(a) > card_order(b)
}

fn card_beats_maybe(a: Option<VirtualCard>, b: Option<VirtualCard>) -> (r: bool)
    ensures
        r == beats_maybe(a, b),
{
    match (a, b) {
        (Some(x), Some(y)) => card_beats(&x, &y),
        (Some(_), None) => true,
        _ => false,
    }
}

impl<'a> PlayView<'a> {
    fn hand_of(&self, p: PlayerPosition) -> (h: &VirtualCardTracker<'a>)
        ensures
            *h == self.hand(p),
    {
        &self.cards[p.index() as usize]
    }

    fn highest_card_of(&self, p: PlayerPosition, s: Suit) -> (c: Option<VirtualCard>)
        requires
            self.well_formed(),
        ensures
            c == self.hand(p).highest_spec(s),
    {
        proof {
            self.hand(p).lemma_extremes_in_play(s);
        }
        self.hand_of(p).highest_card_in(s)
    }

    fn lowest_card_of(&self, p: PlayerPosition, s: Suit) -> (c: Option<VirtualCard>)
        requires
            self.well_formed(),
        ensures
            c == self.hand(p).lowest_spec(s),
    {
        proof {
            self.hand(p).lemma_extremes_in_play(s);
        }
        self.hand_of(p).lowest_card_in(s)
    }
}

impl MoveGenerator {
    /// The weight of discarding from each suit, Clubs to Spades.
    pub fn suit_weights_for_discarding(view: &PlayView) -> (w: [isize; 4])
        ensures
            forall|s: Suit| #[trigger] w@[s.rank() as int] == discard_weight(*view, s),
            forall|i: int| 0 <= i < 4 ==> 0 <= #[trigger] w@[i] <= 28,
    {
        let my_hand = view.hand_of(view.next_to_play);
        let mut weights = [0isize; 4];
        let mut i: usize = 0;
        while i < 4
            invariant
                0 <= i <= 4,
                *my_hand == view.hand(view.seat(0)),
                forall|j: int|
                    0 <= j < i ==> #[trigger] weights@[j] == discard_weight(*view, Suit::of_rank(j as u8)),
                forall|j: int| 0 <= j < 4 ==> 0 <= #[trigger] weights@[j] <= 28,
            decreases 4 - i,
        {
            let suit = Suit::from_index(i as u8);
            proof {
                assert(view.seat(0) == view.next_to_play) by {
                    assert(view.next_to_play.turned(0) == view.next_to_play);
                }
            }
            weights[i] = if my_hand.has_doubleton_runner_up_in(suit) {
                1
            } else if my_hand.has_singleton_winner_in(suit) {
                0
            } else {
                my_hand.count_cards_in(suit) as isize * 64 / 36
            };
            i = i + 1;
        }
        proof {
            assert forall|s: Suit| #[trigger] weights@[s.rank() as int] == discard_weight(*view, s) by {
                crate::card::lemma_suit_rank_bijection(s, s.rank());
            }
        }
        weights
    }
}

/// The priority a discard gets at no trumps: the weight of its suit less its rank.
pub open spec fn nt_void_delta(view: PlayView, m: DdsMove) -> int {
    discard_weight(view, m.card.suit) - m.card.rank.rank()
}

impl MoveGenerator {
    /// Orders discards at no trumps: from the suit with the highest discard weight, lowest
    /// first.
    pub fn calc_priority_nt_void(moves: &mut Vec<DdsMove>, view: &PlayView)
        requires
            priorities_in_range(old(moves)@),
        ensures
            adds(old(moves)@, final(moves)@, |i: int| nt_void_delta(*view, old(moves)@[i])),
    {
        let suit_weights = Self::suit_weights_for_discarding(view);
        let mut i: usize = 0;
        while i < moves.len()
            invariant
                0 <= i <= moves@.len(),
                moves@.len() == old(moves)@.len(),
                priorities_in_range(old(moves)@),
                forall|s: Suit| #[trigger] suit_weights@[s.rank() as int] == discard_weight(*view, s),
                forall|k: int| 0 <= k < 4 ==> 0 <= #[trigger] suit_weights@[k] <= 28,
                forall|k: int|
                    0 <= k < old(moves)@.len() ==> (#[trigger] moves@[k]).card == old(moves)@[k].card
                        && moves@[k].sequence_length == old(moves)@[k].sequence_length
                        && moves@[k].priority == old(moves)@[k].priority + if k < i {
                        nt_void_delta(*view, old(moves)@[k])
                    } else {
                        0
                    },
            decreases moves@.len() - i,
        {
            let mut candidate = moves[i];
            let weight = suit_weights[candidate.card.suit.index() as usize];
            proof {
                assert(priority_in_range(old(moves)@[i as int].priority));
            }
            candidate.priority = candidate.priority + weight - candidate.card.rank.index() as isize;
            moves.set(i, candidate);
            i = i + 1;
        }
    }

    /// Plays the cheapest card that beats the winning card, else the lowest: a card above the
    /// winning card's rank gets 50 less its rank, any other loses its rank.
    pub fn try_to_win_as_cheaply_as_possible(view: &PlayView, candidate: &mut DdsMove)
        requires
            view.currently_winning_card is Some,
            priority_in_range(old(candidate).priority),
        ensures
            final(candidate).card == old(candidate).card,
            final(candidate).sequence_length == old(candidate).sequence_length,
            final(candidate).priority == old(candidate).priority + cheap_win_delta(
                view.currently_winning_card.unwrap(),
                old(candidate).card,
            ),
    {
        let winning = view.currently_winning_card.unwrap();
        let rank = candidate.card.rank.index() as isize;
        if candidate.card.rank.index() > winning.rank.index() {
            candidate.priority = candidate.priority + 50 - rank;
        } else {
            candidate.priority = candidate.priority - rank;
        }
    }

    fn trump_lead_bonus_in(view: &PlayView, t: Suit, s: Suit) -> (b: isize)
        requires
            view.well_formed(),
        ensures
            b == trump_lead_bonus(*view, t, s),
    {
        let player = view.next_to_play;
        let lho = player.after(1);
        let partner = player.after(2);
        let rho = player.after(3);
        proof {
            assert(view.seat(0) == player) by {
                assert(player.turned(0) == player);
            }
        }
        let my_hand = view.hand_of(player);
        let lhos_hand = view.hand_of(lho);
        let partners_hand = view.hand_of(partner);
        let rhos_hand = view.hand_of(rho);
        if s == t {
            let mine = my_hand.count_cards_in(t);
            let partners = partners_hand.count_cards_in(t);
            let lhos = lhos_hand.count_cards_in(t);
            let rhos = rhos_hand.count_cards_in(t);
            let our_trump_length = if mine > partners {
                mine
            } else {
                partners
            };
            let opponents_trump_length = if lhos > rhos {
                lhos
            } else {
                rhos
            };
            if our_trump_length > opponents_trump_length {
                5
            } else {
                0
            }
        } else {
            let lho_can_ruff = lhos_hand.count_cards_in(s) == 0 && lhos_hand.count_cards_in(t) != 0;
            let rho_can_ruff = rhos_hand.count_cards_in(s) == 0 && rhos_hand.count_cards_in(t) != 0;
            let partner_can_ruff = partners_hand.count_cards_in(s) == 0
                && partners_hand.count_cards_in(t) != 0;
            let i_can_ruff_partners_return = my_hand.count_cards_in(s) == 1
                && my_hand.count_cards_in(t) != 0 && partners_hand.count_cards_in(s) >= 2;
            if lho_can_ruff || rho_can_ruff {
                let partners_top = view.highest_card_of(partner, t);
                let dominates = partner_can_ruff && if lho_can_ruff && rho_can_ruff {
                    card_beats_maybe(partners_top, view.highest_card_of(lho, t))
                        && card_beats_maybe(partners_top, view.highest_card_of(rho, t))
                } else if lho_can_ruff {
                    card_beats_maybe(partners_top, partners_top)
                } else if rho_can_ruff {
                    card_beats_maybe(partners_top, view.highest_card_of(rho, t))
                } else {
                    true
                };
                if dominates {
                    30
                } else {
                    -30
                }
            } else if partner_can_ruff {
                20
            } else if i_can_ruff_partners_return {
                16
            } else {
                0
            }
        }
    }

    fn top_cards_bonus_in(view: &PlayView, s: Suit) -> (b: isize)
        ensures
            b == top_cards_bonus(*view, s),
    {
        let lho = view.next_to_play.after(1);
        let partner = view.next_to_play.after(2);
        let rho = view.next_to_play.after(3);
        let lhos_hand = view.hand_of(lho);
        let partners_hand = view.hand_of(partner);
        let rhos_hand = view.hand_of(rho);
        let mut bonus: isize = 0;
        let partner_dominates_suit = partners_hand.has_higher_cards_in_suit_than(s, lhos_hand)
            && partners_hand.has_higher_cards_in_suit_than(s, rhos_hand);
        if partner_dominates_suit {
            bonus = bonus + 25;
        }
        if rhos_hand.contains_winning_rank_in(s) {
            bonus = bonus - 18;
        }
        if lhos_hand.contains_runner_up_in(s) && partners_hand.contains_winning_rank_in(s) {
            bonus = bonus + 30;
        }
        if lhos_hand.contains_winning_rank_in(s) && partners_hand.contains_runner_up_in(s) {
            bonus = bonus + 12;
        }
        bonus
    }

    fn runner_up_bonus_in(view: &PlayView, s: Suit) -> (b: isize)
        requires
            view.well_formed(),
        ensures
            b == runner_up_bonus(*view, s),
    {
        let player = view.next_to_play;
        let lho = player.after(1);
        let partner = player.after(2);
        let rho = player.after(3);
        proof {
            assert(view.seat(0) == player) by {
                assert(player.turned(0) == player);
            }
        }
        let lhos_hand = view.hand_of(lho);
        let partners_hand = view.hand_of(partner);
        let rhos_hand = view.hand_of(rho);
        let mut bonus: isize = 0;
        let runner_up = view.distribution.owner_of_runner_up_in(s);
        if is_seat(runner_up, partner) || is_seat(runner_up, player) {
            bonus = bonus + 12;
        } else if is_seat(runner_up, lho) && lhos_hand.has_singleton_in(s) {
            bonus = bonus + 11;
        } else if is_seat(runner_up, rho) && rhos_hand.has_singleton_in(s) {
            bonus = bonus + 15;
        }
        let third = view.distribution.owner_of(&VirtualCard { suit: s, rank: VirtualRank::Queen });
        let partner_owns_both_2nd_and_3rd = is_seat(runner_up, partner) && is_seat(third, partner);
        let partner_owns_2nd_and_we_own_3rd = is_seat(runner_up, partner) && is_seat(
            runner_up,
            player,
        );
        let we_own_2nd_and_partner_owns_3rd = is_seat(runner_up, player) && is_seat(
            runner_up,
            partner,
        );
        if partner_owns_both_2nd_and_3rd {
            bonus = bonus + 26;
        } else if partners_hand.count_cards_in(s) >= 2 && (partner_owns_2nd_and_we_own_3rd
            || we_own_2nd_and_partner_owns_3rd) {
            bonus = bonus + 25;
        }
        bonus
    }

    fn strain_bonus_in(view: &PlayView, s: Suit) -> (b: isize)
        requires
            view.well_formed(),
        ensures
            b == strain_bonus(*view, s),
    {
        let player = view.next_to_play;
        let lho = player.after(1);
        let partner = player.after(2);
        let rho = player.after(3);
        proof {
            assert(view.seat(0) == player) by {
                assert(player.turned(0) == player);
            }
        }
        match view.trump_suit {
            Some(t) => Self::trump_lead_bonus_in(view, t, s),
            None => {
                let runner_up = view.distribution.owner_of_runner_up_in(s);
                if (view.hand_of(rho).has_singleton_winner_in(s) || view.hand_of(
                    lho,
                ).has_singleton_winner_in(s)) && (is_seat(runner_up, partner) || is_seat(
                    runner_up,
                    player,
                )) {
                    20
                } else {
                    0
                }
            },
        }
    }

    fn leading_bonus_in(view: &PlayView, s: Suit) -> (b: isize)
        requires
            view.well_formed(),
        ensures
            b == leading_bonus(*view, s),
    {
        proof {
            lemma_leading_bonus_parts(*view, s);
        }
        Self::top_cards_bonus_in(view, s) + Self::runner_up_bonus_in(view, s)
            + Self::strain_bonus_in(view, s)
    }

    /// The weight of leading from each suit, Clubs to Spades.
    pub fn suit_weights_for_leading(view: &PlayView) -> (w: [isize; 4])
        requires
            view.well_formed(),
        ensures
            forall|s: Suit| #[trigger] w@[s.rank() as int] == leading_weight(*view, s),
    {
        let lho = view.next_to_play.after(1);
        let rho = view.next_to_play.after(3);
        let played = view.count_played_cards as isize;
        let mut weights = [0isize; 4];
        let mut i: usize = 0;
        while i < 4
            invariant
                0 <= i <= 4,
                view.well_formed(),
                lho == view.seat(1),
                rho == view.seat(3),
                played == view.count_played_cards,
                forall|j: int|
                    0 <= j < i ==> #[trigger] weights@[j] == leading_weight(*view, Suit::of_rank(j as u8)),
            decreases 4 - i,
        {
            let suit = Suit::from_index(i as u8);
            let bonus = Self::leading_bonus_in(view, suit);
            let lhos_count = view.hand_of(lho).count_cards_in(suit);
            let rhos_count = view.hand_of(rho).count_cards_in(suit);
            let count_lho = if lhos_count == 0 {
                played + 4
            } else {
                lhos_count as isize * 4
            };
            let count_rho = if rhos_count == 0 {
                played + 4
            } else {
                rhos_count as isize * 4
            };
            weights[i] = bonus - ((count_lho + count_rho) * 16) / 15;
            i = i + 1;
        }
        proof {
            assert forall|s: Suit| #[trigger] weights@[s.rank() as int] == leading_weight(*view, s) by {
                crate::card::lemma_suit_rank_bijection(s, s.rank());
            }
        }
        weights
    }

    /// Orders leads: by the weight of the suit and the rank of the card, and 50 more for leading
    /// from a sequence.
    pub fn calc_priority_leading(moves: &mut Vec<DdsMove>, view: &PlayView)
        requires
            view.well_formed(),
            priorities_in_range(old(moves)@),
        ensures
            adds(old(moves)@, final(moves)@, |i: int| leading_delta(*view, old(moves)@[i])),
    {
        let suit_weights = Self::suit_weights_for_leading(view);
        let needed: usize = match view.trump_suit {
            Some(_) => 2,
            None => 3,
        };
        let mut i: usize = 0;
        while i < moves.len()
            invariant
                0 <= i <= moves@.len(),
                moves@.len() == old(moves)@.len(),
                view.well_formed(),
                priorities_in_range(old(moves)@),
                needed == (match view.trump_suit {
                    Some(_) => 2usize,
                    None => 3usize,
                }),
                forall|s: Suit| #[trigger] suit_weights@[s.rank() as int] == leading_weight(*view, s),
                forall|k: int|
                    0 <= k < old(moves)@.len() ==> (#[trigger] moves@[k]).card == old(moves)@[k].card
                        && moves@[k].sequence_length == old(moves)@[k].sequence_length
                        && moves@[k].priority == old(moves)@[k].priority + if k < i {
                        leading_delta(*view, old(moves)@[k])
                    } else {
                        0
                    },
            decreases moves@.len() - i,
        {
            let mut candidate = moves[i];
            let suit_weight = suit_weights[candidate.card.suit.index() as usize];
            proof {
                assert(priority_in_range(old(moves)@[i as int].priority));
                lemma_leading_weight_bounds(*view, candidate.card.suit);
            }
            let rank = candidate.card.rank.index() as isize;
            candidate.priority = if candidate.sequence_length >= needed {
                candidate.priority + (suit_weight + 50 + rank)
            } else {
                candidate.priority + (suit_weight + rank)
            };
            moves.set(i, candidate);
            i = i + 1;
        }
    }
}

/// The weight of leading a suit stays far from the limits of a priority.
proof fn lemma_leading_weight_bounds(view: PlayView, s: Suit)
    requires
        view.well_formed(),
    ensures
        -0x4000_0000 <= leading_weight(view, s) <= 200,
{
    let lho = view.seat(1);
    let rho = view.seat(3);
    crate::dds::virtual_card_tracker::lemma_ones_at_most(view.hand(lho).held(s), 16);
    crate::dds::virtual_card_tracker::lemma_ones_at_most(view.hand(rho).held(s), 16);
    let a = opponent_length(view, lho, s);
    let b = opponent_length(view, rho, s);
    assert(4 <= a <= 0x0100_0004);
    assert(4 <= b <= 0x0100_0004);
    assert(8 <= (a + b) * 16 / 15 <= 0x2200_0000) by (nonlinear_arith)
        requires
            4 <= a <= 0x0100_0004,
            4 <= b <= 0x0100_0004,
    ;
    lemma_leading_bonus_bounds(view, s);
}

proof fn lemma_leading_bonus_bounds(view: PlayView, s: Suit)
    ensures
        -48 <= leading_bonus(view, s) <= 200,
{
    lemma_leading_bonus_parts(view, s);
}

proof fn lemma_leading_bonus_parts(view: PlayView, s: Suit)
    ensures
        -18 <= top_cards_bonus(view, s) <= 67,
        0 <= runner_up_bonus(view, s) <= 41,
        -30 <= strain_bonus(view, s) <= 30,
{
    match view.trump_suit {
        Some(t) => {
            assert(-30 <= trump_lead_bonus(view, t, s) <= 30);
        },
        None => {},
    }
}

/// The first position from `i` on of a move with the property, or the number of moves if
/// there is none.
pub open spec fn first_from(moves: Seq<DdsMove>, p: spec_fn(DdsMove) -> bool, i: int) -> int
    decreases moves.len() - i,
{
    if i < 0 || i >= moves.len() {
        moves.len() as int
    } else if p(moves[i]) {
        i
    } else {
        first_from(moves, p, i + 1)
    }
}

/// What a move is looked for.
pub enum Wanted {
    /// A card above the given one.
    Beats(VirtualCard),
    /// A card above both given ones.
    BeatsBoth(VirtualCard, VirtualCard),
    /// A card above the given one that stands for a sequence.
    BeatsInSequence(VirtualCard),
    /// A card of the suit.
    InSuit(Suit),
    /// A card of the suit above the given rank.
    InSuitAbove(Suit, u8),
}

/// Whether a move is what is looked for.
pub open spec fn wanted(w: Wanted) -> spec_fn(DdsMove) -> bool {
    |m: DdsMove|
        match w {
            Wanted::Beats(c) => beats(m.card, c),
            Wanted::BeatsBoth(c, d) => beats(m.card, c) && beats(m.card, d),
            Wanted::BeatsInSequence(c) => beats(m.card, c) && m.sequence_length > 1,
            Wanted::InSuit(t) => m.card.suit == t,
            Wanted::InSuitAbove(t, r) => m.card.suit == t && m.card.rank.rank() > r,
        }
}

/// The first position of a move that is what is looked for, or the number of moves.
pub open spec fn first_wanted(moves: Seq<DdsMove>, w: Wanted) -> int {
    first_from(moves, wanted(w), 0)
}

proof fn lemma_first_from_skip(moves: Seq<DdsMove>, p: spec_fn(DdsMove) -> bool, i: int)
    requires
        0 <= i <= moves.len(),
        forall|k: int| 0 <= k < i ==> !p(#[trigger] moves[k]),
    ensures
        first_from(moves, p, 0) == first_from(moves, p, i),
    decreases i,
{
    if i > 0 {
        lemma_first_from_skip(moves, p, i - 1);
    }
}

fn is_wanted(m: &DdsMove, w: &Wanted) -> (b: bool)
    ensures
        b == wanted(*w)(*m),
{
    match w {
        Wanted::Beats(c) => card_beats(&m.card, c),
        Wanted::BeatsBoth(c, d) => card_beats(&m.card, c) && card_beats(&m.card, d),
        Wanted::BeatsInSequence(c) => card_beats(&m.card, c) && m.sequence_length > 1,
        Wanted::InSuit(t) => m.card.suit == *t,
        Wanted::InSuitAbove(t, r) => m.card.suit == *t && m.card.rank.index() > *r,
    }
}

fn find_first(moves: &Vec<DdsMove>, w: Wanted) -> (i: usize)
    ensures
        i == first_wanted(moves@, w),
        i <= moves@.len(),
{
    let mut i: usize = 0;
    while i < moves.len()
        invariant
            0 <= i <= moves@.len(),
            forall|k: int| 0 <= k < i ==> !wanted(w)(#[trigger] moves@[k]),
        decreases moves@.len() - i,
    {
        if is_wanted(&moves[i], &w) {
            proof {
                lemma_first_from_skip(moves@, wanted(w), i as int);
            }
            return i;
        }
        i = i + 1;
    }
    proof {
        lemma_first_from_skip(moves@, wanted(w), i as int);
    }
    i
}

/// Where the second player's bonus goes at no trumps when following suit, and how big it is:
/// win the trick if the partner cannot, beating the next player's top card if possible.
pub open spec fn second_nt_bonus(view: PlayView, moves: Seq<DdsMove>) -> (int, int) {
    let lead = view.currently_winning_card.unwrap();
    let partners_top = view.hand(view.seat(2)).highest_spec(lead.suit);
    let lhos_top = view.hand(view.seat(1)).highest_spec(lead.suit);
    let none = (moves.len() as int, 0int);
    let beat_both_or_sequence = if first_wanted(moves, Wanted::BeatsBoth(lead, lhos_top.unwrap()))
        < moves.len() {
        (first_wanted(moves, Wanted::BeatsBoth(lead, lhos_top.unwrap())), 80int)
    } else {
        (first_wanted(moves, Wanted::BeatsInSequence(lead)), 10int)
    };
    if partners_top is None && lhos_top is None {
        (first_wanted(moves, Wanted::Beats(lead)), 50)
    } else if lhos_top is None {
        if beats(lead, partners_top.unwrap()) {
            (first_wanted(moves, Wanted::Beats(lead)), 50)
        } else {
            none
        }
    } else if partners_top is None {
        beat_both_or_sequence
    } else if beats(lead, partners_top.unwrap()) || beats_maybe(lhos_top, partners_top) {
        beat_both_or_sequence
    } else {
        none
    }
}

/// The priority the second player's card gets at no trumps when following suit: its rank is
/// taken off, and one card gets the bonus.
pub open spec fn second_nt_not_void_delta(view: PlayView, moves: Seq<DdsMove>, i: int) -> int {
    let bonus = second_nt_bonus(view, moves);
    -(moves[i].card.rank.rank() as int) + if i == bonus.0 {
        bonus.1
    } else {
        0
    }
}

/// The priority the second player's card gets with trumps when not following suit.
pub open spec fn second_trump_void_delta(view: PlayView, t: Suit, m: DdsMove) -> int {
    let lead = view.currently_winning_card.unwrap();
    let partner_void = view.hand(view.seat(2)).highest_spec(lead.suit) is None;
    let lho_void = view.hand(view.seat(1)).highest_spec(lead.suit) is None;
    if lead.suit == t {
        m.card.rank.rank() - discard_weight(view, m.card.suit)
    } else if lho_void && partner_void && beats(m.card, lead) {
        m.card.rank.rank() as int
    } else {
        0
    }
}

/// The priority the second player's card gets with trumps when following suit.
pub open spec fn second_trump_not_void_delta(view: PlayView, t: Suit, m: DdsMove) -> int {
    let lead = view.currently_winning_card.unwrap();
    (if lead.suit == t {
        -(m.card.rank.rank() as int)
    } else {
        0
    }) + if beats(m.card, lead) {
        m.card.rank.rank() as int
    } else {
        0
    }
}

/// The priority the second player's card gets.
pub open spec fn second_delta(view: PlayView, moves: Seq<DdsMove>, i: int) -> int {
    if moves[0].card.suit != view.suit_to_follow.unwrap() {
        match view.trump_suit {
            None => nt_void_delta(view, moves[i]),
            Some(t) => second_trump_void_delta(view, t, moves[i]),
        }
    } else {
        match view.trump_suit {
            None => second_nt_not_void_delta(view, moves, i),
            Some(t) => second_trump_not_void_delta(view, t, moves[i]),
        }
    }
}

impl MoveGenerator {
    fn add_at(moves: &mut Vec<DdsMove>, index: usize, bonus: isize)
        requires
            -100 <= bonus <= 100,
            index < old(moves)@.len() ==> -0x2000_0000 <= old(moves)@[index as int].priority
                <= 0x2000_0000,
        ensures
            adds(
                old(moves)@,
                final(moves)@,
                |k: int|
                    if k == index {
                        bonus as int
                    } else {
                        0
                    },
            ),
    {
        if index < moves.len() {
            let mut candidate = moves[index];
            candidate.priority = candidate.priority + bonus;
            moves.set(index, candidate);
        }
    }

    fn lower_by_rank(moves: &mut Vec<DdsMove>)
        requires
            priorities_in_range(old(moves)@),
        ensures
            adds(old(moves)@, final(moves)@, |k: int| -(old(moves)@[k].card.rank.rank() as int)),
    {
        let mut i: usize = 0;
        while i < moves.len()
            invariant
                0 <= i <= moves@.len(),
                moves@.len() == old(moves)@.len(),
                priorities_in_range(old(moves)@),
                forall|k: int|
                    0 <= k < old(moves)@.len() ==> (#[trigger] moves@[k]).card == old(moves)@[k].card
                        && moves@[k].sequence_length == old(moves)@[k].sequence_length
                        && moves@[k].priority == old(moves)@[k].priority - if k < i {
                        old(moves)@[k].card.rank.rank() as int
                    } else {
                        0
                    },
            decreases moves@.len() - i,
        {
            let mut candidate = moves[i];
            proof {
                assert(priority_in_range(old(moves)@[i as int].priority));
            }
            candidate.priority = candidate.priority - candidate.card.rank.index() as isize;
            moves.set(i, candidate);
            i = i + 1;
        }
    }

    fn calc_priority_playing_second_nt_not_void(moves: &mut Vec<DdsMove>, view: &PlayView)
        requires
            view.well_formed(),
            view.currently_winning_card is Some,
            priorities_in_range(old(moves)@),
        ensures
            adds(
                old(moves)@,
                final(moves)@,
                |i: int| second_nt_not_void_delta(*view, old(moves)@, i),
            ),
    {
        let lead_card = view.currently_winning_card.unwrap();
        let lead_suit = lead_card.suit;
        let partners_highest = view.highest_card_of(view.next_to_play.after(2), lead_suit);
        let lhos_highest = view.highest_card_of(view.next_to_play.after(1), lead_suit);
        let partner_is_void = partners_highest.is_none();
        let lho_is_void = lhos_highest.is_none();
        let none = moves.len();
        let (index, bonus): (usize, isize) = if partner_is_void && lho_is_void {
            (find_first(moves, Wanted::Beats(lead_card)), 50)
        } else if lho_is_void {
            if card_beats(&lead_card, &partners_highest.unwrap()) {
                (find_first(moves, Wanted::Beats(lead_card)), 50)
            } else {
                (none, 0)
            }
        } else {
            let partner_cannot_beat_opponents = partner_is_void || card_beats(
                &lead_card,
                &partners_highest.unwrap(),
            ) || card_beats_maybe(lhos_highest, partners_highest);
            if partner_cannot_beat_opponents {
                let beat_both = find_first(moves, Wanted::BeatsBoth(lead_card, lhos_highest.unwrap()));
                if beat_both < moves.len() {
                    (beat_both, 80)
                } else {
                    (find_first(moves, Wanted::BeatsInSequence(lead_card)), 10)
                }
            } else {
                (none, 0)
            }
        };
        let ghost start = moves@;
        Self::lower_by_rank(moves);
        let ghost lowered = moves@;
        proof {
            if index < lowered.len() {
                assert(priority_in_range(start[index as int].priority));
                assert(lowered[index as int].priority == start[index as int].priority
                    - start[index as int].card.rank.rank());
            }
        }
        Self::add_at(moves, index, bonus);
    }

    fn calc_priority_playing_second_trump_void(moves: &mut Vec<DdsMove>, view: &PlayView, trump_suit: Suit)
        requires
            view.well_formed(),
            view.currently_winning_card is Some,
            priorities_in_range(old(moves)@),
        ensures
            adds(
                old(moves)@,
                final(moves)@,
                |i: int| second_trump_void_delta(*view, trump_suit, old(moves)@[i]),
            ),
    {
        let suit_weights = Self::suit_weights_for_discarding(view);
        let lead_card = view.currently_winning_card.unwrap();
        let lead_suit = lead_card.suit;
        let partners_highest = view.highest_card_of(view.next_to_play.after(2), lead_suit);
        let lhos_highest = view.highest_card_of(view.next_to_play.after(1), lead_suit);
        let partner_is_void = partners_highest.is_none();
        let lho_is_void = lhos_highest.is_none();
        let mut i: usize = 0;
        while i < moves.len()
            invariant
                0 <= i <= moves@.len(),
                moves@.len() == old(moves)@.len(),
                priorities_in_range(old(moves)@),
                view.currently_winning_card == Some(lead_card),
                lead_suit == lead_card.suit,
                partner_is_void == (view.hand(view.seat(2)).highest_spec(lead_suit) is None),
                lho_is_void == (view.hand(view.seat(1)).highest_spec(lead_suit) is None),
                forall|s: Suit| #[trigger] suit_weights@[s.rank() as int] == discard_weight(*view, s),
                forall|k: int| 0 <= k < 4 ==> 0 <= #[trigger] suit_weights@[k] <= 28,
                forall|k: int|
                    0 <= k < old(moves)@.len() ==> (#[trigger] moves@[k]).card == old(moves)@[k].card
                        && moves@[k].sequence_length == old(moves)@[k].sequence_length
                        && moves@[k].priority == old(moves)@[k].priority + if k < i {
                        second_trump_void_delta(*view, trump_suit, old(moves)@[k])
                    } else {
                        0
                    },
            decreases moves@.len() - i,
        {
            let mut candidate = moves[i];
            proof {
                assert(priority_in_range(old(moves)@[i as int].priority));
            }
            let rank = candidate.card.rank.index() as isize;
            if lead_suit == trump_suit {
                let weight = suit_weights[candidate.card.suit.index() as usize];
                candidate.priority = candidate.priority - (weight - rank);
            } else if lho_is_void && partner_is_void {
                if card_beats(&candidate.card, &lead_card) {
                    candidate.priority = candidate.priority + rank;
                }
            }
            moves.set(i, candidate);
            i = i + 1;
        }
    }

    fn calc_priority_playing_second_trump_not_void(
        moves: &mut Vec<DdsMove>,
        view: &PlayView,
        trump_suit: Suit,
    )
        requires
            view.currently_winning_card is Some,
            priorities_in_range(old(moves)@),
        ensures
            adds(
                old(moves)@,
                final(moves)@,
                |i: int| second_trump_not_void_delta(*view, trump_suit, old(moves)@[i]),
            ),
    {
        let lead_card = view.currently_winning_card.unwrap();
        let mut i: usize = 0;
        while i < moves.len()
            invariant
                0 <= i <= moves@.len(),
                moves@.len() == old(moves)@.len(),
                priorities_in_range(old(moves)@),
                view.currently_winning_card == Some(lead_card),
                forall|k: int|
                    0 <= k < old(moves)@.len() ==> (#[trigger] moves@[k]).card == old(moves)@[k].card
                        && moves@[k].sequence_length == old(moves)@[k].sequence_length
                        && moves@[k].priority == old(moves)@[k].priority + if k < i {
                        second_trump_not_void_delta(*view, trump_suit, old(moves)@[k])
                    } else {
                        0
                    },
            decreases moves@.len() - i,
        {
            let mut candidate = moves[i];
            proof {
                assert(priority_in_range(old(moves)@[i as int].priority));
            }
            let rank = candidate.card.rank.index() as isize;
            if lead_card.suit == trump_suit {
                candidate.priority = candidate.priority - rank;
            }
            if card_beats(&candidate.card, &lead_card) {
                candidate.priority = candidate.priority + rank;
            }
            moves.set(i, candidate);
            i = i + 1;
        }
    }

    /// Orders the second player's cards: discards by suit weight, following cards by whether
    /// they should win the trick.
    pub fn calc_priority_playing_second(moves: &mut Vec<DdsMove>, view: &PlayView)
        requires
            view.well_formed(),
            old(moves)@.len() > 0,
            view.suit_to_follow is Some,
            view.currently_winning_card is Some,
            priorities_in_range(old(moves)@),
        ensures
            adds(old(moves)@, final(moves)@, |i: int| second_delta(*view, old(moves)@, i)),
    {
        if moves[0].card.suit != view.suit_to_follow.unwrap() {
            match view.trump_suit {
                None => Self::calc_priority_nt_void(moves, view),
                Some(trump_suit) => Self::calc_priority_playing_second_trump_void(moves, view, trump_suit),
            }
        } else {
            match view.trump_suit {
                None => Self::calc_priority_playing_second_nt_not_void(moves, view),
                Some(trump_suit) => Self::calc_priority_playing_second_trump_not_void(
                    moves,
                    view,
                    trump_suit,
                ),
            }
        }
    }
}

/// The number of the next player's cards of a suit that a card of the third player beats:
/// those up to and including the card's absolute rank.
pub open spec fn lhos_cards_beaten(view: PlayView, card: VirtualCard) -> int {
    let lho = view.hand(view.seat(1));
    match absolute_of(lho.out(card.suit), card.rank) {
        Some(d) => ones(lho.held(card.suit) & low_mask_through(d), 16) as int,
        None => 0,
    }
}

/// The most of the next player's cards beaten by any of the first `i` moves, or none.
pub open spec fn beaten_before(view: PlayView, moves: Seq<DdsMove>, i: int) -> int
    decreases i,
{
    if i <= 0 {
        0
    } else {
        max_of(beaten_before(view, moves, i - 1), lhos_cards_beaten(view, moves[i - 1].card))
    }
}

/// Whether the third player's cards cannot matter at no trumps: the player's highest card of
/// the suit led is below the winning card and below the next player's lowest.
pub open spec fn third_cards_do_not_matter(view: PlayView) -> bool {
    let lead_suit = view.suit_to_follow.unwrap();
    let winning = view.currently_winning_card.unwrap();
    let my_highest = view.hand(view.seat(0)).highest_spec(lead_suit).unwrap();
    match view.hand(view.seat(1)).lowest_spec(lead_suit) {
        None => beats(winning, my_highest),
        Some(low) => beats(winning, my_highest) && beats(low, my_highest),
    }
}

/// Whether the next player can still beat the winning card in the suit led.
pub open spec fn lho_can_still_win(view: PlayView) -> bool {
    match view.hand(view.seat(1)).highest_spec(view.suit_to_follow.unwrap()) {
        None => false,
        Some(c) => beats(c, view.currently_winning_card.unwrap()),
    }
}

/// The priority the third player's card gets at no trumps when following suit: low when its
/// cards cannot matter; while the next player can still win, a bonus for each card that beats
/// more of the next player's cards; when the opponent on the right is winning, a bonus for the
/// cheapest card that wins; else high only if the suit can be run.
pub open spec fn third_nt_not_void_delta(view: PlayView, moves: Seq<DdsMove>, i: int) -> int {
    let me = view.seat(0);
    let lead_suit = view.suit_to_follow.unwrap();
    let winning = view.currently_winning_card.unwrap();
    let partner_is_winning = view.current_trick_winner == view.seat(2);
    let card = moves[i].card;
    let rank = card.rank.rank() as int;
    if third_cards_do_not_matter(view) {
        -rank
    } else if lho_can_still_win(view) {
        let beaten = lhos_cards_beaten(view, card);
        if beaten > beaten_before(view, moves, i) {
            10 * beaten - rank
        } else {
            -rank
        }
    } else if !partner_is_winning {
        if beats(card, winning) {
            (if i == first_wanted(moves, Wanted::Beats(winning)) {
                20int
            } else {
                0
            }) - rank
        } else {
            -rank
        }
    } else {
        let my_high_cards = top_run(view.hand(me).held(lead_suit), view.hand(me).out(lead_suit), 12)
            as int;
        let opponents_length = max_of(
            view.count(view.seat(1), lead_suit),
            view.count(view.seat(3), lead_suit) + 1,
        );
        if my_high_cards >= opponents_length {
            rank
        } else {
            -rank
        }
    }
}

/// The priority the third player's card gets with trumps when not following suit.
pub open spec fn third_trump_void_delta(view: PlayView, t: Suit, m: DdsMove) -> int {
    let lead_suit = view.suit_to_follow.unwrap();
    let winning = view.currently_winning_card.unwrap();
    let lho = view.hand(view.seat(1));
    let partner_is_winning = view.current_trick_winner == view.seat(2);
    let lho_can_ruff = lho.held(lead_suit) == 0 && lho.held(t) != 0;
    let lho_can_still_win = match lho.highest_spec(lead_suit) {
        None => lho.held(t) != 0,
        Some(c) => beats(c, winning),
    };
    let rho_has_ruffed = lead_suit != t && winning.suit == t;
    let rank = m.card.rank.rank() as int;
    if m.card.suit == t {
        if lho_can_ruff {
            if beats(m.card, lho.highest_spec(t).unwrap()) {
                55 - rank
            } else if partner_is_winning {
                -50 + rank
            } else {
                50 - rank
            }
        } else if rho_has_ruffed {
            if m.card.rank.rank() > winning.rank.rank() {
                50 - rank
            } else {
                -50 - rank
            }
        } else if lho_can_still_win || !partner_is_winning {
            50 - rank
        } else {
            -50 - rank
        }
    } else {
        discard_weight(view, m.card.suit) - rank
    }
}

/// The priority the third player's card gets with trumps when following suit.
pub open spec fn third_trump_not_void_delta(view: PlayView, m: DdsMove) -> int {
    if beats(m.card, view.currently_winning_card.unwrap()) {
        m.card.rank.rank() as int
    } else {
        0
    }
}

/// The priority the third player's card gets.
pub open spec fn third_delta(view: PlayView, moves: Seq<DdsMove>, i: int) -> int {
    if moves[0].card.suit != view.suit_to_follow.unwrap() {
        match view.trump_suit {
            None => nt_void_delta(view, moves[i]),
            Some(t) => third_trump_void_delta(view, t, moves[i]),
        }
    } else {
        match view.trump_suit {
            None => third_nt_not_void_delta(view, moves, i),
            Some(t) => third_trump_not_void_delta(view, moves[i]),
        }
    }
}

/// The priority the last player's card gets at no trumps when following suit: win as
/// cheaply as possible when the opponents are winning or the partner cannot reach the player's
/// top cards, else play low.
pub open spec fn last_nt_not_void_delta(view: PlayView, m: DdsMove) -> int {
    let me = view.hand(view.seat(0));
    let partner = view.seat(2);
    let opponents_are_winning = view.current_trick_winner != partner;
    let high = |s: Suit| top_run(me.held(s), me.out(s), 12) as int;
    let i_have_high_cards_to_run = high(Suit::Clubs) + high(Suit::Diamonds) + high(Suit::Hearts)
        + high(Suit::Spades) > 0;
    let partner_can_reach_me = exists|s: Suit|
        view.count(partner, s) != 0 && #[trigger] top_run(me.held(s), me.out(s), 12) > 0;
    if opponents_are_winning || (i_have_high_cards_to_run && !partner_can_reach_me) {
        cheap_win_delta(view.currently_winning_card.unwrap(), m.card)
    } else {
        -(m.card.rank.rank() as int)
    }
}

/// The priority the last player's card gets with trumps when following suit.
pub open spec fn last_trump_not_void_delta(view: PlayView, t: Suit, m: DdsMove) -> int {
    let winning = view.currently_winning_card.unwrap();
    if winning.suit != t && view.current_trick_winner != view.seat(2) {
        cheap_win_delta(winning, m.card)
    } else {
        -(m.card.rank.rank() as int)
    }
}

/// Where the last player's ruffing bonus goes with trumps when not following suit: the
/// cheapest overruff if the opponents ruffed, else the first trump if they are winning.
pub open spec fn last_ruff_index(view: PlayView, t: Suit, moves: Seq<DdsMove>) -> int {
    let winning = view.currently_winning_card.unwrap();
    if winning.suit == t {
        first_wanted(moves, Wanted::InSuitAbove(t, winning.rank.rank()))
    } else if view.current_trick_winner != view.seat(2) {
        first_wanted(moves, Wanted::InSuit(t))
    } else {
        moves.len() as int
    }
}

/// The priority the last player's card gets with trumps when not following suit.
pub open spec fn last_trump_void_delta(view: PlayView, t: Suit, moves: Seq<DdsMove>, i: int) -> int {
    let m = moves[i];
    (if m.card.suit == t {
        -20
    } else {
        discard_weight(view, m.card.suit)
    }) - m.card.rank.rank() + if i == last_ruff_index(view, t, moves) {
        50int
    } else {
        0
    }
}

/// The priority the last player's card gets.
pub open spec fn last_delta(view: PlayView, moves: Seq<DdsMove>, i: int) -> int {
    if moves[0].card.suit != view.suit_to_follow.unwrap() {
        match view.trump_suit {
            None => nt_void_delta(view, moves[i]),
            Some(t) => last_trump_void_delta(view, t, moves, i),
        }
    } else {
        match view.trump_suit {
            None => last_nt_not_void_delta(view, moves[i]),
            Some(t) => last_trump_not_void_delta(view, t, moves[i]),
        }
    }
}

impl MoveGenerator {
    fn calc_priority_playing_third_nt_not_void(moves: &mut Vec<DdsMove>, view: &PlayView)
        requires
            view.well_formed(),
            view.suit_to_follow is Some,
            view.currently_winning_card is Some,
            view.hand(view.seat(0)).highest_spec(view.suit_to_follow.unwrap()) is Some,
            priorities_in_range(old(moves)@),
        ensures
            adds(
                old(moves)@,
                final(moves)@,
                |i: int| third_nt_not_void_delta(*view, old(moves)@, i),
            ),
    {
        let me = view.next_to_play;
        proof {
            assert(view.seat(0) == me) by {
                assert(me.turned(0) == me);
            }
        }
        let lead_suit = view.suit_to_follow.unwrap();
        let currently_winning_card = view.currently_winning_card.unwrap();
        let partner_is_winning = view.current_trick_winner == me.partner();
        let my_highest_card = view.highest_card_of(me, lead_suit).unwrap();
        let lho = me.after(1);
        let rho = me.after(3);
        let lhos_highest_card = view.highest_card_of(lho, lead_suit);
        let lhos_lowest_card = view.lowest_card_of(lho, lead_suit);
        let lho_can_win = match lhos_highest_card {
            None => false,
            Some(card) => card_beats(&card, &currently_winning_card),
        };
        let my_cards_do_not_matter = match lhos_lowest_card {
            None => card_beats(&currently_winning_card, &my_highest_card),
            Some(lowest_card) => card_beats(&currently_winning_card, &my_highest_card) && card_beats(
                &lowest_card,
                &my_highest_card,
            ),
        };
        if my_cards_do_not_matter {
            Self::lower_by_rank(moves);
        } else if lho_can_win {
            Self::third_beat_more_of_lho(moves, view);
        } else if !partner_is_winning {
            Self::third_win_cheaply(moves, view);
        } else {
            let my_high_card_count = view.hand_of(me).count_high_cards_in(lead_suit);
            let lhos_count = view.hand_of(lho).count_cards_in(lead_suit);
            let rhos_count = view.hand_of(rho).count_cards_in(lead_suit) + 1;
            let opponents_length = if lhos_count > rhos_count {
                lhos_count
            } else {
                rhos_count
            };
            if my_high_card_count >= opponents_length {
                Self::raise_by_rank(moves);
            } else {
                Self::lower_by_rank(moves);
            }
        }
    }

    fn third_beat_more_of_lho(moves: &mut Vec<DdsMove>, view: &PlayView)
        requires
            view.well_formed(),
            view.suit_to_follow is Some,
            view.currently_winning_card is Some,
            view.hand(view.seat(0)).highest_spec(view.suit_to_follow.unwrap()) is Some,
            !third_cards_do_not_matter(*view),
            lho_can_still_win(*view),
            priorities_in_range(old(moves)@),
        ensures
            adds(
                old(moves)@,
                final(moves)@,
                |i: int| third_nt_not_void_delta(*view, old(moves)@, i),
            ),
    {
        let lhos_cards = view.hand_of(view.next_to_play.after(1));
        let ghost start = moves@;
        let mut already_beaten_cards: usize = 0;
        let mut i: usize = 0;
        while i < moves.len()
            invariant
                0 <= i <= moves@.len(),
                moves@.len() == start.len(),
                start == old(moves)@,
                priorities_in_range(start),
                !third_cards_do_not_matter(*view),
                lho_can_still_win(*view),
                *lhos_cards == view.hand(view.seat(1)),
                already_beaten_cards == beaten_before(*view, start, i as int),
                already_beaten_cards <= 16,
                forall|k: int|
                    0 <= k < start.len() ==> (#[trigger] moves@[k]).card == start[k].card
                        && moves@[k].sequence_length == start[k].sequence_length
                        && moves@[k].priority == start[k].priority + if k < i {
                        third_nt_not_void_delta(*view, start, k)
                    } else {
                        0
                    },
            decreases moves@.len() - i,
        {
            let mut candidate = moves[i];
            proof {
                assert(priority_in_range(start[i as int].priority));
            }
            let beats = lhos_cards.count_cards_lower_than(&candidate.card);
            proof {
                match absolute_of(lhos_cards.out(candidate.card.suit), candidate.card.rank) {
                    Some(d) => crate::dds::virtual_card_tracker::lemma_ones_at_most(
                        lhos_cards.held(candidate.card.suit) & low_mask_through(d),
                        16,
                    ),
                    None => {},
                }
                assert(beats == lhos_cards_beaten(*view, start[i as int].card));
            }
            let rank = candidate.card.rank.index() as isize;
            if beats > already_beaten_cards {
                candidate.priority = candidate.priority + (10 * beats as isize - rank);
                already_beaten_cards = beats;
            } else {
                candidate.priority = candidate.priority - rank;
            }
            moves.set(i, candidate);
            i = i + 1;
        }
    }

    fn third_win_cheaply(moves: &mut Vec<DdsMove>, view: &PlayView)
        requires
            view.suit_to_follow is Some,
            view.currently_winning_card is Some,
            !third_cards_do_not_matter(*view),
            !lho_can_still_win(*view),
            view.current_trick_winner != view.seat(2),
            priorities_in_range(old(moves)@),
        ensures
            adds(
                old(moves)@,
                final(moves)@,
                |i: int| third_nt_not_void_delta(*view, old(moves)@, i),
            ),
    {
        let currently_winning_card = view.currently_winning_card.unwrap();
        let first = find_first(moves, Wanted::Beats(currently_winning_card));
        let ghost start = moves@;
        let mut i: usize = 0;
        while i < moves.len()
            invariant
                0 <= i <= moves@.len(),
                moves@.len() == start.len(),
                start == old(moves)@,
                priorities_in_range(start),
                !third_cards_do_not_matter(*view),
                !lho_can_still_win(*view),
                view.current_trick_winner != view.seat(2),
                view.currently_winning_card == Some(currently_winning_card),
                first == first_wanted(start, Wanted::Beats(currently_winning_card)),
                forall|k: int|
                    0 <= k < start.len() ==> (#[trigger] moves@[k]).card == start[k].card
                        && moves@[k].sequence_length == start[k].sequence_length
                        && moves@[k].priority == start[k].priority + if k < i {
                        third_nt_not_void_delta(*view, start, k)
                    } else {
                        0
                    },
            decreases moves@.len() - i,
        {
            let mut candidate = moves[i];
            proof {
                assert(priority_in_range(start[i as int].priority));
            }
            let rank = candidate.card.rank.index() as isize;
            if card_beats(&candidate.card, &currently_winning_card) {
                let bonus: isize = if i == first {
                    20
                } else {
                    0
                };
                candidate.priority = candidate.priority + (bonus - rank);
            } else {
                candidate.priority = candidate.priority - rank;
            }
            moves.set(i, candidate);
            i = i + 1;
        }
    }

    fn raise_by_rank(moves: &mut Vec<DdsMove>)
        requires
            priorities_in_range(old(moves)@),
        ensures
            adds(old(moves)@, final(moves)@, |k: int| old(moves)@[k].card.rank.rank() as int),
    {
        let mut i: usize = 0;
        while i < moves.len()
            invariant
                0 <= i <= moves@.len(),
                moves@.len() == old(moves)@.len(),
                priorities_in_range(old(moves)@),
                forall|k: int|
                    0 <= k < old(moves)@.len() ==> (#[trigger] moves@[k]).card == old(moves)@[k].card
                        && moves@[k].sequence_length == old(moves)@[k].sequence_length
                        && moves@[k].priority == old(moves)@[k].priority + if k < i {
                        old(moves)@[k].card.rank.rank() as int
                    } else {
                        0
                    },
            decreases moves@.len() - i,
        {
            let mut candidate = moves[i];
            proof {
                assert(priority_in_range(old(moves)@[i as int].priority));
            }
            candidate.priority = candidate.priority + candidate.card.rank.index() as isize;
            moves.set(i, candidate);
            i = i + 1;
        }
    }
}

impl MoveGenerator {
    fn calc_priority_playing_third_trump_void(
        moves: &mut Vec<DdsMove>,
        view: &PlayView,
        trump_suit: Suit,
    )
        requires
            view.well_formed(),
            view.suit_to_follow is Some,
            view.currently_winning_card is Some,
            priorities_in_range(old(moves)@),
        ensures
            adds(
                old(moves)@,
                final(moves)@,
                |i: int| third_trump_void_delta(*view, trump_suit, old(moves)@[i]),
            ),
    {
        let suit_weights = Self::suit_weights_for_discarding(view);
        let me = view.next_to_play;
        let lead_suit = view.suit_to_follow.unwrap();
        let lho = me.after(1);
        let lhos_cards = view.hand_of(lho);
        let currently_winning_card = view.currently_winning_card.unwrap();
        let partner_is_winning = view.current_trick_winner == me.partner();
        let lho_can_ruff = lhos_cards.is_void_in(lead_suit) && !lhos_cards.is_void_in(trump_suit);
        let lho_can_win = match view.highest_card_of(lho, lead_suit) {
            None => !lhos_cards.is_void_in(trump_suit),
            Some(highest_card) => card_beats(&highest_card, &currently_winning_card),
        };
        let rho_has_ruffed = lead_suit != trump_suit && currently_winning_card.suit == trump_suit;
        let lhos_top_trump = if lho_can_ruff {
            proof {
                view.hand(lho).lemma_highest_exists(trump_suit);
            }
            view.highest_card_of(lho, trump_suit).unwrap()
        } else {
            currently_winning_card
        };
        let mut i: usize = 0;
        while i < moves.len()
            invariant
                0 <= i <= moves@.len(),
                moves@.len() == old(moves)@.len(),
                priorities_in_range(old(moves)@),
                view.currently_winning_card == Some(currently_winning_card),
                view.suit_to_follow == Some(lead_suit),
                lho == view.seat(1),
                partner_is_winning == (view.current_trick_winner == view.seat(2)),
                lho_can_ruff == (view.hand(lho).held(lead_suit) == 0 && view.hand(lho).held(
                    trump_suit,
                ) != 0),
                lho_can_win == match view.hand(lho).highest_spec(lead_suit) {
                    None => view.hand(lho).held(trump_suit) != 0,
                    Some(c) => beats(c, currently_winning_card),
                },
                rho_has_ruffed == (lead_suit != trump_suit && currently_winning_card.suit
                    == trump_suit),
                lho_can_ruff ==> lhos_top_trump == view.hand(lho).highest_spec(trump_suit).unwrap(),
                forall|s: Suit| #[trigger] suit_weights@[s.rank() as int] == discard_weight(*view, s),
                forall|k: int| 0 <= k < 4 ==> 0 <= #[trigger] suit_weights@[k] <= 28,
                forall|k: int|
                    0 <= k < old(moves)@.len() ==> (#[trigger] moves@[k]).card == old(moves)@[k].card
                        && moves@[k].sequence_length == old(moves)@[k].sequence_length
                        && moves@[k].priority == old(moves)@[k].priority + if k < i {
                        third_trump_void_delta(*view, trump_suit, old(moves)@[k])
                    } else {
                        0
                    },
            decreases moves@.len() - i,
        {
            let mut candidate = moves[i];
            proof {
                assert(priority_in_range(old(moves)@[i as int].priority));
            }
            let rank = candidate.card.rank.index() as isize;
            let delta: isize = if candidate.card.suit == trump_suit {
                if lho_can_ruff {
                    if card_beats(&candidate.card, &lhos_top_trump) {
                        55 - rank
                    } else if partner_is_winning {
                        -50 + rank
                    } else {
                        50 - rank
                    }
                } else if rho_has_ruffed {
                    if candidate.card.rank.index() > currently_winning_card.rank.index() {
                        50 - rank
                    } else {
                        -50 - rank
                    }
                } else if lho_can_win || !partner_is_winning {
                    50 - rank
                } else {
                    -50 - rank
                }
            } else {
                suit_weights[candidate.card.suit.index() as usize] - rank
            };
            candidate.priority = candidate.priority + delta;
            moves.set(i, candidate);
            i = i + 1;
        }
    }

    fn calc_priority_playing_third_trump_not_void(moves: &mut Vec<DdsMove>, view: &PlayView)
        requires
            view.currently_winning_card is Some,
            priorities_in_range(old(moves)@),
        ensures
            adds(
                old(moves)@,
                final(moves)@,
                |i: int| third_trump_not_void_delta(*view, old(moves)@[i]),
            ),
    {
        let winning = view.currently_winning_card.unwrap();
        let mut i: usize = 0;
        while i < moves.len()
            invariant
                0 <= i <= moves@.len(),
                moves@.len() == old(moves)@.len(),
                priorities_in_range(old(moves)@),
                view.currently_winning_card == Some(winning),
                forall|k: int|
                    0 <= k < old(moves)@.len() ==> (#[trigger] moves@[k]).card == old(moves)@[k].card
                        && moves@[k].sequence_length == old(moves)@[k].sequence_length
                        && moves@[k].priority == old(moves)@[k].priority + if k < i {
                        third_trump_not_void_delta(*view, old(moves)@[k])
                    } else {
                        0
                    },
            decreases moves@.len() - i,
        {
            let mut candidate = moves[i];
            proof {
                assert(priority_in_range(old(moves)@[i as int].priority));
            }
            if card_beats(&candidate.card, &winning) {
                candidate.priority = candidate.priority + candidate.card.rank.index() as isize;
            }
            moves.set(i, candidate);
            i = i + 1;
        }
    }

    /// Orders the third player's cards: discards by suit weight, ruffs by whether they win,
    /// following cards by whether they must win the trick.
    pub fn calc_priority_playing_third(moves: &mut Vec<DdsMove>, view: &PlayView)
        requires
            view.well_formed(),
            old(moves)@.len() > 0,
            view.suit_to_follow is Some,
            view.currently_winning_card is Some,
            old(moves)@[0].card.suit == view.suit_to_follow.unwrap() && view.trump_suit is None
                ==> view.hand(view.seat(0)).highest_spec(view.suit_to_follow.unwrap()) is Some,
            priorities_in_range(old(moves)@),
        ensures
            adds(old(moves)@, final(moves)@, |i: int| third_delta(*view, old(moves)@, i)),
    {
        if moves[0].card.suit != view.suit_to_follow.unwrap() {
            match view.trump_suit {
                None => Self::calc_priority_nt_void(moves, view),
                Some(trump_suit) => Self::calc_priority_playing_third_trump_void(moves, view, trump_suit),
            }
        } else {
            match view.trump_suit {
                None => Self::calc_priority_playing_third_nt_not_void(moves, view),
                Some(_) => Self::calc_priority_playing_third_trump_not_void(moves, view),
            }
        }
    }

    fn calc_priority_playing_last_nt_not_void(moves: &mut Vec<DdsMove>, view: &PlayView)
        requires
            view.currently_winning_card is Some,
            priorities_in_range(old(moves)@),
        ensures
            adds(old(moves)@, final(moves)@, |i: int| last_nt_not_void_delta(*view, old(moves)@[i])),
    {
        let me = view.next_to_play;
        proof {
            assert(view.seat(0) == me) by {
                assert(me.turned(0) == me);
            }
        }
        let partner = me.partner();
        let opponents_are_winning = view.current_trick_winner != partner;
        let my_cards = view.hand_of(me);
        let my_high_cards = my_cards.count_high_cards_per_suit();
        proof {
            lemma_high_count_small(*my_cards, Suit::Clubs);
            lemma_high_count_small(*my_cards, Suit::Diamonds);
            lemma_high_count_small(*my_cards, Suit::Hearts);
            lemma_high_count_small(*my_cards, Suit::Spades);
            assert(my_high_cards@[Suit::Clubs.rank() as int] == my_high_cards@[0]);
            assert(my_high_cards@[Suit::Diamonds.rank() as int] == my_high_cards@[1]);
            assert(my_high_cards@[Suit::Hearts.rank() as int] == my_high_cards@[2]);
            assert(my_high_cards@[Suit::Spades.rank() as int] == my_high_cards@[3]);
        }
        let i_have_high_cards_to_run = my_high_cards[0] + my_high_cards[1] + my_high_cards[2]
            + my_high_cards[3] > 0;
        let partners_counts = view.hand_of(partner).count_cards_per_suit();
        let mut partner_can_reach_me = false;
        let mut s: usize = 0;
        while s < 4
            invariant
                0 <= s <= 4,
                forall|t: Suit| #[trigger] my_high_cards@[t.rank() as int] == top_run(
                    my_cards.held(t),
                    my_cards.out(t),
                    12,
                ),
                forall|t: Suit| #[trigger] partners_counts@[t.rank() as int] == view.count(partner, t),
                partner_can_reach_me == exists|t: Suit|
                    t.rank() < s && view.count(partner, t) != 0 && #[trigger] top_run(
                        my_cards.held(t),
                        my_cards.out(t),
                        12,
                    ) > 0,
            decreases 4 - s,
        {
            let suit = Suit::from_index(s as u8);
            if partners_counts[s] != 0 && my_high_cards[s] > 0 {
                partner_can_reach_me = true;
            }
            proof {
                crate::card::lemma_suit_rank_bijection(suit, s as u8);
                if partner_can_reach_me {
                    if partners_counts@[s as int] != 0 && my_high_cards@[s as int] > 0 {
                        assert(top_run(my_cards.held(suit), my_cards.out(suit), 12) > 0);
                    }
                } else {
                    assert forall|t: Suit|
                        t.rank() < s + 1 && view.count(partner, t) != 0 implies !(#[trigger] top_run(
                        my_cards.held(t),
                        my_cards.out(t),
                        12,
                    ) > 0) by {
                        if t.rank() == s {
                            crate::card::lemma_suit_rank_bijection(t, s as u8);
                        }
                    }
                }
            }
            s = s + 1;
        }
        proof {
            assert(partner_can_reach_me == exists|t: Suit|
                view.count(partner, t) != 0 && #[trigger] top_run(
                    my_cards.held(t),
                    my_cards.out(t),
                    12,
                ) > 0);
            assert(my_high_cards@[Suit::Clubs.rank() as int] == my_high_cards@[0]);
            assert(my_high_cards@[Suit::Diamonds.rank() as int] == my_high_cards@[1]);
            assert(my_high_cards@[Suit::Hearts.rank() as int] == my_high_cards@[2]);
            assert(my_high_cards@[Suit::Spades.rank() as int] == my_high_cards@[3]);
        }
        let win_cheaply = opponents_are_winning || (i_have_high_cards_to_run && !partner_can_reach_me);
        let mut i: usize = 0;
        while i < moves.len()
            invariant
                0 <= i <= moves@.len(),
                moves@.len() == old(moves)@.len(),
                priorities_in_range(old(moves)@),
                view.currently_winning_card is Some,
                win_cheaply == (view.current_trick_winner != view.seat(2) || (top_run(
                    my_cards.held(Suit::Clubs),
                    my_cards.out(Suit::Clubs),
                    12,
                ) + top_run(my_cards.held(Suit::Diamonds), my_cards.out(Suit::Diamonds), 12)
                    + top_run(my_cards.held(Suit::Hearts), my_cards.out(Suit::Hearts), 12) + top_run(
                    my_cards.held(Suit::Spades),
                    my_cards.out(Suit::Spades),
                    12,
                ) > 0 && !exists|t: Suit|
                    view.count(view.seat(2), t) != 0 && #[trigger] top_run(
                        my_cards.held(t),
                        my_cards.out(t),
                        12,
                    ) > 0)),
                *my_cards == view.hand(view.seat(0)),
                forall|k: int|
                    0 <= k < old(moves)@.len() ==> (#[trigger] moves@[k]).card == old(moves)@[k].card
                        && moves@[k].sequence_length == old(moves)@[k].sequence_length
                        && moves@[k].priority == old(moves)@[k].priority + if k < i {
                        last_nt_not_void_delta(*view, old(moves)@[k])
                    } else {
                        0
                    },
            decreases moves@.len() - i,
        {
            let mut candidate = moves[i];
            proof {
                assert(priority_in_range(old(moves)@[i as int].priority));
            }
            if win_cheaply {
                Self::try_to_win_as_cheaply_as_possible(view, &mut candidate);
            } else {
                candidate.priority = candidate.priority - candidate.card.rank.index() as isize;
            }
            moves.set(i, candidate);
            i = i + 1;
        }
    }

    fn calc_priority_playing_last_trump_not_void(
        moves: &mut Vec<DdsMove>,
        view: &PlayView,
        trump_suit: Suit,
    )
        requires
            view.currently_winning_card is Some,
            priorities_in_range(old(moves)@),
        ensures
            adds(
                old(moves)@,
                final(moves)@,
                |i: int| last_trump_not_void_delta(*view, trump_suit, old(moves)@[i]),
            ),
    {
        let opponents_are_winning = view.current_trick_winner != view.next_to_play.partner();
        let trick_has_not_been_ruffed = view.currently_winning_card.unwrap().suit != trump_suit;
        let mut i: usize = 0;
        while i < moves.len()
            invariant
                0 <= i <= moves@.len(),
                moves@.len() == old(moves)@.len(),
                priorities_in_range(old(moves)@),
                view.currently_winning_card is Some,
                opponents_are_winning == (view.current_trick_winner != view.seat(2)),
                trick_has_not_been_ruffed == (view.currently_winning_card.unwrap().suit != trump_suit),
                forall|k: int|
                    0 <= k < old(moves)@.len() ==> (#[trigger] moves@[k]).card == old(moves)@[k].card
                        && moves@[k].sequence_length == old(moves)@[k].sequence_length
                        && moves@[k].priority == old(moves)@[k].priority + if k < i {
                        last_trump_not_void_delta(*view, trump_suit, old(moves)@[k])
                    } else {
                        0
                    },
            decreases moves@.len() - i,
        {
            let mut candidate = moves[i];
            proof {
                assert(priority_in_range(old(moves)@[i as int].priority));
            }
            if trick_has_not_been_ruffed && opponents_are_winning {
                Self::try_to_win_as_cheaply_as_possible(view, &mut candidate);
            } else {
                candidate.priority = candidate.priority - candidate.card.rank.index() as isize;
            }
            moves.set(i, candidate);
            i = i + 1;
        }
    }

    fn calc_priority_playing_last_trump_void(moves: &mut Vec<DdsMove>, view: &PlayView, trump_suit: Suit)
        requires
            view.currently_winning_card is Some,
            priorities_in_range(old(moves)@),
        ensures
            adds(
                old(moves)@,
                final(moves)@,
                |i: int| last_trump_void_delta(*view, trump_suit, old(moves)@, i),
            ),
    {
        let suit_weights = Self::suit_weights_for_discarding(view);
        let me = view.next_to_play;
        let winning = view.currently_winning_card.unwrap();
        let partner_is_winning = view.current_trick_winner == me.partner();
        let opponents_have_ruffed = winning.suit == trump_suit;
        let index = if opponents_have_ruffed {
            find_first(moves, Wanted::InSuitAbove(trump_suit, winning.rank.index()))
        } else if !partner_is_winning {
            find_first(moves, Wanted::InSuit(trump_suit))
        } else {
            moves.len()
        };
        let mut i: usize = 0;
        while i < moves.len()
            invariant
                0 <= i <= moves@.len(),
                moves@.len() == old(moves)@.len(),
                priorities_in_range(old(moves)@),
                index == last_ruff_index(*view, trump_suit, old(moves)@),
                forall|s: Suit| #[trigger] suit_weights@[s.rank() as int] == discard_weight(*view, s),
                forall|k: int| 0 <= k < 4 ==> 0 <= #[trigger] suit_weights@[k] <= 28,
                forall|k: int|
                    0 <= k < old(moves)@.len() ==> (#[trigger] moves@[k]).card == old(moves)@[k].card
                        && moves@[k].sequence_length == old(moves)@[k].sequence_length
                        && moves@[k].priority == old(moves)@[k].priority + if k < i {
                        last_trump_void_delta(*view, trump_suit, old(moves)@, k)
                    } else {
                        0
                    },
            decreases moves@.len() - i,
        {
            let mut candidate = moves[i];
            proof {
                assert(priority_in_range(old(moves)@[i as int].priority));
            }
            let suit_weight: isize = if candidate.card.suit == trump_suit {
                -20
            } else {
                suit_weights[candidate.card.suit.index() as usize]
            };
            let bonus: isize = if i == index {
                50
            } else {
                0
            };
            candidate.priority = candidate.priority + (suit_weight - candidate.card.rank.index() as isize)
                + bonus;
            moves.set(i, candidate);
            i = i + 1;
        }
    }

    /// Orders the last player's cards: win as cheaply as possible when it matters, else play
    /// low; with trumps, prefer the cheapest ruff or overruff.
    pub fn calc_priority_playing_last(moves: &mut Vec<DdsMove>, view: &PlayView)
        requires
            old(moves)@.len() > 0,
            view.suit_to_follow is Some,
            view.currently_winning_card is Some,
            priorities_in_range(old(moves)@),
        ensures
            adds(old(moves)@, final(moves)@, |i: int| last_delta(*view, old(moves)@, i)),
    {
        if moves[0].card.suit != view.suit_to_follow.unwrap() {
            match view.trump_suit {
                None => Self::calc_priority_nt_void(moves, view),
                Some(trump_suit) => Self::calc_priority_playing_last_trump_void(moves, view, trump_suit),
            }
        } else {
            match view.trump_suit {
                None => Self::calc_priority_playing_last_nt_not_void(moves, view),
                Some(trump_suit) => Self::calc_priority_playing_last_trump_not_void(
                    moves,
                    view,
                    trump_suit,
                ),
            }
        }
    }
}

proof fn lemma_high_count_small(cards: VirtualCardTracker, s: Suit)
    ensures
        top_run(cards.held(s), cards.out(s), 12) <= 16,
{
    crate::dds::virtual_card_tracker::lemma_top_run_bound(cards.held(s), cards.out(s), 12);
    crate::dds::virtual_card_tracker::lemma_ones_at_most(cards.held(s), 16);
}

/// The priority a move gets, by the number of cards already in the trick.
pub open spec fn priority_delta(view: PlayView, moves: Seq<DdsMove>, i: int) -> int {
    if view.count_cards_in_current_trick == 0 {
        leading_delta(view, moves[i])
    } else if view.count_cards_in_current_trick == 1 {
        second_delta(view, moves, i)
    } else if view.count_cards_in_current_trick == 2 {
        third_delta(view, moves, i)
    } else {
        last_delta(view, moves, i)
    }
}

/// The moves with their priorities raised by `priority_delta`.
pub open spec fn prioritized(view: PlayView, moves: Seq<DdsMove>) -> Seq<DdsMove> {
    Seq::new(
        moves.len(),
        |i: int|
            DdsMove {
                card: moves[i].card,
                sequence_length: moves[i].sequence_length,
                priority: (moves[i].priority + priority_delta(view, moves, i)) as isize,
            },
    )
}

/// The cards the player to move may play: of the suit led if the player has any, else all.
pub open spec fn candidate_cards(view: PlayView) -> Seq<VirtualCard> {
    let mine = view.hand(view.seat(0));
    let all = mine.cards_in_spec(Suit::Clubs) + mine.cards_in_spec(Suit::Diamonds)
        + mine.cards_in_spec(Suit::Hearts) + mine.cards_in_spec(Suit::Spades);
    match view.suit_to_follow {
        Some(lead) => if mine.held(lead) == 0 {
            all
        } else {
            mine.cards_in_spec(lead)
        },
        None => all,
    }
}

/// What the move ordering needs of a position: cards played to the trick come with a suit led
/// and a winning card, and the player has a card to play to them.
pub open spec fn can_order_moves(view: PlayView) -> bool {
    &&& view.well_formed()
    &&& view.count_cards_in_current_trick <= 3
    &&& view.count_cards_in_current_trick >= 1 ==> view.suit_to_follow is Some
        && view.currently_winning_card is Some && candidate_cards(view).len() > 0
}

proof fn lemma_ranks_from_zero(i: int)
    ensures
        crate::dds::suit_field::ranks_from(0, i) =~= Seq::<crate::card::Denomination>::empty(),
    decreases 13 - i,
{
    if 0 <= i < 13 {
        crate::dds::bits::lemma_bit16_ops(0, 0, 0, i as u16);
        lemma_ranks_from_zero(i + 1);
    }
}

proof fn lemma_sequences_nonempty(cards: Seq<VirtualCard>)
    requires
        cards.len() > 0,
    ensures
        sequences(cards).len() > 0,
{
}

proof fn lemma_sequences_cards(cards: Seq<VirtualCard>, k: int)
    requires
        0 <= k < sequences(cards).len(),
    ensures
        cards.contains(sequences(cards)[k].card),
    decreases cards.len(),
{
    let before = sequences(cards.drop_last());
    if cards.len() > 0 {
        if k < before.len() && !(k == before.len() - 1 && before.len() > 0 && touches(
            before.last().card,
            cards.last(),
        )) {
            lemma_sequences_cards(cards.drop_last(), k);
            let c = sequences(cards.drop_last())[k].card;
            let j = choose|j: int| 0 <= j < cards.drop_last().len() && cards.drop_last()[j] == c;
            assert(cards[j] == c);
        } else {
            assert(cards[cards.len() - 1] == cards.last());
        }
    }
}

impl MoveGenerator {
    /// Gives each move its priority, by the number of cards already in the trick.
    pub fn calc_priority(moves: &mut Vec<DdsMove>, view: &PlayView)
        requires
            view.well_formed(),
            view.count_cards_in_current_trick <= 3,
            view.count_cards_in_current_trick >= 1 ==> old(moves)@.len() > 0
                && view.suit_to_follow is Some && view.currently_winning_card is Some,
            view.count_cards_in_current_trick == 2 && old(moves)@[0].card.suit
                == view.suit_to_follow.unwrap() && view.trump_suit is None ==> view.hand(
                view.seat(0),
            ).highest_spec(view.suit_to_follow.unwrap()) is Some,
            priorities_in_range(old(moves)@),
        ensures
            adds(old(moves)@, final(moves)@, |i: int| priority_delta(*view, old(moves)@, i)),
    {
        if view.count_cards_in_current_trick == 0 {
            Self::calc_priority_leading(moves, view);
        } else if view.count_cards_in_current_trick == 1 {
            Self::calc_priority_playing_second(moves, view);
        } else if view.count_cards_in_current_trick == 2 {
            Self::calc_priority_playing_third(moves, view);
        } else {
            Self::calc_priority_playing_last(moves, view);
        }
    }

    /// The moves to try from a position, one per sequence of touching cards the player may play;
    /// ordered by priority when `move_ordering` is on, else with random priorities.
    #[verifier::spinoff_prover]
    #[verifier::rlimit(40)]
    pub fn generate_moves(view: &PlayView, move_ordering: bool) -> (moves: Vec<DdsMove>)
        requires
            can_order_moves(*view),
        ensures
            move_ordering ==> moves@.to_multiset() == prioritized(
                *view,
                sequences(candidate_cards(*view)),
            ).to_multiset() && sorted_by_priority(moves@),
            !move_ordering ==> moves@.len() == sequences(candidate_cards(*view)).len() && forall|
                i: int,
            |
                0 <= i < moves@.len() ==> (#[trigger] moves@[i]).card == sequences(
                    candidate_cards(*view),
                )[i].card && moves@[i].sequence_length == sequences(
                    candidate_cards(*view),
                )[i].sequence_length,
            forall|i: int|
                0 <= i < moves@.len() ==> candidate_cards(*view).contains(
                    (#[trigger] moves@[i]).card,
                ),
            candidate_cards(*view).len() > 0 ==> moves@.len() > 0,
            forall|k: int|
                #![trigger sequences(candidate_cards(*view))[k]]
                0 <= k < sequences(candidate_cards(*view)).len() ==> exists|i: int|
                    0 <= i < moves@.len() && (#[trigger] moves@[i]).card == sequences(
                        candidate_cards(*view),
                    )[k].card,
    {
        let player = view.next_to_play;
        proof {
            assert(view.seat(0) == player) by {
                assert(player.turned(0) == player);
            }
            assert(view.hand(player).in_play_only());
        }
        let card_tracker = view.hand_of(player);
        let ghost mine = view.hand(player);
        let cards = match view.suit_to_follow {
            Some(lead_suit) => {
                if card_tracker.is_void_in(lead_suit) {
                    card_tracker.all_cards()
                } else {
                    card_tracker.all_cards_in(lead_suit)
                }
            },
            None => card_tracker.all_cards(),
        };
        let mut unique_moves = Self::select_one_move_per_sequence(cards);
        let ghost base = unique_moves@;
        proof {
            assert forall|i: int| 0 <= i < base.len() implies priority_in_range(
                #[trigger] base[i].priority,
            ) by {
                lemma_sequences_priorities(cards@, i);
            }
            if view.count_cards_in_current_trick >= 1 {
                lemma_sequences_nonempty(cards@);
            }
            if view.count_cards_in_current_trick == 2 && base[0].card.suit
                == view.suit_to_follow.unwrap() && view.trump_suit is None {
                let lead = view.suit_to_follow.unwrap();
                if mine.held(lead) == 0 {
                    lemma_sequences_cards(cards@, 0);
                    lemma_void_suit_absent(mine, lead);
                } else {
                    mine.lemma_highest_exists(lead);
                }
            }
        }
        if move_ordering {
            Self::calc_priority(&mut unique_moves, view);
            proof {
                assert(unique_moves@ =~= prioritized(*view, base));
            }
            let ghost ordered = unique_moves@;
            Self::sort_moves_by_priority_descending(&mut unique_moves);
            proof {
                unique_moves@.to_multiset_ensures();
                ordered.to_multiset_ensures();
                assert forall|i: int| 0 <= i < unique_moves@.len() implies candidate_cards(
                    *view,
                ).contains((#[trigger] unique_moves@[i]).card) by {
                    assert(unique_moves@.contains(unique_moves@[i]));
                    assert(unique_moves@.to_multiset().count(unique_moves@[i]) > 0);
                    assert(ordered.contains(unique_moves@[i]));
                    let j = choose|j: int| 0 <= j < ordered.len() && ordered[j] == unique_moves@[i];
                    lemma_sequences_cards(cards@, j);
                }
                if candidate_cards(*view).len() > 0 {
                    lemma_sequences_nonempty(cards@);
                }
                let seqs = sequences(candidate_cards(*view));
                assert forall|k: int| #![trigger seqs[k]] 0 <= k < seqs.len() implies exists|i: int|
                    0 <= i < unique_moves@.len() && (#[trigger] unique_moves@[i]).card
                        == seqs[k].card by {
                    lemma_sequences_cards(cards@, k);
                    assert(ordered.contains(ordered[k]));
                    assert(ordered.to_multiset().count(ordered[k]) > 0);
                    assert(unique_moves@.contains(ordered[k]));
                    let i = choose|i: int| 0 <= i < unique_moves@.len() && unique_moves@[i] == ordered[k];
                    assert(unique_moves@[i].card == seqs[k].card);
                }
            }
        } else {
            Self::randomize_priority(&mut unique_moves);
            proof {
                let seqs = sequences(candidate_cards(*view));
                assert forall|k: int| #![trigger seqs[k]] 0 <= k < seqs.len() implies exists|i: int|
                    0 <= i < unique_moves@.len() && (#[trigger] unique_moves@[i]).card
                        == seqs[k].card by {
                    assert(unique_moves@[k].card == seqs[k].card);
                }
                assert forall|i: int| 0 <= i < unique_moves@.len() implies candidate_cards(
                    *view,
                ).contains((#[trigger] unique_moves@[i]).card) by {
                    lemma_sequences_cards(cards@, i);
                }
                if candidate_cards(*view).len() > 0 {
                    lemma_sequences_nonempty(cards@);
                }
            }
        }
        unique_moves
    }
}

proof fn lemma_sequences_priorities(cards: Seq<VirtualCard>, i: int)
    requires
        0 <= i < sequences(cards).len(),
    ensures
        sequences(cards)[i].priority == 0,
    decreases cards.len(),
{
    if cards.len() > 0 {
        let before = sequences(cards.drop_last());
        if i < before.len() && !(i == before.len() - 1 && touches(before.last().card, cards.last())) {
            lemma_sequences_priorities(cards.drop_last(), i);
        }
    }
}

/// A hand void in a suit yields no card of it.
proof fn lemma_void_suit_absent(mine: VirtualCardTracker, lead: Suit)
    requires
        mine.held(lead) == 0,
    ensures
        forall|c: VirtualCard|
            (mine.cards_in_spec(Suit::Clubs) + mine.cards_in_spec(Suit::Diamonds)
                + mine.cards_in_spec(Suit::Hearts) + mine.cards_in_spec(Suit::Spades)).contains(c)
                ==> c.suit != lead,
{
    lemma_ranks_from_zero(0);
    let all = mine.cards_in_spec(Suit::Clubs) + mine.cards_in_spec(Suit::Diamonds)
        + mine.cards_in_spec(Suit::Hearts) + mine.cards_in_spec(Suit::Spades);
    assert(mine.cards_in_spec(lead) =~= Seq::<VirtualCard>::empty());
    assert forall|c: VirtualCard| all.contains(c) implies c.suit != lead by {
        let j = choose|j: int| 0 <= j < all.len() && all[j] == c;
        let a = mine.cards_in_spec(Suit::Clubs);
        let b = mine.cards_in_spec(Suit::Diamonds);
        let h = mine.cards_in_spec(Suit::Hearts);
        let sp = mine.cards_in_spec(Suit::Spades);
        if j < a.len() {
            assert(c.suit == Suit::Clubs);
        } else if j < a.len() + b.len() {
            assert(c.suit == Suit::Diamonds);
        } else if j < a.len() + b.len() + h.len() {
            assert(c.suit == Suit::Hearts);
        } else {
            assert(c.suit == Suit::Spades);
        }
    }
}

} // verus!
