//! A player's cards seen through virtual ranks: the cards still in play of each suit ranked
//! from the virtual Ace (the highest card still in play) down.
use crate::card::{Card, Denomination, Suit};
use crate::dds::bits::bit16;
use crate::dds::card_tracker::CardTracker;
use crate::dds::suit_field::{lowest_set, ones, ranks_from, ALL_RANKS};
use crate::dds::virtual_card::{VirtualCard, VirtualRank};
use crate::dds::virtualizer::{
    absolute_from, absolute_of, lemma_virtual_index_increases, virtual_index, virtual_rank_of,
    Virtualizer,
};
use vstd::prelude::*;

verus! {

/// Whether the cards `held` of a suit include the card of virtual rank `v`, when the cards
/// `out` of that suit are out of play.
pub open spec fn holds_virtual(held: u16, out: u16, v: int) -> bool {
    0 <= v < 13 && match absolute_from(out, v, 0) {
        Some(a) => bit16(held, a as u16),
        None => false,
    }
}

/// How many virtual ranks in a row, from `v` down, the cards `held` include.
pub open spec fn top_run(held: u16, out: u16, v: int) -> nat
    decreases v + 1,
{
    if v < 0 {
        0
    } else if holds_virtual(held, out, v) {
        1 + top_run(held, out, v - 1)
    } else {
        0
    }
}

/// Walking down from virtual rank `v` while one of two holdings has each rank: how many of
/// those ranks go to the first holding and how many to the second. A rank the first holds goes
/// to it; once both have held the same rank (`blocked`), no further rank goes to the second.
pub open spec fn combined_run(
    mine: u16,
    my_out: u16,
    theirs: u16,
    their_out: u16,
    v: int,
    blocked: bool,
) -> (nat, nat)
    decreases v + 1,
{
    if v < 0 {
        (0, 0)
    } else if holds_virtual(mine, my_out, v) {
        let rest = combined_run(
            mine,
            my_out,
            theirs,
            their_out,
            v - 1,
            blocked || holds_virtual(theirs, their_out, v),
        );
        (rest.0 + 1, rest.1)
    } else if !blocked && holds_virtual(theirs, their_out, v) {
        let rest = combined_run(mine, my_out, theirs, their_out, v - 1, blocked);
        (rest.0, rest.1 + 1)
    } else {
        (0, 0)
    }
}

/// One past the highest absolute rank at a virtual rank up to `v` that a card still in play has.
pub open spec fn ceiling(out: u16, v: int) -> int
    decreases v + 1,
{
    if v < 0 {
        0
    } else {
        match absolute_from(out, v, 0) {
            Some(a) => a + 1,
            None => ceiling(out, v - 1),
        }
    }
}

/// The virtual ranks of the denominations `ranks` that are still in play, in their order.
pub open spec fn virtual_ranks(out: u16, ranks: Seq<Denomination>) -> Seq<VirtualRank>
    decreases ranks.len(),
{
    if ranks.len() == 0 {
        Seq::empty()
    } else {
        let rest = virtual_ranks(out, ranks.drop_last());
        match virtual_rank_of(out, ranks.last()) {
            Some(v) => rest.push(v),
            None => rest,
        }
    }
}

/// Counting set bits over more positions never counts fewer.
pub proof fn lemma_ones_monotone(v: u16, x: int, y: int)
    requires
        x <= y,
    ensures
        ones(v, x) <= ones(v, y),
    decreases y - x,
{
    if x < y {
        lemma_ones_monotone(v, x, y - 1);
    }
}

proof fn lemma_scan_gives(out: u16, v: int)
    requires
        0 <= v,
    ensures
        absolute_from(out, v, 0) matches Some(a) ==> 0 <= a <= v && !bit16(out, a as u16)
            && virtual_index(out, a) == v,
{
    lemma_scan_facts(out, v, 0);
}

proof fn lemma_scan_facts(p: u16, v: int, i: int)
    requires
        0 <= i,
    ensures
        absolute_from(p, v, i) matches Some(a) ==> i <= a <= v && !bit16(p, a as u16)
            && virtual_index(p, a) == v,
    decreases v + 1 - i,
{
    if i <= v && !(!bit16(p, i as u16) && virtual_index(p, i) == v) {
        lemma_scan_facts(p, v, i + 1);
    }
}

/// At most `n` of the lowest `n` bits are set.
pub proof fn lemma_ones_at_most(v: u16, n: int)
    requires
        0 <= n,
    ensures
        ones(v, n) <= n,
    decreases n,
{
    if n > 0 {
        lemma_ones_at_most(v, n - 1);
    }
}

/// Cards still in play at lower virtual ranks lie at lower absolute ranks.
proof fn lemma_ceiling_below(out: u16, u: int, v: int, b: int)
    requires
        u < v,
        0 <= v < 13,
        absolute_from(out, v, 0) == Some(b),
    ensures
        ceiling(out, u) <= b,
        0 <= ceiling(out, u),
    decreases u + 1,
{
    lemma_scan_gives(out, v);
    if u >= 0 {
        lemma_scan_gives(out, u);
        match absolute_from(out, u, 0) {
            Some(a) => {
                if a > b {
                    lemma_virtual_index_increases(out, b, a);
                }
            },
            None => {
                lemma_ceiling_below(out, u - 1, v, b);
            },
        }
    }
}

proof fn lemma_ceiling_bounds(out: u16, u: int, v: int)
    requires
        u <= v < 13,
    ensures
        0 <= ceiling(out, u) <= ceiling(out, v) <= 13,
    decreases v + 1,
{
    if v >= 0 {
        lemma_scan_gives(out, v);
        match absolute_from(out, v, 0) {
            Some(b) => {
                if u < v {
                    lemma_ceiling_below(out, u, v, b);
                }
                if v > 0 {
                    lemma_ceiling_bounds(out, v - 1, v - 1);
                }
            },
            None => {
                if u < v {
                    lemma_ceiling_bounds(out, u, v - 1);
                } else if v > 0 {
                    lemma_ceiling_bounds(out, v - 1, v - 1);
                }
            },
        }
    }
}

/// A run of held virtual ranks is no longer than the number of cards held.
pub proof fn lemma_top_run_bound(held: u16, out: u16, v: int)
    requires
        v < 13,
    ensures
        top_run(held, out, v) <= ones(held, ceiling(out, v)),
        top_run(held, out, v) <= ones(held, 16),
    decreases v + 1,
{
    lemma_ceiling_bounds(out, v, 12);
    lemma_ones_monotone(held, ceiling(out, v), 16);
    if v >= 0 && holds_virtual(held, out, v) {
        lemma_scan_gives(out, v);
        let a = absolute_from(out, v, 0).unwrap();
        lemma_top_run_bound(held, out, v - 1);
        lemma_ceiling_below(out, v - 1, v, a);
        lemma_ones_monotone(held, ceiling(out, v - 1), a);
    }
}

/// Each share of a combined run is no larger than the number of cards of that holding.
pub proof fn lemma_combined_run_bound(
    mine: u16,
    my_out: u16,
    theirs: u16,
    their_out: u16,
    v: int,
    blocked: bool,
)
    requires
        v < 13,
    ensures
        combined_run(mine, my_out, theirs, their_out, v, blocked).0 <= ones(mine, ceiling(my_out, v)),
        combined_run(mine, my_out, theirs, their_out, v, blocked).1 <= ones(
            theirs,
            ceiling(their_out, v),
        ),
        combined_run(mine, my_out, theirs, their_out, v, blocked).0 <= ones(mine, 16),
        combined_run(mine, my_out, theirs, their_out, v, blocked).1 <= ones(theirs, 16),
    decreases v + 1,
{
    lemma_ceiling_bounds(my_out, v, 12);
    lemma_ceiling_bounds(their_out, v, 12);
    lemma_ones_monotone(mine, ceiling(my_out, v), 16);
    lemma_ones_monotone(theirs, ceiling(their_out, v), 16);
    if v >= 0 {
        let mine_has = holds_virtual(mine, my_out, v);
        let theirs_has = holds_virtual(theirs, their_out, v);
        if mine_has || (!blocked && theirs_has) {
            let next_blocked = if mine_has {
                blocked || theirs_has
            } else {
                blocked
            };
            lemma_combined_run_bound(mine, my_out, theirs, their_out, v - 1, next_blocked);
            lemma_ceiling_bounds(my_out, v - 1, v);
            lemma_ceiling_bounds(their_out, v - 1, v);
            lemma_ones_monotone(mine, ceiling(my_out, v - 1), ceiling(my_out, v));
            lemma_ones_monotone(theirs, ceiling(their_out, v - 1), ceiling(their_out, v));
            if mine_has {
                lemma_scan_gives(my_out, v);
                let a = absolute_from(my_out, v, 0).unwrap();
                lemma_ceiling_below(my_out, v - 1, v, a);
                lemma_ones_monotone(mine, ceiling(my_out, v - 1), a);
            } else {
                lemma_scan_gives(their_out, v);
                let a = absolute_from(their_out, v, 0).unwrap();
                lemma_ceiling_below(their_out, v - 1, v, a);
                lemma_ones_monotone(theirs, ceiling(their_out, v - 1), a);
            }
        }
    }
}

/// Once blocked, a combined run is the first holding's own run. Unblocked, the first holding
/// gets at least its own run, and more only when the second holding gets a rank too.
pub proof fn lemma_combined_run_against_top_run(
    mine: u16,
    my_out: u16,
    theirs: u16,
    their_out: u16,
    v: int,
    blocked: bool,
)
    ensures
        blocked ==> combined_run(mine, my_out, theirs, their_out, v, blocked) == (
        top_run(mine, my_out, v),
        0nat,
        ),
        combined_run(mine, my_out, theirs, their_out, v, blocked).0 >= top_run(mine, my_out, v),
        combined_run(mine, my_out, theirs, their_out, v, blocked).0 > top_run(mine, my_out, v)
            ==> combined_run(mine, my_out, theirs, their_out, v, blocked).1 >= 1,
    decreases v + 1,
{
    if v >= 0 {
        let mine_has = holds_virtual(mine, my_out, v);
        let theirs_has = holds_virtual(theirs, their_out, v);
        if mine_has {
            lemma_combined_run_against_top_run(
                mine,
                my_out,
                theirs,
                their_out,
                v - 1,
                blocked || theirs_has,
            );
        } else if !blocked && theirs_has {
            lemma_combined_run_against_top_run(mine, my_out, theirs, their_out, v - 1, blocked);
        }
    }
}

/// The reading through virtual ranks of a player's cards, given the cards out of play.
pub open spec fn virtual_view<'a>(tracker: CardTracker, converter: Virtualizer) -> VirtualCardTracker<'a> {
    choose|t: VirtualCardTracker<'a>| t.tracker() == tracker && t.converter() == converter
}

/// A reading through virtual ranks is determined by the player's cards and the cards out of
/// play.
pub proof fn lemma_virtual_view<'a>(t: VirtualCardTracker<'a>)
    ensures
        t == virtual_view::<'a>(t.tracker(), t.converter()),
{
    let u = virtual_view::<'a>(t.tracker(), t.converter());
    assert(u.tracker() == t.tracker() && u.converter() == t.converter());
    assert(u.card_tracker == t.card_tracker);
    assert(u.virtualizer == t.virtualizer);
}

/// A player's cards together with the cards out of play, read through virtual ranks.
pub struct VirtualCardTracker<'a> {
    card_tracker: &'a CardTracker,
    virtualizer: &'a Virtualizer,
}

impl<'a> VirtualCardTracker<'a> {
    /// The player's cards.
    pub closed spec fn tracker(self) -> CardTracker {
        *self.card_tracker
    }

    /// The cards out of play.
    pub closed spec fn converter(self) -> Virtualizer {
        *self.virtualizer
    }

    /// The bits of the player's cards in a suit.
    pub open spec fn held(self, suit: Suit) -> u16 {
        self.tracker().field(suit).bits()
    }

    /// The bits of the cards out of play in a suit.
    pub open spec fn out(self, suit: Suit) -> u16 {
        self.converter().out_of_play(suit)
    }

    /// Whether the player holds the card of virtual rank `v` in the suit.
    pub open spec fn holds(self, suit: Suit, v: int) -> bool {
        holds_virtual(self.held(suit), self.out(suit), v)
    }

    /// Every field holds only the thirteen denominations, and none of the player's cards is
    /// out of play.
    pub open spec fn in_play_only(self) -> bool {
        forall|s: Suit|
            #[trigger] self.held(s) <= ALL_RANKS && self.out(s) <= ALL_RANKS && self.held(s)
                & self.out(s) == 0
    }

    /// The player's highest card of a suit as a virtual card, if any.
    pub open spec fn highest_spec(self, suit: Suit) -> Option<VirtualCard> {
        match self.tracker().highest_rank_spec(suit) {
            Some(d) => Some(VirtualCard { suit, rank: virtual_rank_of(self.out(suit), d).unwrap() }),
            None => None,
        }
    }

    /// The player's lowest card of a suit as a virtual card, if any.
    pub open spec fn lowest_spec(self, suit: Suit) -> Option<VirtualCard> {
        match self.tracker().lowest_rank_spec(suit) {
            Some(d) => Some(VirtualCard { suit, rank: virtual_rank_of(self.out(suit), d).unwrap() }),
            None => None,
        }
    }

    /// A player with cards in a suit has a highest card in it.
    pub proof fn lemma_highest_exists(self, suit: Suit)
        requires
            self.in_play_only(),
            self.held(suit) != 0,
        ensures
            self.highest_spec(suit) is Some,
    {
        let h = self.held(suit);
        assert(h <= ALL_RANKS);
        crate::dds::suit_field::lemma_top_from(h, 15);
        let top = crate::dds::suit_field::highest_set(h);
        if top < 0 {
            assert forall|i: u16| i < 16 implies !bit16(h, i) by {
                assert(!bit16(h, (i as int) as u16));
            }
            crate::dds::suit_field::lemma_no_bits_is_zero(h);
        } else if top >= 13 {
            crate::dds::card_tracker::lemma_within_ranks_bits(h, top as u16);
            crate::dds::bits::lemma_bit16_ops(0, 0, 0, top as u16);
        }
    }

    /// With every card in play, the highest and lowest cards of a suit can be read.
    pub proof fn lemma_extremes_in_play(self, suit: Suit)
        requires
            self.in_play_only(),
        ensures
            self.out(suit) <= ALL_RANKS,
            self.held(suit) <= ALL_RANKS,
            self.tracker().highest_rank_spec(suit) matches Some(d) ==> !bit16(
                self.out(suit),
                d.rank() as u16,
            ),
            self.tracker().lowest_rank_spec(suit) matches Some(d) ==> !bit16(
                self.out(suit),
                d.rank() as u16,
            ),
    {
        let h = self.held(suit);
        let o = self.out(suit);
        assert(h <= ALL_RANKS && o <= ALL_RANKS && h & o == 0);
        crate::dds::suit_field::lemma_top_from(h, 15);
        crate::dds::suit_field::lemma_low_from(h, 0);
        let top = crate::dds::suit_field::highest_set(h);
        if 0 <= top < 13 {
            crate::card::lemma_denomination_rank_bijection(Denomination::of_rank(top as u8), top as u8);
            crate::dds::bits::lemma_bit16_ops(h, o, 0, top as u16);
            crate::dds::bits::lemma_bit16_ops(0, 0, 0, top as u16);
        }
        let low = lowest_set(h);
        if h != 0 {
            if low == 16 {
                assert forall|i: u16| i < 16 implies !bit16(h, i) by {
                    assert(!bit16(h, (i as int) as u16));
                }
                crate::dds::suit_field::lemma_no_bits_is_zero(h);
            }
            if low < 16 {
                if low >= 13 {
                    crate::dds::card_tracker::lemma_within_ranks_bits(h, low as u16);
                    crate::dds::bits::lemma_bit16_ops(0, 0, 0, low as u16);
                } else {
                    crate::card::lemma_denomination_rank_bijection(
                        Denomination::of_rank(low as u8),
                        low as u8,
                    );
                    crate::dds::bits::lemma_bit16_ops(h, o, 0, low as u16);
                    crate::dds::bits::lemma_bit16_ops(0, 0, 0, low as u16);
                }
            }
        }
    }

    /// The player's cards seen through the cards out of play.
    pub fn from_card_tracker(card_tracker: &'a CardTracker, virtualizer: &'a Virtualizer) -> (t:
        Self)
        ensures
            t.tracker() == *card_tracker,
            t.converter() == *virtualizer,
    {
        Self { card_tracker, virtualizer }
    }

    /// Whether the player holds no card of the suit.
    pub fn is_void_in(&self, suit: Suit) -> (b: bool)
        ensures
            b == (self.held(suit) == 0),
    {
        self.card_tracker.is_void_in(suit)
    }

    /// Whether the player holds a card of the suit.
    pub fn has_cards_in(&self, suit: Suit) -> (b: bool)
        ensures
            b == (self.held(suit) != 0),
    {
        self.card_tracker.has_cards_in(suit)
    }

    /// Whether the player holds exactly one card of the suit.
    pub fn has_singleton_in(&self, suit: Suit) -> (b: bool)
        ensures
            b == (ones(self.held(suit), 16) == 1),
    {
        self.card_tracker.has_singleton_in(suit)
    }

    /// Whether the player holds exactly two cards of the suit.
    pub fn has_doubleton_in(&self, suit: Suit) -> (b: bool)
        ensures
            b == (ones(self.held(suit), 16) == 2),
    {
        self.card_tracker.has_doubleton_in(suit)
    }

    /// Whether the player holds the highest card of the suit still in play.
    pub fn contains_winning_rank_in(&self, suit: Suit) -> (b: bool)
        ensures
            b == self.holds(suit, 12),
    {
        self.contains_in(&VirtualRank::Ace, suit)
    }

    /// Whether the player holds the second highest card of the suit still in play.
    pub fn contains_runner_up_in(&self, suit: Suit) -> (b: bool)
        ensures
            b == self.holds(suit, 11),
    {
        self.contains_in(&VirtualRank::King, suit)
    }

    /// Whether the player's only card of the suit is its highest card still in play.
    pub fn has_singleton_winner_in(&self, suit: Suit) -> (b: bool)
        ensures
            b == (ones(self.held(suit), 16) == 1 && self.holds(suit, 12)),
    {
        self.has_singleton_in(suit) && self.contains_winning_rank_in(suit)
    }

    /// Whether the player holds two cards of the suit, one of them its second highest card
    /// still in play.
    pub fn has_doubleton_runner_up_in(&self, suit: Suit) -> (b: bool)
        ensures
            b == (ones(self.held(suit), 16) == 2 && self.holds(suit, 11)),
    {
        self.has_doubleton_in(suit) && self.contains_runner_up_in(suit)
    }

    /// Whether the player holds the virtual card.
    pub fn contains(&self, card: &VirtualCard) -> (b: bool)
        ensures
            b == self.holds(card.suit, card.rank.rank() as int),
    {
        match self.virtual_to_absolute_card(card) {
            None => false,
            Some(absolute) => {
                proof {
                    self.lemma_holds_matches(card.suit, card.rank);
                }
                self.card_tracker.contains(&absolute)
            },
        }
    }

    /// Whether the player holds the virtual rank in the suit.
    pub fn contains_in(&self, rank: &VirtualRank, suit: Suit) -> (b: bool)
        ensures
            b == self.holds(suit, rank.rank() as int),
    {
        proof {
            self.lemma_holds_matches(suit, *rank);
        }
        match self.virtual_to_absolute_rank(rank, suit) {
            None => false,
            Some(absolute) => self.card_tracker.contains_in(&absolute, suit),
        }
    }

    proof fn lemma_holds_matches(self, suit: Suit, v: VirtualRank)
        ensures
            self.holds(suit, v.rank() as int) == (match absolute_of(self.out(suit), v) {
                Some(d) => self.tracker()@.contains(Card { suit, denomination: d }),
                None => false,
            }),
    {
        let out = self.out(suit);
        lemma_scan_gives(out, v.rank() as int);
        match absolute_from(out, v.rank() as int, 0) {
            Some(a) => {
                crate::card::lemma_denomination_rank_bijection(
                    Denomination::of_rank(a as u8),
                    a as u8,
                );
            },
            None => {},
        }
    }

    /// The number of cards the player holds.
    pub fn count_cards(&self) -> (n: usize)
        ensures
            n == ones(self.held(Suit::Clubs), 16) + ones(self.held(Suit::Diamonds), 16) + ones(
                self.held(Suit::Hearts),
                16,
            ) + ones(self.held(Suit::Spades), 16),
    {
        self.card_tracker.count_cards()
    }

    /// The number of cards the player holds in a suit.
    pub fn count_cards_in(&self, suit: Suit) -> (n: usize)
        ensures
            n == ones(self.held(suit), 16),
            n <= 16,
    {
        self.card_tracker.count_cards_in(suit)
    }

    /// The number of cards the player holds per suit, Clubs to Spades.
    pub fn count_cards_per_suit(&self) -> (c: [usize; 4])
        ensures
            forall|s: Suit| #[trigger] c@[s.rank() as int] == ones(self.held(s), 16),
    {
        self.card_tracker.count_cards_per_suit()
    }

    fn absolute_to_virtual_card(&self, card: &Card) -> (v: Option<VirtualCard>)
        requires
            self.out(card.suit) <= ALL_RANKS,
        ensures
            v == (match virtual_rank_of(self.out(card.suit), card.denomination) {
                Some(r) => Some(VirtualCard { suit: card.suit, rank: r }),
                None => None,
            }),
    {
        self.virtualizer.absolute_to_virtual(*card)
    }

    fn virtual_to_absolute_card(&self, virtual_card: &VirtualCard) -> (c: Option<Card>)
        ensures
            c == (match absolute_of(self.out(virtual_card.suit), virtual_card.rank) {
                Some(d) => Some(Card { suit: virtual_card.suit, denomination: d }),
                None => None,
            }),
    {
        self.virtualizer.virtual_to_absolute(*virtual_card)
    }

    fn absolute_to_virtual_rank(&self, rank: &Denomination, suit: Suit) -> (r: Option<
        VirtualRank,
    >)
        requires
            self.out(suit) <= ALL_RANKS,
        ensures
            r == virtual_rank_of(self.out(suit), *rank),
    {
        self.virtualizer.absolute_to_virtual_rank(rank, suit)
    }

    fn virtual_to_absolute_rank(&self, virtual_rank: &VirtualRank, suit: Suit) -> (r: Option<
        Denomination,
    >)
        ensures
            r == absolute_of(self.out(suit), *virtual_rank),
    {
        self.virtualizer.virtual_to_absolute_rank(virtual_rank, suit)
    }

    /// The virtual ranks of the player's cards of a suit still in play, lowest first.
    pub fn all_ranks_in(&self, suit: Suit) -> (v: Vec<VirtualRank>)
        requires
            self.held(suit) <= ALL_RANKS,
            self.out(suit) <= ALL_RANKS,
        ensures
            v@ == virtual_ranks(self.out(suit), ranks_from(self.held(suit), 0)),
    {
        let ranks = self.card_tracker.ranks_in(suit);
        let mut v: Vec<VirtualRank> = Vec::new();
        let mut i: usize = 0;
        while i < ranks.len()
            invariant
                0 <= i <= ranks@.len(),
                self.out(suit) <= ALL_RANKS,
                v@ == virtual_ranks(self.out(suit), ranks@.take(i as int)),
            decreases ranks@.len() - i,
        {
            assert(ranks@.take(i as int + 1).drop_last() =~= ranks@.take(i as int));
            match self.absolute_to_virtual_rank(&ranks[i], suit) {
                Some(r) => v.push(r),
                None => {},
            }
            i = i + 1;
        }
        assert(ranks@.take(ranks@.len() as int) =~= ranks@);
        v
    }

    /// The player's cards of a suit still in play as virtual cards, lowest first.
    pub fn all_cards_in(&self, suit: Suit) -> (v: Vec<VirtualCard>)
        requires
            self.held(suit) <= ALL_RANKS,
            self.out(suit) <= ALL_RANKS,
        ensures
            v@ == virtual_ranks(self.out(suit), ranks_from(self.held(suit), 0)).map_values(
                |r: VirtualRank| VirtualCard { suit, rank: r },
            ),
    {
        let ranks = self.all_ranks_in(suit);
        let mut v: Vec<VirtualCard> = Vec::new();
        let mut i: usize = 0;
        while i < ranks.len()
            invariant
                0 <= i <= ranks@.len(),
                v@ == ranks@.take(i as int).map_values(|r: VirtualRank| VirtualCard { suit, rank: r }),
            decreases ranks@.len() - i,
        {
            v.push(VirtualCard { suit, rank: ranks[i] });
            i = i + 1;
            assert(v@ =~= ranks@.take(i as int).map_values(
                |r: VirtualRank| VirtualCard { suit, rank: r },
            ));
        }
        assert(ranks@.take(ranks@.len() as int) =~= ranks@);
        v
    }

    /// The player's highest card of a suit as a virtual card, if any. That card must be still
    /// in play.
    pub fn highest_card_in(&self, suit: Suit) -> (c: Option<VirtualCard>)
        requires
            self.out(suit) <= ALL_RANKS,
            self.tracker().highest_rank_spec(suit) matches Some(d) ==> !bit16(
                self.out(suit),
                d.rank() as u16,
            ),
        ensures
            c == (match self.tracker().highest_rank_spec(suit) {
                Some(d) => Some(
                    VirtualCard { suit, rank: virtual_rank_of(self.out(suit), d).unwrap() },
                ),
                None => None,
            }),
    {
        match self.card_tracker.highest_card_in(suit) {
            Some(card) => Some(self.absolute_to_virtual_card(&card).unwrap()),
            None => None,
        }
    }

    /// The player's lowest card of a suit as a virtual card, if any. That card must be still
    /// in play.
    pub fn lowest_card_in(&self, suit: Suit) -> (c: Option<VirtualCard>)
        requires
            self.held(suit) <= ALL_RANKS,
            self.out(suit) <= ALL_RANKS,
            self.tracker().lowest_rank_spec(suit) matches Some(d) ==> !bit16(
                self.out(suit),
                d.rank() as u16,
            ),
        ensures
            c == (match self.tracker().lowest_rank_spec(suit) {
                Some(d) => Some(
                    VirtualCard { suit, rank: virtual_rank_of(self.out(suit), d).unwrap() },
                ),
                None => None,
            }),
    {
        proof {
            let h = self.held(suit);
            crate::dds::suit_field::lemma_low_from(h, 0);
            if h != 0 && lowest_set(h) >= 13 {
                if lowest_set(h) == 16 {
                    assert forall|i: u16| i < 16 implies !bit16(h, i) by {
                        assert(!bit16(h, (i as int) as u16));
                    }
                    crate::dds::suit_field::lemma_no_bits_is_zero(h);
                } else {
                    crate::dds::card_tracker::lemma_within_ranks_bits(h, lowest_set(h) as u16);
                    crate::dds::bits::lemma_bit16_ops(0, 0, 0, lowest_set(h) as u16);
                }
            }
        }
        match self.card_tracker.lowest_card_in(suit) {
            Some(card) => Some(self.absolute_to_virtual_card(&card).unwrap()),
            None => None,
        }
    }

    /// How many of the highest cards of a suit still in play, in a row from the top, the
    /// player holds.
    pub fn count_high_cards_in(&self, suit: Suit) -> (n: usize)
        ensures
            n == top_run(self.held(suit), self.out(suit), 12),
            n <= ones(self.held(suit), 16),
    {
        proof {
            lemma_top_run_bound(self.held(suit), self.out(suit), 12);
            lemma_ones_at_most(self.held(suit), 16);
        }
        let mut n: usize = 0;
        let mut k: u8 = 13;
        while k > 0
            invariant_except_break
                k <= 13,
                top_run(self.held(suit), self.out(suit), 12) <= 16,
                n + top_run(self.held(suit), self.out(suit), k - 1) == top_run(
                    self.held(suit),
                    self.out(suit),
                    12,
                ),
            ensures
                n == top_run(self.held(suit), self.out(suit), 12),
            decreases k,
        {
            if self.contains_in(&VirtualRank::from_index(k - 1), suit) {
                n = n + 1;
                k = k - 1;
            } else {
                break;
            }
        }
        n
    }

    /// The number of high cards per suit, Clubs to Spades.
    pub fn count_high_cards_per_suit(&self) -> (c: [usize; 4])
        ensures
            forall|s: Suit| #[trigger] c@[s.rank() as int] == top_run(self.held(s), self.out(s), 12),
    {
        [
            self.count_high_cards_in(Suit::Clubs),
            self.count_high_cards_in(Suit::Diamonds),
            self.count_high_cards_in(Suit::Hearts),
            self.count_high_cards_in(Suit::Spades),
        ]
    }

    /// Walking down the highest cards of a suit still in play while this player or the other
    /// holds each: how many of them this player holds and how many the other.
    pub fn count_combined_high_cards_in(&self, suit: Suit, other: &Self) -> (c: [usize; 2])
        ensures
            c@[0] == combined_run(
                self.held(suit),
                self.out(suit),
                other.held(suit),
                other.out(suit),
                12,
                false,
            ).0,
            c@[1] == combined_run(
                self.held(suit),
                self.out(suit),
                other.held(suit),
                other.out(suit),
                12,
                false,
            ).1,
    {
        let ghost mine = self.held(suit);
        let ghost my_out = self.out(suit);
        let ghost theirs = other.held(suit);
        let ghost their_out = other.out(suit);
        let ghost total = combined_run(mine, my_out, theirs, their_out, 12, false);
        proof {
            lemma_combined_run_bound(mine, my_out, theirs, their_out, 12, false);
            lemma_ones_at_most(mine, 16);
            lemma_ones_at_most(theirs, 16);
        }
        let mut mine_count: usize = 0;
        let mut theirs_count: usize = 0;
        let mut blocked = false;
        let mut k: u8 = 13;
        while k > 0
            invariant_except_break
                k <= 13,
                mine == self.held(suit),
                my_out == self.out(suit),
                theirs == other.held(suit),
                their_out == other.out(suit),
                total == combined_run(mine, my_out, theirs, their_out, 12, false),
                mine_count + combined_run(mine, my_out, theirs, their_out, k - 1, blocked).0
                    == total.0,
                theirs_count + combined_run(mine, my_out, theirs, their_out, k - 1, blocked).1
                    == total.1,
                total.0 <= 16,
                total.1 <= 16,
            ensures
                mine_count == total.0,
                theirs_count == total.1,
            decreases k,
        {
            let high_rank = VirtualRank::from_index(k - 1);
            let mine_has = self.contains_in(&high_rank, suit);
            let theirs_has = other.contains_in(&high_rank, suit);
            if mine_has {
                mine_count = mine_count + 1;
                if theirs_has {
                    blocked = true;
                }
            } else if !blocked && theirs_has {
                theirs_count = theirs_count + 1;
            } else {
                break;
            }
            k = k - 1;
        }
        [mine_count, theirs_count]
    }

    /// The combined high-card counts of all suits: first this player's per suit, Clubs to
    /// Spades, then the other's.
    pub fn count_combined_high_cards_per_suit(&self, other: &Self) -> (c: [[usize; 4]; 2])
        ensures
            forall|s: Suit|
                #![trigger c@[0]@[s.rank() as int]]
                #![trigger c@[1]@[s.rank() as int]]
                c@[0]@[s.rank() as int] == combined_run(
                    self.held(s),
                    self.out(s),
                    other.held(s),
                    other.out(s),
                    12,
                    false,
                ).0 && c@[1]@[s.rank() as int] == combined_run(
                    self.held(s),
                    self.out(s),
                    other.held(s),
                    other.out(s),
                    12,
                    false,
                ).1,
    {
        let clubs = self.count_combined_high_cards_in(Suit::Clubs, other);
        let diamonds = self.count_combined_high_cards_in(Suit::Diamonds, other);
        let hearts = self.count_combined_high_cards_in(Suit::Hearts, other);
        let spades = self.count_combined_high_cards_in(Suit::Spades, other);
        [[clubs[0], diamonds[0], hearts[0], spades[0]], [clubs[1], diamonds[1], hearts[1], spades[1]]]
    }

    /// Whether the player's cards of a suit, read as a number, exceed the other's: true when
    /// the player holds the highest card of the suit that either holds.
    pub fn has_higher_cards_in_suit_than(&self, suit: Suit, other: &Self) -> (b: bool)
        ensures
            b == (self.held(suit) > other.held(suit)),
    {
        self.card_tracker.has_higher_cards_in_suit_than(suit, other.card_tracker)
    }

    /// All the player's cards still in play as virtual cards, suit by suit from Clubs, each
    /// suit lowest first.
    pub fn all_cards(&self) -> (v: Vec<VirtualCard>)
        requires
            forall|s: Suit| #[trigger] self.held(s) <= ALL_RANKS && self.out(s) <= ALL_RANKS,
        ensures
            v@ == self.cards_in_spec(Suit::Clubs) + self.cards_in_spec(Suit::Diamonds)
                + self.cards_in_spec(Suit::Hearts) + self.cards_in_spec(Suit::Spades),
    {
        let mut v = self.all_cards_in(Suit::Clubs);
        let mut d = self.all_cards_in(Suit::Diamonds);
        let mut h = self.all_cards_in(Suit::Hearts);
        let mut s = self.all_cards_in(Suit::Spades);
        v.append(&mut d);
        v.append(&mut h);
        v.append(&mut s);
        v
    }

    /// The player's cards of a suit still in play as virtual cards, lowest first.
    pub open spec fn cards_in_spec(self, suit: Suit) -> Seq<VirtualCard> {
        virtual_ranks(self.out(suit), ranks_from(self.held(suit), 0)).map_values(
            |r: VirtualRank| VirtualCard { suit, rank: r },
        )
    }

    /// The number of the player's cards of the virtual card's suit above it, or none if no card
    /// still in play has its virtual rank.
    pub fn count_cards_higher_than(&self, card: &VirtualCard) -> (n: usize)
        ensures
            n == (match absolute_of(self.out(card.suit), card.rank) {
                Some(d) => ones(
                    self.held(card.suit) & crate::dds::card_tracker::high_mask_above(d),
                    16,
                ) as int,
                None => 0,
            }),
    {
        match self.virtual_to_absolute_card(card) {
            Some(abs_card) => self.card_tracker.count_cards_higher_than(abs_card),
            None => 0,
        }
    }

    /// The number of the player's cards of the virtual card's suit up to and including it, or
    /// none if no card still in play has its virtual rank.
    pub fn count_cards_lower_than(&self, card: &VirtualCard) -> (n: usize)
        ensures
            n == (match absolute_of(self.out(card.suit), card.rank) {
                Some(d) => ones(
                    self.held(card.suit) & crate::dds::card_tracker::low_mask_through(d),
                    16,
                ) as int,
                None => 0,
            }),
    {
        match self.virtual_to_absolute_card(card) {
            Some(abs_card) => self.card_tracker.count_cards_lower_than(abs_card),
            None => 0,
        }
    }
}

} // verus!