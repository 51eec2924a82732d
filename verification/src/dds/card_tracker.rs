//! A set of cards as four suit bit fields (Clubs, Diamonds, Hearts, Spades).
use crate::card::{Card, Denomination, Suit};
use crate::dds::bits::bit16;
use crate::dds::suit_field::{
    has_rank, highest_set, lowest_set, ones, ranks_from, SuitField, ALL_RANKS,
};
use crate::hand::Hand;
use vstd::prelude::*;

verus! {

/// A set of cards: one suit field per suit, Clubs to Spades.
#[derive(Debug, Eq, PartialEq, Clone, Copy)]
pub struct CardTracker([SuitField; 4]);

/// The cards of `suit` named by the denominations `ranks`, in their order.
pub open spec fn cards_of(suit: Suit, ranks: Seq<Denomination>) -> Seq<Card> {
    ranks.map_values(|d: Denomination| Card { suit, denomination: d })
}

/// Splits a 64-bit word into its four 16-bit quarters, lowest first.
pub open spec fn quarters(val: u64) -> Seq<u16> {
    seq![val as u16, (val >> 16u64) as u16, (val >> 32u64) as u16, (val >> 48u64) as u16]
}

impl CardTracker {
    /// The field of each suit, Clubs to Spades.
    pub closed spec fn fields(self) -> Seq<SuitField> {
        self.0@
    }

    /// The field of a suit.
    pub open spec fn field(self, suit: Suit) -> SuitField {
        self.fields()[suit.rank() as int]
    }

    /// The cards of the tracker.
    pub open spec fn view(self) -> Set<Card> {
        Set::new(|c: Card| self.field(c.suit)@.contains(c.denomination.rank() as int))
    }

    /// Every field holds only the bits of the thirteen denominations.
    pub open spec fn within_ranks(self) -> bool {
        forall|s: Suit| #[trigger] self.field(s).bits() <= ALL_RANKS
    }

    /// The field of a suit.
    pub fn suit_state(&self, suit: Suit) -> (f: SuitField)
        ensures
            f == self.field(suit),
    {
        self.0[suit.index() as usize]
    }

    /// Whether this tracker's field of the suit, read as a number, exceeds the other's.
    pub fn has_higher_cards_in_suit_than(&self, suit: Suit, other: &Self) -> (b: bool)
        ensures
            b == (self.field(suit).bits() > other.field(suit).bits()),
    {
        self.suit_state(suit).has_higher_ranks_than_other(&other.suit_state(suit))
    }

    /// The tracker holding no card.
    pub fn empty() -> (t: Self)
        ensures
            forall|s: Suit| #[trigger] t.field(s).bits() == 0,
            t@ == Set::<Card>::empty(),
    {
        let e = SuitField::empty();
        let t = Self([e, e, e, e]);
        assert(t@ =~= Set::<Card>::empty());
        t
    }

    /// The tracker with the given bits per suit, Clubs to Spades.
    pub fn from_u16s(val: [u16; 4]) -> (t: Self)
        ensures
            forall|s: Suit| #[trigger] t.field(s).bits() == val@[s.rank() as int],
    {
        Self(
            [
                SuitField::from_u16(val[0]),
                SuitField::from_u16(val[1]),
                SuitField::from_u16(val[2]),
                SuitField::from_u16(val[3]),
            ],
        )
    }

    /// The tracker with the given fields, Clubs to Spades.
    pub fn from_suit_fields(fields: [SuitField; 4]) -> (t: Self)
        ensures
            t.fields() == fields@,
    {
        Self(fields)
    }

    /// The tracker whose fields are the four quarters of a 64-bit word, Clubs in the lowest.
    pub fn from_u64(val: u64) -> (t: Self)
        ensures
            forall|s: Suit| #[trigger] t.field(s).bits() == quarters(val)[s.rank() as int],
    {
        let field = [val as u16, (val >> 16) as u16, (val >> 32) as u16, (val >> 48) as u16];
        Self::from_u16s(field)
    }

    /// The cards out of play when every seat still holds `n` cards of each suit: the
    /// `13 - n` lowest denominations of each suit.
    pub fn for_n_cards_per_suit(n: usize) -> (t: Self)
        requires
            n <= 13,
        ensures
            forall|s: Suit| #[trigger] t.field(s)@ == Set::new(|i: int| 0 <= i < 13 - n),
            forall|s: Suit| #[trigger] t.field(s).bits() <= ALL_RANKS,
    {
        let f = SuitField::for_n_cards_per_suit(n);
        proof {
            assert forall|i: u16| i < 16 && bit16(f.bits(), i) implies bit16(ALL_RANKS, i) by {
                assert(f@.contains(i as int));
                crate::dds::bits::lemma_bit16_ops(0, 0, 0, i);
            }
            lemma_bits_within_ranks(f.bits());
        }
        Self([f, f, f, f])
    }

    /// The union of two trackers.
    pub fn union(&self, other: &Self) -> (t: Self)
        ensures
            forall|s: Suit| #[trigger] t.field(s).bits() == self.field(s).bits() | other.field(s).bits(),
            t@ == self@.union(other@),
    {
        let t = Self(
            [
                self.0[0].union(&other.0[0]),
                self.0[1].union(&other.0[1]),
                self.0[2].union(&other.0[2]),
                self.0[3].union(&other.0[3]),
            ],
        );
        assert(t@ =~= self@.union(other@));
        t
    }

    /// The tracker holding the given cards.
    pub fn from_cards(cards: &[Card]) -> (t: Self)
        ensures
            t@ == cards@.to_set(),
            t.within_ranks(),
    {
        let mut tracker = Self::empty();
        let mut i: usize = 0;
        while i < cards.len()
            invariant
                0 <= i <= cards@.len(),
                tracker@ == cards@.take(i as int).to_set(),
                tracker.within_ranks(),
            decreases cards@.len() - i,
        {
            tracker.add_card(cards[i]);
            i = i + 1;
            assert(cards@.take(i as int).to_set() =~= cards@.take(i - 1).to_set().insert(
                cards@[i - 1],
            )) by {
                assert(cards@.take(i as int) =~= cards@.take(i - 1).push(cards@[i - 1]));
                cards@.take(i - 1).lemma_push_to_set_commute(cards@[i - 1]);
            }
        }
        assert(cards@.take(cards@.len() as int) =~= cards@);
        tracker
    }

    /// The tracker holding the cards of a hand.
    pub fn from_hand(hand: Hand) -> (t: Self)
        ensures
            t@ == hand@.to_set(),
            t.within_ranks(),
    {
        let cards = hand.cards();
        Self::from_cards(cards.as_slice())
    }

    /// The number of cards in a suit.
    pub fn count_cards_in(&self, suit: Suit) -> (n: usize)
        ensures
            n == ones(self.field(suit).bits(), 16),
            n <= 16,
    {
        self.suit_state(suit).count_cards()
    }

    /// The number of cards in all four suits.
    pub fn count_cards(&self) -> (n: usize)
        ensures
            n == ones(self.field(Suit::Clubs).bits(), 16) + ones(self.field(Suit::Diamonds).bits(), 16)
                + ones(self.field(Suit::Hearts).bits(), 16) + ones(
                self.field(Suit::Spades).bits(),
                16,
            ),
    {
        self.count_cards_in(Suit::Clubs) + self.count_cards_in(Suit::Diamonds) + self.count_cards_in(
            Suit::Hearts,
        ) + self.count_cards_in(Suit::Spades)
    }

    /// Whether the tracker holds no card of the suit.
    pub fn is_void_in(&self, suit: Suit) -> (b: bool)
        ensures
            b == (self.field(suit).bits() == 0),
    {
        self.suit_state(suit).is_void()
    }

    /// Whether the tracker holds a card of the suit.
    pub fn has_cards_in(&self, suit: Suit) -> (b: bool)
        ensures
            b == (self.field(suit).bits() != 0),
    {
        !self.is_void_in(suit)
    }

    /// Whether the tracker holds exactly one card of the suit.
    pub fn has_singleton_in(&self, suit: Suit) -> (b: bool)
        ensures
            b == (ones(self.field(suit).bits(), 16) == 1),
    {
        self.count_cards_in(suit) == 1
    }

    /// Whether the tracker holds exactly two cards of the suit.
    pub fn has_doubleton_in(&self, suit: Suit) -> (b: bool)
        ensures
            b == (ones(self.field(suit).bits(), 16) == 2),
    {
        self.count_cards_in(suit) == 2
    }

    /// The number of cards per suit, Clubs to Spades.
    pub fn count_cards_per_suit(&self) -> (c: [usize; 4])
        ensures
            forall|s: Suit| #[trigger] c@[s.rank() as int] == ones(self.field(s).bits(), 16),
    {
        [
            self.0[0].count_cards(),
            self.0[1].count_cards(),
            self.0[2].count_cards(),
            self.0[3].count_cards(),
        ]
    }

    /// Adds a card.
    pub fn add_card(&mut self, card: Card)
        ensures
            final(self)@ == old(self)@.insert(card),
            forall|s: Suit|
                s != card.suit ==> #[trigger] final(self).field(s) == old(self).field(s),
            final(self).field(card.suit)@ == old(self).field(card.suit)@.insert(
                card.denomination.rank() as int,
            ),
            final(self).field(card.suit).bits() == old(self).field(card.suit).bits() | (1u16
                << card.denomination.rank() as u16),
            old(self).within_ranks() ==> final(self).within_ranks(),
    {
        let i = card.suit.index() as usize;
        let mut f = self.0[i];
        f.add_rank(card.denomination);
        proof {
            if old(self).within_ranks() {
                let v = f.bits();
                let w = old(self).0[i as int].bits();
                assert(old(self).field(card.suit).bits() <= ALL_RANKS);
                assert forall|k: u16| k < 16 && bit16(v, k) implies bit16(ALL_RANKS, k) by {
                    crate::dds::bits::lemma_bit16_ops(
                        w,
                        1u16 << card.denomination.rank() as u16,
                        card.denomination.rank() as u16,
                        k,
                    );
                    crate::dds::bits::lemma_bit16_ops(0, 0, 0, k);
                    if bit16(w, k) {
                        lemma_within_ranks_bits(w, k);
                    }
                }
                lemma_bits_within_ranks(v);
            }
        }
        self.0[i] = f;
        assert(self@ =~= old(self)@.insert(card));
        proof {
            if old(self).within_ranks() {
                assert forall|s: Suit| #[trigger] self.field(s).bits() <= ALL_RANKS by {
                    assert(old(self).field(s).bits() <= ALL_RANKS);
                }
            }
        }
    }

    /// Removes a card.
    pub fn remove_card(&mut self, card: Card)
        ensures
            final(self)@ == old(self)@.remove(card),
            forall|s: Suit|
                s != card.suit ==> #[trigger] final(self).field(s) == old(self).field(s),
            final(self).field(card.suit)@ == old(self).field(card.suit)@.remove(
                card.denomination.rank() as int,
            ),
            final(self).field(card.suit).bits() == old(self).field(card.suit).bits() & !(1u16
                << card.denomination.rank() as u16),
            old(self).within_ranks() ==> final(self).within_ranks(),
    {
        let i = card.suit.index() as usize;
        let mut f = self.0[i];
        f.remove_rank(card.denomination);
        proof {
            if old(self).within_ranks() {
                let v = f.bits();
                let w = old(self).0[i as int].bits();
                assert(old(self).field(card.suit).bits() <= ALL_RANKS);
                assert forall|k: u16| k < 16 && bit16(v, k) implies bit16(ALL_RANKS, k) by {
                    crate::dds::bits::lemma_bit16_ops(
                        w,
                        !(1u16 << card.denomination.rank() as u16),
                        card.denomination.rank() as u16,
                        k,
                    );
                    if bit16(w, k) {
                        lemma_within_ranks_bits(w, k);
                    }
                }
                lemma_bits_within_ranks(v);
            }
        }
        self.0[i] = f;
        assert(self@ =~= old(self)@.remove(card));
        proof {
            if old(self).within_ranks() {
                assert forall|s: Suit| #[trigger] self.field(s).bits() <= ALL_RANKS by {
                    assert(old(self).field(s).bits() <= ALL_RANKS);
                }
            }
        }
    }

    /// Whether the tracker holds the card.
    pub fn contains(&self, card: &Card) -> (b: bool)
        ensures
            b == self@.contains(*card),
    {
        self.suit_state(card.suit).contains_rank(&card.denomination)
    }

    /// Whether the tracker holds the denomination in the suit.
    pub fn contains_in(&self, rank: &Denomination, suit: Suit) -> (b: bool)
        ensures
            b == self@.contains(Card { suit, denomination: *rank }),
    {
        self.suit_state(suit).contains_rank(rank)
    }

    /// All cards of the tracker, suit by suit from Clubs, each suit lowest first.
    pub fn all_cards(&self) -> (v: Vec<Card>)
        requires
            self.within_ranks(),
        ensures
            v@ == cards_of(Suit::Clubs, ranks_from(self.field(Suit::Clubs).bits(), 0)) + cards_of(
                Suit::Diamonds,
                ranks_from(self.field(Suit::Diamonds).bits(), 0),
            ) + cards_of(Suit::Hearts, ranks_from(self.field(Suit::Hearts).bits(), 0)) + cards_of(
                Suit::Spades,
                ranks_from(self.field(Suit::Spades).bits(), 0),
            ),
    {
        let mut v = self.cards_in(Suit::Clubs);
        let mut d = self.cards_in(Suit::Diamonds);
        let mut h = self.cards_in(Suit::Hearts);
        let mut s = self.cards_in(Suit::Spades);
        v.append(&mut d);
        v.append(&mut h);
        v.append(&mut s);
        v
    }

    /// The cards of a suit, lowest first.
    pub fn cards_in(&self, suit: Suit) -> (v: Vec<Card>)
        requires
            self.field(suit).bits() <= ALL_RANKS,
        ensures
            v@ == cards_of(suit, ranks_from(self.field(suit).bits(), 0)),
    {
        let ranks = self.ranks_in(suit);
        let mut v: Vec<Card> = Vec::new();
        let mut i: usize = 0;
        while i < ranks.len()
            invariant
                0 <= i <= ranks@.len(),
                v@ == cards_of(suit, ranks@.take(i as int)),
            decreases ranks@.len() - i,
        {
            v.push(Card { suit, denomination: ranks[i] });
            i = i + 1;
            assert(v@ =~= cards_of(suit, ranks@.take(i as int)));
        }
        assert(ranks@.take(ranks@.len() as int) =~= ranks@);
        v
    }

    /// The denominations of a suit, lowest first.
    pub fn ranks_in(&self, suit: Suit) -> (v: Vec<Denomination>)
        requires
            self.field(suit).bits() <= ALL_RANKS,
        ensures
            v@ == ranks_from(self.field(suit).bits(), 0),
    {
        self.suit_state(suit).all_contained_ranks()
    }

    /// The highest card of a suit, if any.
    pub fn highest_card_in(&self, suit: Suit) -> (c: Option<Card>)
        ensures
            c == (match self.highest_rank_spec(suit) {
                Some(d) => Some(Card { suit, denomination: d }),
                None => None,
            }),
    {
        match self.highest_rank_in(suit) {
            Some(rank) => Some(Card { suit, denomination: rank }),
            None => None,
        }
    }

    /// The highest denomination of a suit; none if the suit is empty or its highest bit lies
    /// above the Ace.
    pub open spec fn highest_rank_spec(self, suit: Suit) -> Option<Denomination> {
        let h = highest_set(self.field(suit).bits());
        if 0 <= h < 13 {
            Some(Denomination::of_rank(h as u8))
        } else {
            None
        }
    }

    /// The lowest denomination of a suit, if any.
    pub open spec fn lowest_rank_spec(self, suit: Suit) -> Option<Denomination> {
        if self.field(suit).bits() == 0 {
            None
        } else {
            Some(Denomination::of_rank(lowest_set(self.field(suit).bits()) as u8))
        }
    }

    /// The highest denomination of a suit; none if the suit is empty or its highest bit lies
    /// above the Ace.
    pub fn highest_rank_in(&self, suit: Suit) -> (r: Option<Denomination>)
        ensures
            r == self.highest_rank_spec(suit),
    {
        self.suit_state(suit).highest_rank()
    }

    /// The lowest card of a suit, if any. Its bit must not lie above the Ace.
    pub fn lowest_card_in(&self, suit: Suit) -> (c: Option<Card>)
        requires
            lowest_set(self.field(suit).bits()) < 13 || self.field(suit).bits() == 0,
        ensures
            c == (match self.lowest_rank_spec(suit) {
                Some(d) => Some(Card { suit, denomination: d }),
                None => None,
            }),
    {
        match self.lowest_rank_in(suit) {
            Some(rank) => Some(Card { suit, denomination: rank }),
            None => None,
        }
    }

    /// The lowest denomination of a suit, if any. Its bit must not lie above the Ace.
    pub fn lowest_rank_in(&self, suit: Suit) -> (r: Option<Denomination>)
        requires
            lowest_set(self.field(suit).bits()) < 13 || self.field(suit).bits() == 0,
        ensures
            r == self.lowest_rank_spec(suit),
    {
        self.suit_state(suit).lowest_rank()
    }

    /// The number of cards of the card's suit up to and including its denomination.
    pub fn count_cards_lower_than(&self, card: Card) -> (n: usize)
        ensures
            n == ones(self.field(card.suit).bits() & low_mask_through(card.denomination), 16),
    {
        let f = self.suit_state(card.suit).cards_lower_than(card.denomination);
        proof {
            lemma_mask_through(self.field(card.suit), card.denomination, f);
        }
        f.count_cards()
    }

    /// The number of cards of the card's suit above its denomination.
    pub fn count_cards_higher_than(&self, card: Card) -> (n: usize)
        ensures
            n == ones(self.field(card.suit).bits() & high_mask_above(card.denomination), 16),
    {
        let f = self.suit_state(card.suit).cards_higher_than(card.denomination);
        proof {
            lemma_mask_above(self.field(card.suit), card.denomination, f);
        }
        f.count_cards()
    }
}

/// Trackers with the same four fields are equal.
pub proof fn lemma_tracker_fields_ext(a: CardTracker, b: CardTracker)
    requires
        a.field(Suit::Clubs) == b.field(Suit::Clubs),
        a.field(Suit::Diamonds) == b.field(Suit::Diamonds),
        a.field(Suit::Hearts) == b.field(Suit::Hearts),
        a.field(Suit::Spades) == b.field(Suit::Spades),
    ensures
        a == b,
{
    assert(a.0@ =~= b.0@);
    vstd::array::axiom_array_ext_equal(a.0, b.0);
}

/// The bits of the denominations up to and including `d`.
pub open spec fn low_mask_through(d: Denomination) -> u16 {
    crate::dds::bits::low_mask16((d.rank() + 1) as u16)
}

/// The bits of the denominations above `d`, up to the Ace.
pub open spec fn high_mask_above(d: Denomination) -> u16 {
    ALL_RANKS & !low_mask_through(d)
}

proof fn lemma_mask_through(f: SuitField, d: Denomination, g: SuitField)
    requires
        g@ == f@.filter(|i: int| i <= d.rank()),
    ensures
        g.bits() == f.bits() & low_mask_through(d),
{
    let r = (d.rank() + 1) as u16;
    assert forall|i: u16| i < 16 implies bit16(g.bits(), i) == bit16(f.bits() & low_mask_through(d), i) by {
        crate::dds::bits::lemma_bit16_ops(f.bits(), low_mask_through(d), r, i);
        crate::dds::bits::lemma_bit16_ops(0, 0, r, i);
        assert(g@.contains(i as int) == (f@.contains(i as int) && i <= d.rank()));
    }
    crate::dds::bits::lemma_bit16_ext(g.bits(), f.bits() & low_mask_through(d));
}

proof fn lemma_mask_above(f: SuitField, d: Denomination, g: SuitField)
    requires
        g@ == f@.filter(|i: int| d.rank() < i < 13),
    ensures
        g.bits() == f.bits() & high_mask_above(d),
{
    let r = (d.rank() + 1) as u16;
    assert forall|i: u16| i < 16 implies bit16(g.bits(), i) == bit16(f.bits() & high_mask_above(d), i) by {
        crate::dds::bits::lemma_bit16_ops(f.bits(), high_mask_above(d), r, i);
        crate::dds::bits::lemma_bit16_ops(ALL_RANKS, !low_mask_through(d), r, i);
        crate::dds::bits::lemma_bit16_ops(low_mask_through(d), 0, r, i);
        assert(g@.contains(i as int) == (f@.contains(i as int) && d.rank() < i < 13));
    }
    crate::dds::bits::lemma_bit16_ext(g.bits(), f.bits() & high_mask_above(d));
}

/// A word whose set bits are all among the denominations' is at most `ALL_RANKS`.
pub proof fn lemma_bits_within_ranks(v: u16)
    requires
        forall|i: u16| i < 16 && bit16(v, i) ==> bit16(ALL_RANKS, i),
    ensures
        v <= ALL_RANKS,
{
    assert forall|i: u16| i < 16 implies bit16(v & ALL_RANKS, i) == bit16(v, i) by {
        crate::dds::bits::lemma_bit16_ops(v, ALL_RANKS, 0, i);
    }
    crate::dds::bits::lemma_bit16_ext(v & ALL_RANKS, v);
    assert(v & ALL_RANKS <= ALL_RANKS) by (bit_vector);
}

/// A word of at most `ALL_RANKS` has no bit above the Ace.
pub proof fn lemma_within_ranks_bits(v: u16, i: u16)
    requires
        v <= ALL_RANKS,
        i < 16,
        bit16(v, i),
    ensures
        bit16(ALL_RANKS, i),
{
    assert(v <= 0x1fffu16 && i < 16 && (v >> i) & 1u16 == 1u16 ==> i < 13) by (bit_vector);
    crate::dds::bits::lemma_bit16_ops(0, 0, 0, i);
}

} // verus!
