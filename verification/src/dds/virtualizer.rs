//! Conversion between absolute ranks and virtual ranks, given the cards out of play.
//! A card still in play has as virtual rank its own rank raised by the number of cards of its
//! suit above it that are out of play: the cards still in play close up towards the Ace.
use crate::card::{Card, Denomination, Suit};
use crate::dds::bits::bit16;
use crate::dds::card_tracker::lemma_within_ranks_bits;
use crate::dds::suit_field::{SuitField, ALL_RANKS};
use crate::dds::virtual_card::{VirtualCard, VirtualRank};
use vstd::prelude::*;

verus! {

/// The number of set bits of `p` from bit `a` up.
pub open spec fn ones_from(p: u16, a: int) -> nat
    decreases 16 - a,
{
    if a < 0 || a >= 16 {
        0
    } else {
        (if bit16(p, a as u16) {
            1nat
        } else {
            0
        }) + ones_from(p, a + 1)
    }
}

/// The virtual position of absolute rank `a` when the cards `played` are out of play.
pub open spec fn virtual_index(played: u16, a: int) -> int {
    a + ones_from(played, a)
}

/// Scanning up from rank `i` to rank `v`: the first rank still in play whose virtual
/// position is `v`, if any.
pub open spec fn absolute_from(played: u16, v: int, i: int) -> Option<int>
    decreases v + 1 - i,
{
    if i < 0 || i > v {
        None
    } else if !bit16(played, i as u16) && virtual_index(played, i) == v {
        Some(i)
    } else {
        absolute_from(played, v, i + 1)
    }
}

/// The absolute rank whose virtual rank is `v`, if any card of the suit still in play has it.
pub open spec fn absolute_of(played: u16, v: VirtualRank) -> Option<Denomination> {
    match absolute_from(played, v.rank() as int, 0) {
        Some(a) => Some(Denomination::of_rank(a as u8)),
        None => None,
    }
}

/// The virtual rank of absolute rank `d`, unless the card is out of play.
pub open spec fn virtual_rank_of(played: u16, d: Denomination) -> Option<VirtualRank> {
    if bit16(played, d.rank() as u16) {
        None
    } else {
        Some(VirtualRank::of_rank(virtual_index(played, d.rank() as int) as u8))
    }
}

/// Counting from a lower bit never counts fewer, and at most one more per bit.
pub proof fn lemma_ones_from_step(p: u16, x: int, y: int)
    requires
        0 <= x <= y <= 16,
    ensures
        ones_from(p, y) <= ones_from(p, x) <= ones_from(p, y) + (y - x),
    decreases y - x,
{
    if x < y {
        lemma_ones_from_step(p, x + 1, y);
    }
}

/// With no card out of play above the Ace, a rank still in play keeps a virtual position
/// below 13.
pub proof fn lemma_virtual_index_bound(p: u16, a: int)
    requires
        p <= ALL_RANKS,
        0 <= a < 13,
        !bit16(p, a as u16),
    ensures
        a <= virtual_index(p, a) < 13,
{
    lemma_high_bits_clear(p, 13);
    lemma_ones_from_step(p, a + 1, 13);
    assert(ones_from(p, 13) == 0) by {
        lemma_ones_from_zero(p, 13);
    }
}

proof fn lemma_high_bits_clear(p: u16, i: int)
    requires
        p <= ALL_RANKS,
        13 <= i <= 16,
    ensures
        forall|j: int| i <= j < 16 ==> !#[trigger] bit16(p, j as u16),
{
    assert forall|j: int| i <= j < 16 implies !#[trigger] bit16(p, j as u16) by {
        if bit16(p, j as u16) {
            lemma_within_ranks_bits(p, j as u16);
            crate::dds::bits::lemma_bit16_ops(0, 0, 0, j as u16);
        }
    }
}

proof fn lemma_ones_from_zero(p: u16, i: int)
    requires
        13 <= i <= 16,
        forall|j: int| i <= j < 16 ==> !#[trigger] bit16(p, j as u16),
    ensures
        ones_from(p, i) == 0,
    decreases 16 - i,
{
    if i < 16 {
        lemma_ones_from_zero(p, i + 1);
    }
}

/// The virtual position grows with the rank, among the ranks still in play.
pub proof fn lemma_virtual_index_increases(p: u16, i: int, j: int)
    requires
        0 <= i < j < 16,
        !bit16(p, i as u16),
    ensures
        virtual_index(p, i) < virtual_index(p, j),
{
    lemma_ones_from_step(p, i + 1, j);
}

proof fn lemma_scan_finds(p: u16, v: int, i: int, a: int)
    requires
        0 <= i <= a <= v,
        a < 16,
        !bit16(p, a as u16),
        virtual_index(p, a) == v,
    ensures
        absolute_from(p, v, i) == Some(a),
    decreases a - i,
{
    if i < a {
        if !bit16(p, i as u16) {
            lemma_virtual_index_increases(p, i, a);
        }
        lemma_scan_finds(p, v, i + 1, a);
    }
}

proof fn lemma_scan_result(p: u16, v: int, i: int)
    requires
        0 <= i,
    ensures
        absolute_from(p, v, i) matches Some(a) ==> i <= a <= v && !bit16(p, a as u16)
            && virtual_index(p, a) == v,
    decreases v + 1 - i,
{
    if i <= v && !(!bit16(p, i as u16) && virtual_index(p, i) == v) {
        lemma_scan_result(p, v, i + 1);
    }
}

/// The number of ranks from `a` up to the Ace that are still in play.
pub open spec fn in_play_from(played: u16, a: int) -> int
    decreases 13 - a,
{
    if a < 0 || a >= 13 {
        0
    } else {
        (if bit16(played, a as u16) {
            0int
        } else {
            1int
        }) + in_play_from(played, a + 1)
    }
}

proof fn lemma_ones_and_in_play(played: u16, a: int)
    requires
        played <= ALL_RANKS,
        0 <= a <= 13,
    ensures
        ones_from(played, a) + in_play_from(played, a) == 13 - a,
    decreases 13 - a,
{
    if a < 13 {
        lemma_ones_and_in_play(played, a + 1);
    } else {
        lemma_high_bits_clear(played, 13);
        lemma_ones_from_zero(played, 13);
    }
}

/// Only the order of the cards still in play counts: a card still in play has as virtual rank
/// the Ace less the number of cards still in play above it. So if only the Eight, Five and Three
/// of a suit are in play, they are its virtual Ace, King and Queen.
pub proof fn lemma_cards_in_play_close_up(played: u16, a: int)
    requires
        played <= ALL_RANKS,
        0 <= a < 13,
        !bit16(played, a as u16),
    ensures
        virtual_index(played, a) == 12 - in_play_from(played, a + 1),
{
    lemma_ones_and_in_play(played, a + 1);
}

/// A rank still in play, made virtual and back, is itself again.
pub proof fn lemma_absolute_virtual_roundtrip(played: u16, d: Denomination)
    requires
        played <= ALL_RANKS,
        !bit16(played, d.rank() as u16),
    ensures
        virtual_rank_of(played, d) matches Some(v) && absolute_of(played, v) == Some(d),
{
    let a = d.rank() as int;
    lemma_virtual_index_bound(played, a);
    let v = virtual_index(played, a);
    lemma_scan_finds(played, v, 0, a);
    crate::card::lemma_denomination_rank_bijection(d, 0);
}

/// A virtual rank that names a card still in play, made absolute and back, is itself again.
pub proof fn lemma_virtual_absolute_roundtrip(played: u16, v: VirtualRank)
    requires
        absolute_of(played, v) is Some,
    ensures
        virtual_rank_of(played, absolute_of(played, v).unwrap()) == Some(v),
{
    lemma_scan_result(played, v.rank() as int, 0);
    let a = absolute_from(played, v.rank() as int, 0).unwrap();
    assert(0 <= a <= 12);
    crate::card::lemma_denomination_rank_bijection(Denomination::of_rank(a as u8), a as u8);
    assert(VirtualRank::of_rank(v.rank()) == v);
}

/// Counts the set bits of `played` from bit `index` up.
fn count_from(played: u16, index: u16) -> (n: u16)
    requires
        index <= 16,
    ensures
        n == ones_from(played, index as int),
        n <= 16 - index,
{
    let mut n: u16 = 0;
    let mut j: u16 = 16;
    while j > index
        invariant
            index <= j <= 16,
            n == ones_from(played, j as int),
            n <= 16 - j,
        decreases j,
    {
        j = j - 1;
        if (played >> j) & 1 == 1 {
            n = n + 1;
        }
    }
    n
}

/// The absolute rank whose virtual rank is `virtual_rank` when the cards `played` are out of
/// play, if a card still in play has it.
pub fn try_absolute_from_virtual_rank(virtual_rank: VirtualRank, played: u16) -> (r: Option<
    Denomination,
>)
    ensures
        r == absolute_of(played, virtual_rank),
{
    let rel_index = virtual_rank.index() as u16;
    let mut index: u16 = 0;
    while index <= rel_index
        invariant
            0 <= index <= rel_index + 1,
            rel_index == virtual_rank.rank(),
            rel_index < 13,
            absolute_from(played, rel_index as int, index as int) == absolute_from(
                played,
                rel_index as int,
                0,
            ),
        decreases rel_index + 1 - index,
    {
        if (played >> index) & 1 != 1 {
            let pop_count = count_from(played, index);
            if rel_index == index + pop_count {
                return Some(Denomination::from_index(index as u8));
            }
        }
        index = index + 1;
    }
    None
}

/// The virtual rank of absolute rank `rank` when the cards `played` are out of play, unless
/// the card itself is out of play. Nothing above the Ace may be marked out of play.
pub fn try_virtual_from_absolute_rank(rank: Denomination, played: u16) -> (r: Option<VirtualRank>)
    requires
        played <= ALL_RANKS,
    ensures
        r == virtual_rank_of(played, rank),
{
    let index = rank.index() as u16;
    if (played >> index) & 1 == 1 {
        return None;
    }
    let pop_count = count_from(played, index);
    proof {
        lemma_virtual_index_bound(played, index as int);
    }
    Some(VirtualRank::from_index((index + pop_count) as u8))
}

/// Converts between absolute and virtual ranks, given the cards out of play per suit.
pub struct Virtualizer {
    played: [SuitField; 4],
}

impl Virtualizer {
    /// The cards out of play in a suit.
    pub closed spec fn out_of_play(self, suit: Suit) -> u16 {
        self.played[suit.rank() as int].bits()
    }

    /// The converter for the cards out of play given per suit, Clubs to Spades.
    pub fn new(played: [SuitField; 4]) -> (v: Self)
        ensures
            forall|s: Suit| #[trigger] v.out_of_play(s) == played@[s.rank() as int].bits(),
    {
        Self { played }
    }

    /// The card a virtual card stands for, if any card still in play has its virtual rank.
    pub fn virtual_to_absolute(&self, virtual_card: VirtualCard) -> (c: Option<Card>)
        ensures
            c == (match absolute_of(self.out_of_play(virtual_card.suit), virtual_card.rank) {
                Some(d) => Some(Card { suit: virtual_card.suit, denomination: d }),
                None => None,
            }),
    {
        let suit = virtual_card.suit;
        match self.virtual_to_absolute_rank(&virtual_card.rank, suit) {
            Some(rank) => Some(Card { suit, denomination: rank }),
            None => None,
        }
    }

    /// The virtual card of a card, unless the card is out of play. Nothing above the Ace may
    /// be marked out of play in its suit.
    pub fn absolute_to_virtual(&self, card: Card) -> (v: Option<VirtualCard>)
        requires
            self.out_of_play(card.suit) <= ALL_RANKS,
        ensures
            v == (match virtual_rank_of(self.out_of_play(card.suit), card.denomination) {
                Some(r) => Some(VirtualCard { suit: card.suit, rank: r }),
                None => None,
            }),
    {
        let suit = card.suit;
        match self.absolute_to_virtual_rank(&card.denomination, suit) {
            Some(rank) => Some(VirtualCard { rank, suit }),
            None => None,
        }
    }

    /// The absolute rank of a virtual rank in a suit, if any card still in play has it.
    pub fn virtual_to_absolute_rank(&self, virtual_rank: &VirtualRank, suit: Suit) -> (r: Option<
        Denomination,
    >)
        ensures
            r == absolute_of(self.out_of_play(suit), *virtual_rank),
    {
        let out_of_play = self.played[suit.index() as usize];
        try_absolute_from_virtual_rank(*virtual_rank, out_of_play.to_u16())
    }

    /// The virtual rank of a denomination in a suit, unless that card is out of play.
    pub fn absolute_to_virtual_rank(&self, rank: &Denomination, suit: Suit) -> (r: Option<
        VirtualRank,
    >)
        requires
            self.out_of_play(suit) <= ALL_RANKS,
        ensures
            r == virtual_rank_of(self.out_of_play(suit), *rank),
    {
        let out_of_play = self.played[suit.index() as usize];
        try_virtual_from_absolute_rank(*rank, out_of_play.to_u16())
    }
}

} // verus!
