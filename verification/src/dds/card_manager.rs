//! The cards still held by each seat and the cards played so far.
use crate::card::{Card, Suit};
use crate::dds::bits::{bit16, lemma_bit16_ext, lemma_bit16_ops};
use crate::dds::card_tracker::{cards_of, CardTracker};
use crate::dds::suit_field::{ones, ranks_from, ALL_RANKS};
use crate::deal::PlayerPosition;
use crate::hand::Hand;
use vstd::prelude::*;

verus! {

/// The cards still held by each seat (North, East, South, West) and the cards played.
pub struct CardManager {
    pub remaining_cards: [CardTracker; 4],
    pub played_cards: CardTracker,
}

/// `after` is `before` with the card's bit set in its suit, every other field unchanged.
pub open spec fn with_card(before: CardTracker, after: CardTracker, card: Card) -> bool {
    &&& after.field(card.suit).bits() == before.field(card.suit).bits() | (1u16
        << card.denomination.rank() as u16)
    &&& forall|s: Suit| s != card.suit ==> #[trigger] after.field(s) == before.field(s)
}

/// `after` is `before` with the card's bit cleared in its suit, every other field unchanged.
pub open spec fn without_card(before: CardTracker, after: CardTracker, card: Card) -> bool {
    &&& after.field(card.suit).bits() == before.field(card.suit).bits() & !(1u16
        << card.denomination.rank() as u16)
    &&& forall|s: Suit| s != card.suit ==> #[trigger] after.field(s) == before.field(s)
}

/// Clearing a card's bit removes the card from the tracker's cards.
pub proof fn lemma_without_card_view(before: CardTracker, after: CardTracker, card: Card)
    requires
        without_card(before, after, card),
    ensures
        after@ == before@.remove(card),
{
    assert forall|c: Card| after@.contains(c) == before@.remove(card).contains(c) by {
        crate::card::lemma_denomination_rank_bijection(c.denomination, 0);
        crate::card::lemma_denomination_rank_bijection(card.denomination, 0);
        if c.suit == card.suit {
            crate::dds::bits::lemma_bit16_ops(
                before.field(c.suit).bits(),
                !(1u16 << card.denomination.rank() as u16),
                card.denomination.rank() as u16,
                c.denomination.rank() as u16,
            );
            crate::dds::bits::lemma_bit16_ops(
                1u16 << card.denomination.rank() as u16,
                0,
                card.denomination.rank() as u16,
                c.denomination.rank() as u16,
            );
            if c.denomination.rank() == card.denomination.rank() {
                assert(c == card);
            }
        }
    }
    assert(after@ =~= before@.remove(card));
}

/// `after` is `before` once the seat has played the card.
pub open spec fn plays(before: CardManager, after: CardManager, card: Card, player: PlayerPosition) -> bool {
    &&& without_card(
        before.remaining_cards@[player.rank() as int],
        after.remaining_cards@[player.rank() as int],
        card,
    )
    &&& forall|q: int|
        0 <= q < 4 && q != player.rank() ==> #[trigger] after.remaining_cards@[q]
            == before.remaining_cards@[q]
    &&& with_card(before.played_cards, after.played_cards, card)
}

/// `after` is `before` once the card the seat played is taken back.
pub open spec fn unplays(before: CardManager, after: CardManager, card: Card, player: PlayerPosition) -> bool {
    &&& with_card(
        before.remaining_cards@[player.rank() as int],
        after.remaining_cards@[player.rank() as int],
        card,
    )
    &&& forall|q: int|
        0 <= q < 4 && q != player.rank() ==> #[trigger] after.remaining_cards@[q]
            == before.remaining_cards@[q]
    &&& without_card(before.played_cards, after.played_cards, card)
}

impl CardManager {
    /// The manager at the start of play: each seat holds its hand, nothing is played.
    pub fn from_hands(hands: [Hand; 4]) -> (m: CardManager)
        ensures
            forall|p: int| 0 <= p < 4 ==> #[trigger] m.remaining_cards@[p]@ == hands@[p]@.to_set(),
            forall|p: int| 0 <= p < 4 ==> #[trigger] m.remaining_cards@[p].within_ranks(),
            m.played_cards@ == Set::<Card>::empty(),
            m.played_cards.within_ranks(),
    {
        let remaining_cards = [
            CardTracker::from_hand(hands[0]),
            CardTracker::from_hand(hands[1]),
            CardTracker::from_hand(hands[2]),
            CardTracker::from_hand(hands[3]),
        ];
        let played_cards = CardTracker::for_n_cards_per_suit(13);
        proof {
            assert(played_cards@ =~= Set::<Card>::empty()) by {
                assert forall|c: Card| !played_cards@.contains(c) by {
                    assert(played_cards.field(c.suit)@ == Set::new(|i: int| 0 <= i < 0));
                }
            }
        }
        CardManager { remaining_cards, played_cards }
    }

    /// The seat plays the card: it leaves the seat's cards and joins the played cards.
    pub fn play(&mut self, card: Card, player: PlayerPosition)
        ensures
            plays(*old(self), *final(self), card, player),
            final(self).remaining_cards@[player.rank() as int]@ == old(
                self,
            ).remaining_cards@[player.rank() as int]@.remove(card),
            final(self).played_cards@ == old(self).played_cards@.insert(card),
    {
        let p = player.index() as usize;
        let mut t = self.remaining_cards[p];
        t.remove_card(card);
        self.remaining_cards[p] = t;
        self.played_cards.add_card(card);
    }

    /// The card the seat played is taken back: it returns to the seat's cards.
    pub fn unplay(&mut self, card: Card, player: PlayerPosition)
        ensures
            unplays(*old(self), *final(self), card, player),
            final(self).remaining_cards@[player.rank() as int]@ == old(
                self,
            ).remaining_cards@[player.rank() as int]@.insert(card),
            final(self).played_cards@ == old(self).played_cards@.remove(card),
    {
        self.played_cards.remove_card(card);
        let p = player.index() as usize;
        let mut t = self.remaining_cards[p];
        t.add_card(card);
        self.remaining_cards[p] = t;
    }

    /// The cards the seat still holds.
    pub fn remaining_cards_for_player(&self, player: PlayerPosition) -> (t: CardTracker)
        ensures
            t == self.remaining_cards@[player.rank() as int],
    {
        self.remaining_cards[player.index() as usize]
    }

    /// The cards the seat still holds, suit by suit from Clubs, each lowest first.
    pub fn remaining_cards_of(&self, player: PlayerPosition) -> (v: Vec<Card>)
        requires
            self.remaining_cards@[player.rank() as int].within_ranks(),
        ensures
            ({
                let t = self.remaining_cards@[player.rank() as int];
                v@ == cards_of(Suit::Clubs, ranks_from(t.field(Suit::Clubs).bits(), 0)) + cards_of(
                    Suit::Diamonds,
                    ranks_from(t.field(Suit::Diamonds).bits(), 0),
                ) + cards_of(Suit::Hearts, ranks_from(t.field(Suit::Hearts).bits(), 0)) + cards_of(
                    Suit::Spades,
                    ranks_from(t.field(Suit::Spades).bits(), 0),
                )
            }),
    {
        self.remaining_cards_for_player(player).all_cards()
    }

    /// The cards of a suit the seat still holds, lowest first.
    pub fn remaining_cards_of_player_in_suit(&self, player: PlayerPosition, suit: Suit) -> (v: Vec<
        Card,
    >)
        requires
            self.remaining_cards@[player.rank() as int].field(suit).bits() <= ALL_RANKS,
        ensures
            v@ == cards_of(
                suit,
                ranks_from(self.remaining_cards@[player.rank() as int].field(suit).bits(), 0),
            ),
    {
        self.remaining_cards_for_player(player).cards_in(suit)
    }

    /// Whether the seat's field of the suit, read as a number, exceeds the other seat's.
    pub fn has_higher_cards_in_suit_than_other(
        &self,
        player: PlayerPosition,
        suit: Suit,
        other: PlayerPosition,
    ) -> (b: bool)
        ensures
            b == (self.remaining_cards@[player.rank() as int].field(suit).bits()
                > self.remaining_cards@[other.rank() as int].field(suit).bits()),
    {
        self.remaining_cards_for_player(player).has_higher_cards_in_suit_than(
            suit,
            &self.remaining_cards_for_player(other),
        )
    }

    /// The cards played so far.
    pub fn played_cards(&self) -> (t: CardTracker)
        ensures
            t == self.played_cards,
    {
        self.played_cards
    }

    /// The number of cards of a suit the seat still holds.
    pub fn count_cards_in_suit_for_player(&self, suit: Suit, player: PlayerPosition) -> (n: usize)
        ensures
            n == ones(self.remaining_cards@[player.rank() as int].field(suit).bits(), 16),
    {
        self.remaining_cards_for_player(player).count_cards_in(suit)
    }
}

/// Setting a bit that was clear and clearing it again gives the word back; so does
/// clearing a bit that was set and setting it again.
proof fn lemma_set_clear_bit(v: u16, r: u16)
    requires
        r < 13,
    ensures
        !bit16(v, r) ==> (v | (1u16 << r)) & !(1u16 << r) == v,
        bit16(v, r) ==> (v & !(1u16 << r)) | (1u16 << r) == v,
{
    if !bit16(v, r) {
        assert forall|i: u16| i < 16 implies bit16((v | (1u16 << r)) & !(1u16 << r), i) == bit16(
            v,
            i,
        ) by {
            lemma_bit16_ops(v | (1u16 << r), !(1u16 << r), r, i);
            lemma_bit16_ops(v, 1u16 << r, r, i);
            lemma_bit16_ops(1u16 << r, 0, r, i);
        }
        lemma_bit16_ext((v | (1u16 << r)) & !(1u16 << r), v);
    }
    if bit16(v, r) {
        assert forall|i: u16| i < 16 implies bit16((v & !(1u16 << r)) | (1u16 << r), i) == bit16(
            v,
            i,
        ) by {
            lemma_bit16_ops(v & !(1u16 << r), 1u16 << r, r, i);
            lemma_bit16_ops(v, !(1u16 << r), r, i);
            lemma_bit16_ops(1u16 << r, 0, r, i);
        }
        lemma_bit16_ext((v & !(1u16 << r)) | (1u16 << r), v);
    }
}

/// Trackers with the same four fields are equal.
proof fn lemma_tracker_ext(a: CardTracker, b: CardTracker)
    requires
        forall|s: Suit| #[trigger] a.field(s) == b.field(s),
    ensures
        a == b,
{
    assert(a.field(Suit::Clubs) == b.field(Suit::Clubs));
    assert(a.field(Suit::Diamonds) == b.field(Suit::Diamonds));
    assert(a.field(Suit::Hearts) == b.field(Suit::Hearts));
    assert(a.field(Suit::Spades) == b.field(Suit::Spades));
    crate::dds::card_tracker::lemma_tracker_fields_ext(a, b);
}

/// Taking back the card a seat has just played restores the cards exactly as they were,
/// provided the seat held the card and it had not been played before.
pub proof fn lemma_unplay_undoes_play(
    m1: CardManager,
    m2: CardManager,
    m3: CardManager,
    card: Card,
    player: PlayerPosition,
)
    requires
        plays(m1, m2, card, player),
        unplays(m2, m3, card, player),
        m1.remaining_cards@[player.rank() as int]@.contains(card),
        !m1.played_cards@.contains(card),
    ensures
        m3 == m1,
{
    let p = player.rank() as int;
    let r = card.denomination.rank() as u16;
    lemma_set_clear_bit(m1.remaining_cards@[p].field(card.suit).bits(), r);
    lemma_set_clear_bit(m1.played_cards.field(card.suit).bits(), r);
    crate::dds::suit_field::lemma_field_ext(
        m3.remaining_cards@[p].field(card.suit),
        m1.remaining_cards@[p].field(card.suit),
    );
    crate::dds::suit_field::lemma_field_ext(
        m3.played_cards.field(card.suit),
        m1.played_cards.field(card.suit),
    );
    assert forall|s: Suit| #[trigger] m3.remaining_cards@[p].field(s) == m1.remaining_cards@[p].field(s) by {
        if s != card.suit {
            assert(m2.remaining_cards@[p].field(s) == m1.remaining_cards@[p].field(s));
        }
    }
    lemma_tracker_ext(m3.remaining_cards@[p], m1.remaining_cards@[p]);
    assert forall|s: Suit| #[trigger] m3.played_cards.field(s) == m1.played_cards.field(s) by {
        if s != card.suit {
            assert(m2.played_cards.field(s) == m1.played_cards.field(s));
        }
    }
    lemma_tracker_ext(m3.played_cards, m1.played_cards);
    assert forall|q: int| 0 <= q < 4 implies m3.remaining_cards@[q] == m1.remaining_cards@[q] by {
        if q != p {
            assert(m2.remaining_cards@[q] == m1.remaining_cards@[q]);
        }
    }
    assert(m3.remaining_cards@ =~= m1.remaining_cards@);
    vstd::array::axiom_array_ext_equal(m3.remaining_cards, m1.remaining_cards);
}

} // verus!
