//! A deal in play: the tricks played so far and the cards each seat still holds.
use crate::card::{Card, Suit};
use crate::dds::bits::bit16;
use crate::dds::card_manager::{plays, unplays, CardManager};
use crate::dds::card_tracker::CardTracker;
use crate::dds::suit_field::{lemma_ones_clear, lemma_ones_set, ones};
use crate::dds::trick_manager::TrickManager;
use crate::deal::PlayerPosition;
use vstd::prelude::*;

verus! {

/// The number of cards held.
pub open spec fn hand_size(t: CardTracker) -> nat {
    ones(t.field(Suit::Clubs).bits(), 16) + ones(t.field(Suit::Diamonds).bits(), 16) + ones(
        t.field(Suit::Hearts).bits(),
        16,
    ) + ones(t.field(Suit::Spades).bits(), 16)
}

/// How many places after the leader a seat plays to a trick.
pub open spec fn seat_offset(p: PlayerPosition, leader: PlayerPosition) -> int {
    (p.rank() - leader.rank() + 4) % 4
}

/// A tracker holds a card exactly when the card's bit is set in its suit.
pub proof fn lemma_holds_bit(t: CardTracker, c: Card)
    ensures
        t@.contains(c) == bit16(t.field(c.suit).bits(), c.denomination.rank() as u16),
{
}

/// The cards of a suit in a tracker whose rank is below `n`.
spec fn suit_part(t: CardTracker, s: Suit, n: int) -> Set<Card> {
    Set::new(
        |c: Card|
            c.suit == s && c.denomination.rank() < n && bit16(
                t.field(s).bits(),
                c.denomination.rank() as u16,
            ),
    )
}

/// There are as many cards of a suit below rank `n` as set bits below `n`.
proof fn lemma_suit_part_len(t: CardTracker, s: Suit, n: int)
    requires
        0 <= n <= 13,
    ensures
        suit_part(t, s, n).finite(),
        suit_part(t, s, n).len() == ones(t.field(s).bits(), n),
    decreases n,
{
    if n == 0 {
        assert(suit_part(t, s, 0) =~= Set::<Card>::empty());
    } else {
        lemma_suit_part_len(t, s, n - 1);
        let prev = suit_part(t, s, n - 1);
        let c = Card { suit: s, denomination: crate::card::Denomination::of_rank((n - 1) as u8) };
        crate::card::lemma_denomination_rank_bijection(c.denomination, (n - 1) as u8);
        assert forall|d: Card| suit_part(t, s, n).contains(d) && d.denomination.rank() == n - 1
            implies d == c by {
            crate::card::lemma_denomination_rank_bijection(d.denomination, 0);
        }
        if bit16(t.field(s).bits(), (n - 1) as u16) {
            assert(suit_part(t, s, n) =~= prev.insert(c));
            vstd::set::axiom_set_insert_finite(prev, c);
            vstd::set::axiom_set_insert_len(prev, c);
        } else {
            assert(suit_part(t, s, n) =~= prev);
        }
    }
}

/// There are as many cards of a suit as set bits in its field.
proof fn lemma_suit_part_all(t: CardTracker, s: Suit)
    requires
        t.within_ranks(),
    ensures
        suit_part(t, s, 13).finite(),
        suit_part(t, s, 13).len() == ones(t.field(s).bits(), 16),
{
    lemma_suit_part_len(t, s, 13);
    let v = t.field(s).bits();
    assert(v <= crate::dds::suit_field::ALL_RANKS);
    assert(v <= 0x1fffu16 ==> (v >> 13u16) & 1u16 != 1u16 && (v >> 14u16) & 1u16 != 1u16 && (v
        >> 15u16) & 1u16 != 1u16) by (bit_vector);
    assert(ones(v, 14) == ones(v, 13));
    assert(ones(v, 15) == ones(v, 13));
    assert(ones(v, 16) == ones(v, 13));
}

/// The cards a tracker holds are as many as its set bits.
pub proof fn lemma_hand_size_is_len(t: CardTracker)
    requires
        t.within_ranks(),
    ensures
        t@.finite(),
        t@.len() == hand_size(t),
{
    let parts = seq![
        suit_part(t, Suit::Clubs, 13),
        suit_part(t, Suit::Diamonds, 13),
        suit_part(t, Suit::Hearts, 13),
        suit_part(t, Suit::Spades, 13),
    ];
    lemma_suit_part_all(t, Suit::Clubs);
    lemma_suit_part_all(t, Suit::Diamonds);
    lemma_suit_part_all(t, Suit::Hearts);
    lemma_suit_part_all(t, Suit::Spades);
    let a = parts[0] + parts[1];
    let b = a + parts[2];
    let all = b + parts[3];
    vstd::set_lib::lemma_set_disjoint_lens(parts[0], parts[1]);
    vstd::set_lib::lemma_set_disjoint_lens(a, parts[2]);
    vstd::set_lib::lemma_set_disjoint_lens(b, parts[3]);
    assert(all =~= t@) by {
        assert forall|c: Card| all.contains(c) == t@.contains(c) by {
            crate::card::lemma_denomination_rank_bijection(c.denomination, 0);
        }
    }
}

/// The cards listed for a suit of a tracker are the tracker's cards of that suit.
pub proof fn lemma_suit_cards_listed(t: CardTracker, s: Suit)
    requires
        t.within_ranks(),
    ensures
        forall|c: Card|
            crate::dds::card_tracker::cards_of(
                s,
                crate::dds::suit_field::ranks_from(t.field(s).bits(), 0),
            ).contains(c) <==> c.suit == s && t@.contains(c),
{
    let ranks = crate::dds::suit_field::ranks_from(t.field(s).bits(), 0);
    let listed = crate::dds::card_tracker::cards_of(s, ranks);
    assert forall|c: Card| listed.contains(c) <==> c.suit == s && t@.contains(c) by {
        crate::card::lemma_denomination_rank_bijection(c.denomination, 0);
        lemma_holds_bit(t, c);
        if listed.contains(c) {
            let i = choose|i: int| 0 <= i < listed.len() && listed[i] == c;
            assert(ranks[i] == c.denomination);
            assert(ranks.contains(c.denomination));
            crate::dds::virtual_state::lemma_ranks_from_member(t.field(s).bits(), 0, c.denomination);
        }
        if c.suit == s && t@.contains(c) {
            crate::dds::virtual_state::lemma_ranks_from_contains(
                t.field(s).bits(),
                0,
                c.denomination.rank() as int,
            );
            let i = choose|i: int| 0 <= i < ranks.len() && ranks[i] == c.denomination;
            assert(listed[i] == c);
        }
    }
}

/// All the cards listed for a tracker, suit by suit, are the tracker's cards.
pub proof fn lemma_all_cards_listed(t: CardTracker)
    requires
        t.within_ranks(),
    ensures
        forall|c: Card|
            (crate::dds::card_tracker::cards_of(
                Suit::Clubs,
                crate::dds::suit_field::ranks_from(t.field(Suit::Clubs).bits(), 0),
            ) + crate::dds::card_tracker::cards_of(
                Suit::Diamonds,
                crate::dds::suit_field::ranks_from(t.field(Suit::Diamonds).bits(), 0),
            ) + crate::dds::card_tracker::cards_of(
                Suit::Hearts,
                crate::dds::suit_field::ranks_from(t.field(Suit::Hearts).bits(), 0),
            ) + crate::dds::card_tracker::cards_of(
                Suit::Spades,
                crate::dds::suit_field::ranks_from(t.field(Suit::Spades).bits(), 0),
            )).contains(c) <==> t@.contains(c),
{
    lemma_suit_cards_listed(t, Suit::Clubs);
    lemma_suit_cards_listed(t, Suit::Diamonds);
    lemma_suit_cards_listed(t, Suit::Hearts);
    lemma_suit_cards_listed(t, Suit::Spades);
    let a = crate::dds::card_tracker::cards_of(
        Suit::Clubs,
        crate::dds::suit_field::ranks_from(t.field(Suit::Clubs).bits(), 0),
    );
    let b = crate::dds::card_tracker::cards_of(
        Suit::Diamonds,
        crate::dds::suit_field::ranks_from(t.field(Suit::Diamonds).bits(), 0),
    );
    let h = crate::dds::card_tracker::cards_of(
        Suit::Hearts,
        crate::dds::suit_field::ranks_from(t.field(Suit::Hearts).bits(), 0),
    );
    let sp = crate::dds::card_tracker::cards_of(
        Suit::Spades,
        crate::dds::suit_field::ranks_from(t.field(Suit::Spades).bits(), 0),
    );
    assert forall|c: Card| (a + b + h + sp).contains(c) <==> t@.contains(c) by {
        vstd::seq_lib::lemma_seq_concat_contains_all_elements(a, b, c);
        vstd::seq_lib::lemma_seq_concat_contains_all_elements(a + b, h, c);
        vstd::seq_lib::lemma_seq_concat_contains_all_elements(a + b + h, sp, c);
        crate::card::lemma_suit_rank_bijection(c.suit, 0);
    }
}

/// Playing a card the seat holds leaves it one card fewer.
pub proof fn lemma_size_after_removal(before: CardTracker, after: CardTracker, card: Card)
    requires
        before@.contains(card),
        after.field(card.suit).bits() == before.field(card.suit).bits() & !(1u16
            << card.denomination.rank() as u16),
        forall|s: Suit| s != card.suit ==> #[trigger] after.field(s) == before.field(s),
    ensures
        hand_size(after) + 1 == hand_size(before),
        forall|s: Suit| #[trigger] ones(after.field(s).bits(), 16) + (if s == card.suit {
            1nat
        } else {
            0
        }) == ones(before.field(s).bits(), 16),
{
    lemma_ones_clear(
        before.field(card.suit).bits(),
        card.denomination.rank() as u16,
        16,
    );
    assert(after.field(Suit::Clubs) == before.field(Suit::Clubs) || card.suit == Suit::Clubs);
    assert(after.field(Suit::Diamonds) == before.field(Suit::Diamonds) || card.suit
        == Suit::Diamonds);
    assert(after.field(Suit::Hearts) == before.field(Suit::Hearts) || card.suit == Suit::Hearts);
    assert(after.field(Suit::Spades) == before.field(Suit::Spades) || card.suit == Suit::Spades);
}

/// Taking back a card the seat does not hold gives it one card more.
pub proof fn lemma_size_after_addition(before: CardTracker, after: CardTracker, card: Card)
    requires
        !before@.contains(card),
        after.field(card.suit).bits() == before.field(card.suit).bits() | (1u16
            << card.denomination.rank() as u16),
        forall|s: Suit| s != card.suit ==> #[trigger] after.field(s) == before.field(s),
    ensures
        hand_size(after) == hand_size(before) + 1,
        forall|s: Suit| #[trigger] ones(after.field(s).bits(), 16) == ones(before.field(s).bits(), 16)
            + (if s == card.suit {
            1nat
        } else {
            0
        }),
{
    lemma_ones_set(before.field(card.suit).bits(), card.denomination.rank() as u16, 16);
    assert(after.field(Suit::Clubs) == before.field(Suit::Clubs) || card.suit == Suit::Clubs);
    assert(after.field(Suit::Diamonds) == before.field(Suit::Diamonds) || card.suit
        == Suit::Diamonds);
    assert(after.field(Suit::Hearts) == before.field(Suit::Hearts) || card.suit == Suit::Hearts);
    assert(after.field(Suit::Spades) == before.field(Suit::Spades) || card.suit == Suit::Spades);
}

/// The tricks played and the cards still held by each seat (North, East, South, West).
pub struct DoubleDummyState {
    trick_manager: TrickManager,
    card_manager: CardManager,
}

impl DoubleDummyState {
    /// The tricks played.
    pub closed spec fn tricks(self) -> TrickManager {
        self.trick_manager
    }

    /// The cards held and played.
    pub closed spec fn cards(self) -> CardManager {
        self.card_manager
    }

    /// The cards a seat still holds.
    pub open spec fn hand(self, p: PlayerPosition) -> CardTracker {
        self.cards().remaining_cards@[p.rank() as int]
    }

    /// The cards played, in order.
    pub open spec fn played(self) -> Seq<Card> {
        self.tricks().played()
    }

    /// The trick record is consistent; no card is held twice or both held and played; no card
    /// is played twice; and each seat holds one card per trick left, less the one it has
    /// played to the current trick.
    pub open spec fn wf(self) -> bool {
        &&& self.tricks().wf()
        &&& self.cards().played_cards.within_ranks()
        &&& forall|p: PlayerPosition| #[trigger] self.hand(p).within_ranks()
        &&& forall|p: PlayerPosition, q: PlayerPosition, c: Card|
            #![trigger self.hand(p)@.contains(c), self.hand(q)@.contains(c)]
            self.hand(p)@.contains(c) && self.hand(q)@.contains(c) ==> p == q
        &&& forall|p: PlayerPosition, k: int|
            0 <= k < self.played().len() ==> !(#[trigger] self.hand(p)@.contains(
                self.played()[k],
            ))
        &&& forall|i: int, j: int|
            0 <= i < j < self.played().len() ==> #[trigger] self.played()[i]
                != #[trigger] self.played()[j]
        &&& forall|c: Card| #[trigger]
            self.cards().played_cards@.contains(c) == self.played().contains(c)
        &&& forall|p: PlayerPosition| #[trigger]
            hand_size(self.hand(p)) + (if seat_offset(p, self.tricks().leader())
                < self.tricks().in_trick() {
                1int
            } else {
                0
            }) == self.tricks().left()
    }

    /// The state before any card is played: each seat holds its hand of `n_tricks` cards.
    pub fn new(
        hands: [CardTracker; 4],
        opening_leader: PlayerPosition,
        trumps: Option<Suit>,
        n_tricks: usize,
    ) -> (s: Self)
        requires
            1 <= n_tricks <= 13,
            forall|i: int| 0 <= i < 4 ==> (#[trigger] hands@[i]).within_ranks(),
            forall|i: int| 0 <= i < 4 ==> hand_size(#[trigger] hands@[i]) == n_tricks,
            forall|i: int, j: int, c: Card|
                #![trigger hands@[i]@.contains(c), hands@[j]@.contains(c)]
                0 <= i < 4 && 0 <= j < 4 && hands@[i]@.contains(c) && hands@[j]@.contains(c) ==> i
                    == j,
        ensures
            s.wf(),
            s.played() == Seq::<Card>::empty(),
            s.tricks().opening() == opening_leader,
            s.tricks().trump() == trumps,
            s.tricks().total() == n_tricks,
            s.cards().remaining_cards == hands,
    {
        let played_cards = CardTracker::empty();
        let s = DoubleDummyState {
            trick_manager: TrickManager::new(opening_leader, trumps, n_tricks),
            card_manager: CardManager { remaining_cards: hands, played_cards },
        };
        proof {
            assert(s.tricks().completed() == 0);
            assert(s.tricks().in_trick() == 0);
            assert forall|p: PlayerPosition, q: PlayerPosition, c: Card|
                s.hand(p)@.contains(c) && s.hand(q)@.contains(c) implies p == q by {
                assert(hands@[p.rank() as int]@.contains(c));
                assert(hands@[q.rank() as int]@.contains(c));
            }
            assert forall|p: PlayerPosition| #[trigger] s.hand(p).within_ranks() by {
                assert(hands@[p.rank() as int].within_ranks());
            }
            assert forall|p: PlayerPosition| #[trigger]
                hand_size(s.hand(p)) + (if seat_offset(p, s.tricks().leader())
                    < s.tricks().in_trick() {
                    1int
                } else {
                    0
                }) == s.tricks().left() by {
                assert(hand_size(hands@[p.rank() as int]) == n_tricks);
            }
            assert forall|s2: Suit| #[trigger] played_cards.field(s2).bits() <= 0x1fffu16 by {}
        }
        s
    }

    /// The cards a seat still holds.
    pub fn cards_of(&self, player: PlayerPosition) -> (t: &CardTracker)
        ensures
            *t == self.hand(player),
    {
        &self.card_manager.remaining_cards[player.index() as usize]
    }

    /// The cards played so far, as a set.
    pub fn played_cards(&self) -> (t: CardTracker)
        ensures
            t == self.cards().played_cards,
    {
        self.card_manager.played_cards
    }

    /// The tricks played.
    pub fn trick_manager(&self) -> (t: &TrickManager)
        ensures
            *t == self.tricks(),
    {
        &self.trick_manager
    }

    /// The seat to play next.
    pub fn next_to_play(&self) -> (p: PlayerPosition)
        requires
            self.wf(),
        ensures
            p == self.tricks().next(),
    {
        self.trick_manager.next_to_play()
    }

    /// Whether the seat to play leads to a new trick.
    pub fn player_is_leading(&self) -> (b: bool)
        ensures
            b == (self.tricks().in_trick() == 0),
    {
        self.trick_manager.player_is_leading()
    }

    /// The number of cards in a suit held by a seat.
    pub fn count_cards_in_suit_for_player(&self, suit: Suit, player: PlayerPosition) -> (n: usize)
        ensures
            n == ones(self.hand(player).field(suit).bits(), 16),
    {
        self.card_manager.count_cards_in_suit_for_player(suit, player)
    }

    /// Whether a seat holds no card of a suit.
    pub fn player_is_void_in(&self, suit: Suit, player: PlayerPosition) -> (b: bool)
        ensures
            b == (ones(self.hand(player).field(suit).bits(), 16) == 0),
    {
        self.count_cards_in_suit_for_player(suit, player) == 0
    }

    /// Whether a seat holds exactly one card of a suit.
    pub fn player_has_singleton_in(&self, suit: Suit, player: PlayerPosition) -> (b: bool)
        ensures
            b == (ones(self.hand(player).field(suit).bits(), 16) == 1),
    {
        self.count_cards_in_suit_for_player(suit, player) == 1
    }

    /// Whether a seat holds exactly two cards of a suit.
    pub fn player_has_doubleton_in(&self, suit: Suit, player: PlayerPosition) -> (b: bool)
        ensures
            b == (ones(self.hand(player).field(suit).bits(), 16) == 2),
    {
        self.count_cards_in_suit_for_player(suit, player) == 2
    }

    /// Whether a seat's field of a suit, read as a number, exceeds another seat's.
    pub fn player_has_higher_cards_in_suit_than_other(
        &self,
        player: PlayerPosition,
        suit: Suit,
        other: PlayerPosition,
    ) -> (b: bool)
        ensures
            b == (self.hand(player).field(suit).bits() > self.hand(other).field(suit).bits()),
    {
        self.card_manager.has_higher_cards_in_suit_than_other(player, suit, other)
    }

    /// Whether the leader's partner has, in a suit, a higher field than both opponents.
    pub fn partner_has_higher_cards_than_opponents(&self, suit: Suit, leader: PlayerPosition) -> (b:
        bool)
        ensures
            b == (self.hand(leader.turned(2)).field(suit).bits() > self.hand(
                leader.turned(1),
            ).field(suit).bits() && self.hand(leader.turned(2)).field(suit).bits() > self.hand(
                leader.turned(3),
            ).field(suit).bits()),
    {
        self.player_has_higher_cards_in_suit_than_other(leader.after(2), suit, leader.after(1))
            && self.player_has_higher_cards_in_suit_than_other(leader.after(2), suit, leader.after(3))
    }

    /// The cards a seat holds, Clubs first, each suit lowest first.
    pub fn remaining_cards_of(&self, player: PlayerPosition) -> (v: Vec<Card>)
        requires
            self.wf(),
        ensures
            v@ == crate::dds::card_tracker::cards_of(
                Suit::Clubs,
                crate::dds::suit_field::ranks_from(self.hand(player).field(Suit::Clubs).bits(), 0),
            ) + crate::dds::card_tracker::cards_of(
                Suit::Diamonds,
                crate::dds::suit_field::ranks_from(self.hand(player).field(Suit::Diamonds).bits(), 0),
            ) + crate::dds::card_tracker::cards_of(
                Suit::Hearts,
                crate::dds::suit_field::ranks_from(self.hand(player).field(Suit::Hearts).bits(), 0),
            ) + crate::dds::card_tracker::cards_of(
                Suit::Spades,
                crate::dds::suit_field::ranks_from(self.hand(player).field(Suit::Spades).bits(), 0),
            ),
    {
        proof {
            assert(self.hand(player).within_ranks());
        }
        self.card_manager.remaining_cards_of(player)
    }

    /// The cards of a suit a seat holds, lowest first.
    pub fn remaining_cards_of_player_in_suit(&self, player: PlayerPosition, suit: Suit) -> (v: Vec<
        Card,
    >)
        requires
            self.wf(),
        ensures
            v@ == crate::dds::card_tracker::cards_of(
                suit,
                crate::dds::suit_field::ranks_from(self.hand(player).field(suit).bits(), 0),
            ),
    {
        proof {
            assert(self.hand(player).within_ranks());
        }
        self.card_manager.remaining_cards_of_player_in_suit(player, suit)
    }

    /// The seat winning the current trick so far.
    pub fn current_trick_winner(&self) -> (p: PlayerPosition)
        requires
            self.wf(),
        ensures
            p == self.tricks().leader().turned(
                crate::dds::trick_manager::winning_index(
                    self.tricks().current_trick(),
                    self.tricks().trump(),
                ),
            ),
    {
        self.trick_manager.current_trick_winner()
    }

    /// The card winning the current trick so far, if a card has been played to it.
    pub fn currently_winning_card(&self) -> (c: Option<Card>)
        requires
            self.wf(),
        ensures
            c == if self.tricks().in_trick() == 0 {
                None::<Card>
            } else {
                Some(
                    self.tricks().current_trick()[crate::dds::trick_manager::winning_index(
                        self.tricks().current_trick(),
                        self.tricks().trump(),
                    )],
                )
            },
    {
        self.trick_manager.currently_winning_card()
    }

    /// Whether the card would beat the card winning the current trick; any card wins a trick it
    /// leads.
    pub fn would_win_over_current_winner(&self, card: &Card) -> (b: bool)
        requires
            self.wf(),
        ensures
            b == if self.tricks().in_trick() == 0 {
                true
            } else {
                crate::dds::trick_manager::card_beats(
                    *card,
                    self.tricks().current_trick()[crate::dds::trick_manager::winning_index(
                        self.tricks().current_trick(),
                        self.tricks().trump(),
                    )],
                    self.tricks().trump(),
                )
            },
    {
        self.trick_manager.would_win_over_current_winner(card)
    }

    /// The trumps a seat holds; none at no trumps.
    pub fn count_trump_cards_for_player(&self, player: PlayerPosition) -> (n: usize)
        ensures
            n == match self.tricks().trump() {
                Some(t) => ones(self.hand(player).field(t).bits(), 16) as int,
                None => 0,
            },
    {
        match self.trick_manager.trump_suit() {
            None => 0,
            Some(trump_suit) => self.card_manager.count_cards_in_suit_for_player(trump_suit, player),
        }
    }

    /// The trumps a seat and its partner hold.
    pub fn count_trump_cards_for_axis(&self, player: PlayerPosition) -> (n: usize)
        ensures
            n == match self.tricks().trump() {
                Some(t) => ones(self.hand(player).field(t).bits(), 16) + ones(
                    self.hand(player.turned(2)).field(t).bits(),
                    16,
                ),
                None => 0,
            },
    {
        proof {
            if let Some(t) = self.tricks().trump() {
                crate::dds::virtual_card_tracker::lemma_ones_at_most(self.hand(player).field(t).bits(), 16);
                crate::dds::virtual_card_tracker::lemma_ones_at_most(
                    self.hand(player.turned(2)).field(t).bits(),
                    16,
                );
            }
        }
        self.count_trump_cards_for_player(player) + self.count_trump_cards_for_player(
            player.partner(),
        )
    }

    /// The suit led to the current trick, if a card has been led.
    pub fn suit_to_follow(&self) -> (s: Option<Suit>)
        requires
            self.wf(),
        ensures
            s == self.tricks().lead_suit(),
    {
        self.trick_manager.suit_to_follow()
    }

    /// The trumps held by the side to play.
    pub fn count_this_sides_trump_cards(&self) -> (n: usize)
        requires
            self.wf(),
        ensures
            n == match self.tricks().trump() {
                Some(t) => ones(self.hand(self.tricks().next()).field(t).bits(), 16) + ones(
                    self.hand(self.tricks().next().turned(2)).field(t).bits(),
                    16,
                ),
                None => 0,
            },
    {
        self.count_trump_cards_for_axis(self.next_to_play())
    }

    /// The trumps held by the side not to play.
    pub fn count_opponents_trump_cards(&self) -> (n: usize)
        requires
            self.wf(),
        ensures
            n == match self.tricks().trump() {
                Some(t) => ones(self.hand(self.tricks().next().turned(1)).field(t).bits(), 16)
                    + ones(self.hand(self.tricks().next().turned(1).turned(2)).field(t).bits(), 16),
                None => 0,
            },
    {
        self.count_trump_cards_for_axis(self.next_to_play().after(1))
    }

    /// The cards of the finished tricks, in the order played.
    pub fn out_of_play_cards(&self) -> (v: Vec<Card>)
        requires
            self.wf(),
        ensures
            v@ == self.played().subrange(0, 4 * self.tricks().completed()),
    {
        let n = 4 * (self.trick_manager.count_played_cards() / 4);
        let mut v: Vec<Card> = Vec::new();
        let mut k: usize = 0;
        while k < n
            invariant
                n == 4 * self.tricks().completed(),
                n <= self.played().len(),
                0 <= k <= n,
                v@ == self.played().subrange(0, k as int),
            decreases n - k,
        {
            v.push(self.trick_manager.card_at(k));
            proof {
                assert(v@ =~= self.played().subrange(0, k + 1));
            }
            k = k + 1;
        }
        v
    }

    /// The cards played so far, in order.
    pub fn list_played_cards(&self) -> (v: Vec<Card>)
        ensures
            v@ == self.played(),
    {
        let n = self.trick_manager.count_played_cards();
        let mut v: Vec<Card> = Vec::new();
        let mut k: usize = 0;
        while k < n
            invariant
                n == self.played().len(),
                0 <= k <= n,
                v@ == self.played().subrange(0, k as int),
            decreases n - k,
        {
            v.push(self.trick_manager.card_at(k));
            proof {
                assert(v@ =~= self.played().subrange(0, k + 1));
            }
            k = k + 1;
        }
        proof {
            assert(v@ =~= self.played());
        }
        v
    }

    /// The number of cards played so far.
    pub fn count_played_cards(&self) -> (n: usize)
        ensures
            n == self.played().len(),
    {
        self.trick_manager.count_played_cards()
    }

    /// The number of cards played to the current trick.
    pub fn count_cards_in_current_trick(&self) -> (n: usize)
        ensures
            n == self.tricks().in_trick(),
    {
        self.trick_manager.count_cards_in_current_trick()
    }

    /// The tricks not yet finished.
    pub fn tricks_left(&self) -> (n: usize)
        requires
            self.wf(),
        ensures
            n == self.tricks().left(),
    {
        self.trick_manager.tricks_left()
    }

    /// Whether the current trick is the last one.
    pub fn is_last_trick(&self) -> (b: bool)
        requires
            self.wf(),
        ensures
            b == (self.tricks().left() == 1),
    {
        self.trick_manager.tricks_left() == 1
    }

    /// The tricks the side of a seat has won.
    pub fn tricks_won_by_axis(&self, player: PlayerPosition) -> (n: usize)
        requires
            self.wf(),
        ensures
            n == self.tricks().won_by(player),
    {
        self.trick_manager.tricks_won_by_axis(player)
    }

    /// The winner of the last finished trick, if any.
    pub fn last_trick_winner(&self) -> (p: Option<PlayerPosition>)
        requires
            self.wf(),
        ensures
            p == if self.tricks().completed() == 0 {
                None::<PlayerPosition>
            } else {
                Some(self.tricks().leader())
            },
    {
        self.trick_manager.last_trick_winner()
    }

    /// The trump suit, if any.
    pub fn trump_suit(&self) -> (t: Option<Suit>)
        ensures
            t == self.tricks().trump(),
    {
        self.trick_manager.trump_suit()
    }

    /// The cards a seat may play: of the suit led if it holds any, else all its cards.
    pub fn valid_moves_for(&self, player: PlayerPosition) -> (v: Vec<Card>)
        requires
            self.wf(),
        ensures
            forall|c: Card|
                v@.contains(c) <==> self.hand(player)@.contains(c) && match self.tricks().lead_suit() {
                    Some(l) => c.suit == l || ones(self.hand(player).field(l).bits(), 16) == 0,
                    None => true,
                },
    {
        let cards = self.cards_of(player);
        proof {
            assert(cards.within_ranks());
        }
        proof {
            lemma_all_cards_listed(*cards);
        }
        match self.suit_to_follow() {
            Some(lead) => {
                if cards.count_cards_in(lead) == 0 {
                    cards.all_cards()
                } else {
                    proof {
                        lemma_suit_cards_listed(*cards, lead);
                    }
                    cards.cards_in(lead)
                }
            },
            None => cards.all_cards(),
        }
    }

    /// The cards the seat to play may play.
    pub fn valid_moves(&self) -> (v: Vec<Card>)
        requires
            self.wf(),
        ensures
            forall|c: Card|
                v@.contains(c) <==> self.hand(self.tricks().next())@.contains(c) && match self.tricks().lead_suit() {
                    Some(l) => c.suit == l || ones(self.hand(self.tricks().next()).field(l).bits(), 16) == 0,
                    None => true,
                },
    {
        self.valid_moves_for(self.next_to_play())
    }

    /// Plays a card of the seat to play.
    pub fn play(&mut self, card: Card)
        requires
            old(self).wf(),
            old(self).tricks().left() >= 1,
            old(self).hand(old(self).tricks().next())@.contains(card),
        ensures
            final(self).wf(),
            final(self).played() == old(self).played().push(card),
            final(self).tricks().opening() == old(self).tricks().opening(),
            final(self).tricks().trump() == old(self).tricks().trump(),
            final(self).tricks().total() == old(self).tricks().total(),
            plays(old(self).cards(), final(self).cards(), card, old(self).tricks().next()),
    {
        let ghost old_state = *self;
        let player = self.trick_manager.next_to_play();
        proof {
            assert(old_state.tricks().played().len() < 4 * old_state.tricks().total());
        }
        self.card_manager.play(card, player);
        self.trick_manager.play(card);
        proof {
            self.lemma_play_keeps_wf(old_state, card, player);
        }
    }

    #[verifier::spinoff_prover]
    proof fn lemma_play_keeps_wf(self, old_state: Self, card: Card, player: PlayerPosition)
        requires
            old_state.wf(),
            old_state.tricks().left() >= 1,
            player == old_state.tricks().next(),
            old_state.hand(player)@.contains(card),
            self.tricks().wf(),
            self.played() == old_state.played().push(card),
            self.tricks().opening() == old_state.tricks().opening(),
            self.tricks().trump() == old_state.tricks().trump(),
            self.tricks().total() == old_state.tricks().total(),
            plays(old_state.cards(), self.cards(), card, player),
            self.cards().remaining_cards@[player.rank() as int]@ == old_state.hand(
                player,
            )@.remove(card),
            self.cards().played_cards@ == old_state.cards().played_cards@.insert(card),
        ensures
            self.wf(),
    {
        let before = old_state.played();
        let after = self.played();
        let t0 = old_state.tricks();
        let t1 = self.tricks();
        assert(after.len() == before.len() + 1);
        assert(forall|k: int| 0 <= k < before.len() ==> after[k] == before[k]);
        assert(after[before.len() as int] == card);
        // within ranks
        assert forall|p: PlayerPosition| #[trigger] self.hand(p).within_ranks() by {
            if p != player {
                assert(self.hand(p) == old_state.hand(p));
            } else {
                assert(old_state.hand(p).within_ranks());
                assert forall|s: Suit| #[trigger] self.hand(p).field(s).bits() <= 0x1fffu16 by {
                    let v = old_state.hand(p).field(s).bits();
                    if s == card.suit {
                        let r = card.denomination.rank() as u16;
                        assert(v <= 0x1fffu16 ==> v & !(1u16 << r) <= 0x1fffu16) by (bit_vector);
                    }
                }
            }
        }
        assert(self.cards().played_cards.within_ranks()) by {
            assert(old_state.cards().played_cards.within_ranks());
            assert forall|s: Suit| #[trigger] self.cards().played_cards.field(s).bits()
                <= 0x1fffu16 by {
                let v = old_state.cards().played_cards.field(s).bits();
                if s == card.suit {
                    let r = card.denomination.rank() as u16;
                    assert(v <= 0x1fffu16 && r < 13 ==> v | (1u16 << r) <= 0x1fffu16)
                        by (bit_vector);
                }
            }
        }
        // hands stay disjoint
        assert forall|p: PlayerPosition, q: PlayerPosition, c: Card|
            self.hand(p)@.contains(c) && self.hand(q)@.contains(c) implies p == q by {
            if p != player {
                assert(self.hand(p) == old_state.hand(p));
            }
            if q != player {
                assert(self.hand(q) == old_state.hand(q));
            }
            assert(old_state.hand(p)@.contains(c) && old_state.hand(q)@.contains(c));
        }
        // the card played was held, so it was not played before and no other seat holds it
        assert forall|k: int| 0 <= k < before.len() implies before[k] != card by {
            assert(!old_state.hand(player)@.contains(before[k]));
        }
        assert forall|p: PlayerPosition, k: int|
            0 <= k < after.len() implies !(#[trigger] self.hand(p)@.contains(after[k])) by {
            if p != player {
                assert(self.hand(p) == old_state.hand(p));
                if k == before.len() {
                    if old_state.hand(p)@.contains(card) {
                        assert(old_state.hand(player)@.contains(card));
                    }
                } else {
                    assert(!old_state.hand(p)@.contains(before[k]));
                }
            } else if k < before.len() {
                assert(!old_state.hand(p)@.contains(before[k]));
            }
        }
        assert forall|i: int, j: int|
            0 <= i < j < after.len() implies #[trigger] after[i] != #[trigger] after[j] by {
            if j < before.len() {
                assert(before[i] != before[j]);
            }
        }
        assert forall|c: Card| #[trigger]
            self.cards().played_cards@.contains(c) == after.contains(c) by {
            if after.contains(c) {
                let k = choose|k: int| 0 <= k < after.len() && after[k] == c;
                if k < before.len() {
                    assert(before.contains(c));
                }
            }
            if before.contains(c) {
                let k = choose|k: int| 0 <= k < before.len() && before[k] == c;
                assert(after[k] == c);
            }
        }
        self.lemma_play_keeps_sizes(old_state, card, player);
    }

    #[verifier::spinoff_prover]
    proof fn lemma_play_keeps_sizes(self, old_state: Self, card: Card, player: PlayerPosition)
        requires
            old_state.tricks().wf(),
            forall|p: PlayerPosition| #[trigger]
                hand_size(old_state.hand(p)) + (if seat_offset(p, old_state.tricks().leader())
                    < old_state.tricks().in_trick() {
                    1int
                } else {
                    0
                }) == old_state.tricks().left(),
            old_state.tricks().left() >= 1,
            player == old_state.tricks().next(),
            old_state.hand(player)@.contains(card),
            self.tricks().wf(),
            self.played() == old_state.played().push(card),
            self.tricks().opening() == old_state.tricks().opening(),
            self.tricks().trump() == old_state.tricks().trump(),
            self.tricks().total() == old_state.tricks().total(),
            plays(old_state.cards(), self.cards(), card, player),
        ensures
            forall|p: PlayerPosition| #[trigger]
                hand_size(self.hand(p)) + (if seat_offset(p, self.tricks().leader())
                    < self.tricks().in_trick() {
                    1int
                } else {
                    0
                }) == self.tricks().left(),
    {
        let before = old_state.played();
        let after = self.played();
        let t0 = old_state.tricks();
        let t1 = self.tricks();
        let old_mine = old_state.hand(player);
        let new_mine = self.hand(player);
        lemma_size_after_removal(old_mine, new_mine, card);
        let leader0 = t0.leader();
        assert(seat_offset(player, leader0) == t0.in_trick());
        if t0.in_trick() < 3 {
            assert(t1.completed() == t0.completed());
            assert(t1.in_trick() == t0.in_trick() + 1);
            assert(t1.leader() == leader0) by {
                assert(after.subrange(0, 4 * t1.completed()) =~= before.subrange(0, 4 * t1.completed()));
                crate::dds::trick_manager::lemma_same_tricks(
                    t1.opening(),
                    t1.trump(),
                    after,
                    before,
                    t1.completed(),
                );
            }
        } else {
            assert(t1.completed() == t0.completed() + 1);
            assert(t1.in_trick() == 0);
        }
        assert forall|p: PlayerPosition| p != player implies #[trigger] self.hand(p) == old_state.hand(p) by {}
        lemma_sizes_after_play(
            |p: PlayerPosition| hand_size(old_state.hand(p)) as int,
            |p: PlayerPosition| hand_size(self.hand(p)) as int,
            leader0,
            t0.in_trick(),
            t0.left(),
            t1.leader(),
            t1.in_trick(),
            t1.left(),
            player,
        );
    }

    /// Takes back the last card played, if any: the seat that played it holds it again.
    pub fn undo(&mut self) -> (r: Option<Card>)
        requires
            old(self).wf(),
        ensures
            final(self).wf(),
            final(self).tricks().opening() == old(self).tricks().opening(),
            final(self).tricks().trump() == old(self).tricks().trump(),
            final(self).tricks().total() == old(self).tricks().total(),
            old(self).played().len() == 0 ==> r is None && final(self).played() == old(
                self,
            ).played() && final(self).cards() == old(self).cards(),
            old(self).played().len() > 0 ==> r == Some(old(self).played().last())
                && final(self).played() == old(self).played().drop_last() && unplays(
                old(self).cards(),
                final(self).cards(),
                old(self).played().last(),
                final(self).tricks().next(),
            ),
    {
        let ghost old_state = *self;
        let r = self.trick_manager.undo();
        match r {
            Some(card) => {
                let player = self.trick_manager.next_to_play();
                self.card_manager.unplay(card, player);
                proof {
                    self.lemma_undo_keeps_wf(old_state, card, player);
                }
            },
            None => {
                proof {
                    self.lemma_same_record_keeps_wf(old_state);
                }
            },
        }
        r
    }

    proof fn lemma_same_record_keeps_wf(self, old_state: Self)
        requires
            old_state.wf(),
            self.tricks().wf(),
            self.cards() == old_state.cards(),
            self.played() == old_state.played(),
            self.tricks().opening() == old_state.tricks().opening(),
            self.tricks().trump() == old_state.tricks().trump(),
            self.tricks().total() == old_state.tricks().total(),
        ensures
            self.wf(),
    {
        assert forall|p: PlayerPosition| #[trigger] self.hand(p) == old_state.hand(p) by {}
    }

    #[verifier::spinoff_prover]
    proof fn lemma_undo_keeps_wf(self, old_state: Self, card: Card, player: PlayerPosition)
        requires
            old_state.wf(),
            old_state.played().len() > 0,
            card == old_state.played().last(),
            self.tricks().wf(),
            self.played() == old_state.played().drop_last(),
            player == self.tricks().next(),
            self.tricks().opening() == old_state.tricks().opening(),
            self.tricks().trump() == old_state.tricks().trump(),
            self.tricks().total() == old_state.tricks().total(),
            unplays(old_state.cards(), self.cards(), card, player),
            self.cards().remaining_cards@[player.rank() as int]@ == old_state.hand(
                player,
            )@.insert(card),
            self.cards().played_cards@ == old_state.cards().played_cards@.remove(card),
        ensures
            self.wf(),
    {
        let before = old_state.played();
        let after = self.played();
        let t0 = old_state.tricks();
        let t1 = self.tricks();
        let n = before.len() - 1;
        assert(forall|k: int| 0 <= k < n ==> after[k] == before[k]);
        assert(before[n] == card);
        assert forall|p: PlayerPosition| !old_state.hand(p)@.contains(card) by {
            assert(!old_state.hand(p)@.contains(before[n]));
        }
        assert forall|p: PlayerPosition| #[trigger] self.hand(p).within_ranks() by {
            if p != player {
                assert(self.hand(p) == old_state.hand(p));
            } else {
                assert(old_state.hand(p).within_ranks());
                assert forall|s: Suit| #[trigger] self.hand(p).field(s).bits() <= 0x1fffu16 by {
                    let v = old_state.hand(p).field(s).bits();
                    if s == card.suit {
                        let r = card.denomination.rank() as u16;
                        assert(v <= 0x1fffu16 && r < 13 ==> v | (1u16 << r) <= 0x1fffu16)
                            by (bit_vector);
                    }
                }
            }
        }
        assert(self.cards().played_cards.within_ranks()) by {
            assert(old_state.cards().played_cards.within_ranks());
            assert forall|s: Suit| #[trigger] self.cards().played_cards.field(s).bits()
                <= 0x1fffu16 by {
                let v = old_state.cards().played_cards.field(s).bits();
                if s == card.suit {
                    let r = card.denomination.rank() as u16;
                    assert(v <= 0x1fffu16 ==> v & !(1u16 << r) <= 0x1fffu16) by (bit_vector);
                }
            }
        }
        assert forall|p: PlayerPosition, q: PlayerPosition, c: Card|
            self.hand(p)@.contains(c) && self.hand(q)@.contains(c) implies p == q by {
            if p != player {
                assert(self.hand(p) == old_state.hand(p));
            }
            if q != player {
                assert(self.hand(q) == old_state.hand(q));
            }
            if c != card {
                assert(old_state.hand(p)@.contains(c) && old_state.hand(q)@.contains(c));
            }
        }
        assert forall|p: PlayerPosition, k: int|
            0 <= k < after.len() implies !(#[trigger] self.hand(p)@.contains(after[k])) by {
            assert(!old_state.hand(p)@.contains(before[k]));
            assert(before[k] != before[n]);
            if p != player {
                assert(self.hand(p) == old_state.hand(p));
            }
        }
        assert forall|i: int, j: int|
            0 <= i < j < after.len() implies #[trigger] after[i] != #[trigger] after[j] by {
            assert(before[i] != before[j]);
        }
        assert forall|c: Card| #[trigger]
            self.cards().played_cards@.contains(c) == after.contains(c) by {
            if after.contains(c) {
                let k = choose|k: int| 0 <= k < after.len() && after[k] == c;
                assert(before[k] == c);
                assert(before.contains(c));
                assert(before[k] != before[n]);
            }
            if before.contains(c) && c != card {
                let k = choose|k: int| 0 <= k < before.len() && before[k] == c;
                assert(k != n);
                assert(after[k] == c);
            }
        }
        self.lemma_undo_keeps_sizes(old_state, card, player);
    }

    #[verifier::spinoff_prover]
    #[verifier::rlimit(50)]
    proof fn lemma_undo_keeps_sizes(self, old_state: Self, card: Card, player: PlayerPosition)
        requires
            old_state.tricks().wf(),
            forall|p: PlayerPosition| #[trigger]
                hand_size(old_state.hand(p)) + (if seat_offset(p, old_state.tricks().leader())
                    < old_state.tricks().in_trick() {
                    1int
                } else {
                    0
                }) == old_state.tricks().left(),
            old_state.played().len() > 0,
            card == old_state.played().last(),
            self.tricks().wf(),
            self.played() == old_state.played().drop_last(),
            player == self.tricks().next(),
            self.tricks().opening() == old_state.tricks().opening(),
            self.tricks().trump() == old_state.tricks().trump(),
            self.tricks().total() == old_state.tricks().total(),
            unplays(old_state.cards(), self.cards(), card, player),
            self.cards().remaining_cards@[player.rank() as int]@ == old_state.hand(
                player,
            )@.insert(card),
            !old_state.hand(player)@.contains(card),
        ensures
            forall|p: PlayerPosition| #[trigger]
                hand_size(self.hand(p)) + (if seat_offset(p, self.tricks().leader())
                    < self.tricks().in_trick() {
                    1int
                } else {
                    0
                }) == self.tricks().left(),
    {
        let before = old_state.played();
        let after = self.played();
        let t0 = old_state.tricks();
        let t1 = self.tricks();
        let old_mine = old_state.hand(player);
        let new_mine = self.hand(player);
        lemma_size_after_addition(old_mine, new_mine, card);
        let leader1 = t1.leader();
        assert(seat_offset(player, leader1) == t1.in_trick());
        if t0.in_trick() > 0 {
            assert(t1.completed() == t0.completed());
            assert(t1.in_trick() == t0.in_trick() - 1);
            assert(t1.leader() == t0.leader()) by {
                assert(after.subrange(0, 4 * t1.completed()) =~= before.subrange(0, 4 * t1.completed()));
                crate::dds::trick_manager::lemma_same_tricks(
                    t1.opening(),
                    t1.trump(),
                    after,
                    before,
                    t1.completed(),
                );
            }
        } else {
            assert(t1.completed() == t0.completed() - 1);
            assert(t1.in_trick() == 3);
        }
        assert forall|p: PlayerPosition| p != player implies #[trigger] self.hand(p) == old_state.hand(p) by {}
        lemma_sizes_after_undo(
            |p: PlayerPosition| hand_size(old_state.hand(p)) as int,
            |p: PlayerPosition| hand_size(self.hand(p)) as int,
            t0.leader(),
            t0.in_trick(),
            t0.left(),
            leader1,
            t1.in_trick(),
            t1.left(),
            player,
        );
    }
}

/// The seats' card counts after the seat to play plays a card.
proof fn lemma_sizes_after_play(
    old_sizes: spec_fn(PlayerPosition) -> int,
    new_sizes: spec_fn(PlayerPosition) -> int,
    leader0: PlayerPosition,
    in0: int,
    left0: int,
    leader1: PlayerPosition,
    in1: int,
    left1: int,
    player: PlayerPosition,
)
    requires
        0 <= in0 < 4,
        seat_offset(player, leader0) == in0,
        forall|p: PlayerPosition| #[trigger]
            old_sizes(p) + (if seat_offset(p, leader0) < in0 {
                1int
            } else {
                0
            }) == left0,
        new_sizes(player) + 1 == old_sizes(player),
        forall|p: PlayerPosition| p != player ==> #[trigger] new_sizes(p) == old_sizes(p),
        in0 < 3 ==> in1 == in0 + 1 && leader1 == leader0 && left1 == left0,
        in0 == 3 ==> in1 == 0 && left1 == left0 - 1,
    ensures
        forall|p: PlayerPosition| #[trigger]
            new_sizes(p) + (if seat_offset(p, leader1) < in1 {
                1int
            } else {
                0
            }) == left1,
{
    assert forall|p: PlayerPosition| #[trigger]
        new_sizes(p) + (if seat_offset(p, leader1) < in1 {
            1int
        } else {
            0
        }) == left1 by {
        assert(old_sizes(p) + (if seat_offset(p, leader0) < in0 {
            1int
        } else {
            0
        }) == left0);
        if p != player {
            assert(new_sizes(p) == old_sizes(p));
            assert(seat_offset(p, leader0) != in0);
        }
    }
}

/// The seats' card counts after the last card played is taken back by its seat.
proof fn lemma_sizes_after_undo(
    old_sizes: spec_fn(PlayerPosition) -> int,
    new_sizes: spec_fn(PlayerPosition) -> int,
    leader0: PlayerPosition,
    in0: int,
    left0: int,
    leader1: PlayerPosition,
    in1: int,
    left1: int,
    player: PlayerPosition,
)
    requires
        0 <= in0 < 4,
        0 <= in1 < 4,
        seat_offset(player, leader1) == in1,
        forall|p: PlayerPosition| #[trigger]
            old_sizes(p) + (if seat_offset(p, leader0) < in0 {
                1int
            } else {
                0
            }) == left0,
        new_sizes(player) == old_sizes(player) + 1,
        forall|p: PlayerPosition| p != player ==> #[trigger] new_sizes(p) == old_sizes(p),
        in0 > 0 ==> in1 == in0 - 1 && leader1 == leader0 && left1 == left0,
        in0 == 0 ==> in1 == 3 && left1 == left0 + 1,
    ensures
        forall|p: PlayerPosition| #[trigger]
            new_sizes(p) + (if seat_offset(p, leader1) < in1 {
                1int
            } else {
                0
            }) == left1,
{
    assert forall|p: PlayerPosition| #[trigger]
        new_sizes(p) + (if seat_offset(p, leader1) < in1 {
            1int
        } else {
            0
        }) == left1 by {
        assert(old_sizes(p) + (if seat_offset(p, leader0) < in0 {
            1int
        } else {
            0
        }) == left0);
        if p != player {
            assert(new_sizes(p) == old_sizes(p));
            assert(seat_offset(p, leader1) != in1);
        }
    }
}

} // verus!
