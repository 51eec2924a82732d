//! Who holds each card still in play, by virtual rank, packed into one word per suit, with a
//! history of such snapshots that the search steps back through.
use crate::card::{Denomination, Suit};
use crate::dds::card_tracker::CardTracker;
use crate::dds::suit_field::{has_rank, ones, ALL_RANKS};
use crate::dds::virtual_card::{VirtualCard, VirtualRank};
use crate::deal::PlayerPosition;
use vstd::prelude::*;

verus! {

/// The lowest bit of the count of cards in play in a suit's word; below it, two bits per virtual
/// rank name the seat (North 0 to West 3) holding that rank.
const COUNT_OFFSET: u32 = 26;

/// The two bits of a suit's word that name the holder of virtual rank `i`.
pub open spec fn slot(field: u32, i: u32) -> u32 {
    (field >> (2 * i) as u32) & 3u32
}

/// The number of cards in play that a suit's word records.
pub open spec fn in_play(field: u32) -> u32 {
    field >> 26u32
}

/// The word after the card of virtual rank `r` leaves play: the ranks above stay, the ranks
/// below move up one place, the lowest place is cleared, and one card fewer is in play.
pub open spec fn field_without(field: u32, r: u32) -> u32 {
    let index = (2 * r) as u32;
    let lower_mask = ((1u32 << index) - 1) as u32;
    let index_mask = 3u32 << index;
    let upper_mask = !(lower_mask | index_mask);
    (((field & upper_mask) | ((field & lower_mask) << 2u32)) - (1u32 << 26u32)) as u32
}

/// The word after a card of virtual rank `r` held by seat `owner` comes back into play: the
/// ranks above stay, the ranks up to `r` move down one place, `r` names the owner, and one
/// card more is in play.
pub open spec fn field_with(field: u32, r: u32, owner: u32) -> u32 {
    let index = (2 * r) as u32;
    let lower_mask = ((1u32 << (index + 2) as u32) - 1) as u32;
    let upper_mask = !lower_mask;
    (((field & upper_mask) | ((field & lower_mask) >> 2u32) | (owner << index)) + (1u32
        << 26u32)) as u32
}

/// Where the holder of each virtual rank stands after rank `r` leaves play.
pub proof fn lemma_field_without(field: u32, r: u32, i: u32)
    by (bit_vector)
    requires
        r < 13,
        i < 13,
        field >> 26u32 >= 1,
    ensures
        in_play(field_without(field, r)) == in_play(field) - 1,
        slot(field_without(field, r), i) == if i > r {
            slot(field, i)
        } else if i > 0 {
            slot(field, (i - 1) as u32)
        } else {
            0
        },
{
}

/// Where the holder of each virtual rank stands after rank `r` comes back into play.
pub proof fn lemma_field_with(field: u32, r: u32, owner: u32, i: u32)
    by (bit_vector)
    requires
        r < 13,
        i < 13,
        owner < 4,
        field >> 26u32 < 63,
    ensures
        in_play(field_with(field, r, owner)) == in_play(field) + 1,
        slot(field_with(field, r, owner), i) == if i > r {
            slot(field, i)
        } else if i == r {
            owner
        } else {
            slot(field, (i + 1) as u32)
        },
{
}

/// Bringing a card back at the virtual rank it left from, with its holder, restores the word.
pub proof fn lemma_with_undoes_without(field: u32, r: u32)
    by (bit_vector)
    requires
        r < 13,
        field >> 26u32 >= 1,
    ensures
        field_with(field_without(field, r), r, slot(field, r)) == field,
{
}

/// Two words with the same holders of the thirteen virtual ranks and the same count are equal.
pub proof fn lemma_field_ext(a: u32, b: u32)
    requires
        in_play(a) == in_play(b),
        forall|i: u32| i < 13 ==> #[trigger] slot(a, i) == slot(b, i),
    ensures
        a == b,
{
    assert(slot(a, 0) == slot(b, 0));
    assert(slot(a, 1) == slot(b, 1));
    assert(slot(a, 2) == slot(b, 2));
    assert(slot(a, 3) == slot(b, 3));
    assert(slot(a, 4) == slot(b, 4));
    assert(slot(a, 5) == slot(b, 5));
    assert(slot(a, 6) == slot(b, 6));
    assert(slot(a, 7) == slot(b, 7));
    assert(slot(a, 8) == slot(b, 8));
    assert(slot(a, 9) == slot(b, 9));
    assert(slot(a, 10) == slot(b, 10));
    assert(slot(a, 11) == slot(b, 11));
    assert(slot(a, 12) == slot(b, 12));
    lemma_field_ext_explicit(a, b);
}

proof fn lemma_field_ext_explicit(a: u32, b: u32)
    by (bit_vector)
    requires
        a >> 26u32 == b >> 26u32,
        (a >> 0u32) & 3u32 == (b >> 0u32) & 3u32,
        (a >> 2u32) & 3u32 == (b >> 2u32) & 3u32,
        (a >> 4u32) & 3u32 == (b >> 4u32) & 3u32,
        (a >> 6u32) & 3u32 == (b >> 6u32) & 3u32,
        (a >> 8u32) & 3u32 == (b >> 8u32) & 3u32,
        (a >> 10u32) & 3u32 == (b >> 10u32) & 3u32,
        (a >> 12u32) & 3u32 == (b >> 12u32) & 3u32,
        (a >> 14u32) & 3u32 == (b >> 14u32) & 3u32,
        (a >> 16u32) & 3u32 == (b >> 16u32) & 3u32,
        (a >> 18u32) & 3u32 == (b >> 18u32) & 3u32,
        (a >> 20u32) & 3u32 == (b >> 20u32) & 3u32,
        (a >> 22u32) & 3u32 == (b >> 22u32) & 3u32,
        (a >> 24u32) & 3u32 == (b >> 24u32) & 3u32,
    ensures
        a == b,
{
}

/// Per suit (Clubs to Spades), who holds each card still in play, by virtual rank, and how many
/// cards are in play.
#[derive(Copy, Clone, Debug, Eq, PartialEq)]
pub struct DistributionField([u32; 4]);

impl DistributionField {
    /// The words of the four suits, Clubs to Spades.
    pub closed spec fn words(self) -> Seq<u32> {
        self.0@
    }

    /// The word of a suit.
    pub open spec fn word(self, suit: Suit) -> u32 {
        self.words()[suit.rank() as int]
    }

    /// The holder of a virtual card, or none if fewer cards of its suit are in play than its
    /// virtual rank needs.
    pub open spec fn owner_spec(self, card: VirtualCard) -> Option<PlayerPosition> {
        let field = self.word(card.suit);
        if card.rank.rank() < 13 - in_play(field) {
            None
        } else {
            Some(PlayerPosition::of_rank(slot(field, card.rank.rank() as u32) as u8))
        }
    }

    /// The record with the word of one suit replaced.
    pub closed spec fn with_word(self, suit: Suit, w: u32) -> DistributionField {
        let i = suit.rank();
        DistributionField(
            [
                if i == 0 {
                    w
                } else {
                    self.0[0]
                },
                if i == 1 {
                    w
                } else {
                    self.0[1]
                },
                if i == 2 {
                    w
                } else {
                    self.0[2]
                },
                if i == 3 {
                    w
                } else {
                    self.0[3]
                },
            ],
        )
    }

    /// Replacing the word of a suit changes that word only.
    pub proof fn lemma_with_word(self, suit: Suit, w: u32)
        ensures
            self.with_word(suit, w).word(suit) == w,
            forall|t: Suit| t != suit ==> #[trigger] self.with_word(suit, w).word(t) == self.word(t),
    {
        assert forall|t: Suit| t != suit implies #[trigger] self.with_word(suit, w).word(t)
            == self.word(t) by {
            assert(t.rank() != suit.rank());
        }
    }

    /// Records with the same four words are equal.
    pub proof fn lemma_words_ext(self, other: DistributionField)
        requires
            forall|t: Suit| #[trigger] self.word(t) == other.word(t),
        ensures
            self == other,
    {
        assert(self.word(Suit::Clubs) == other.word(Suit::Clubs));
        assert(self.word(Suit::Diamonds) == other.word(Suit::Diamonds));
        assert(self.word(Suit::Hearts) == other.word(Suit::Hearts));
        assert(self.word(Suit::Spades) == other.word(Suit::Spades));
        assert(self.0@ =~= other.0@);
        vstd::array::axiom_array_ext_equal(self.0, other.0);
    }

    /// The record made of the four words, Clubs to Spades.
    pub fn new(fields: [u32; 4]) -> (f: Self)
        ensures
            f.words() == fields@,
    {
        Self(fields)
    }

    /// The word of a suit.
    pub fn cards_in_suit(&self, suit: Suit) -> (w: u32)
        ensures
            w == self.word(suit),
    {
        self.0[suit.index() as usize]
    }

    /// The holder of a virtual card, if that rank is in play. At most thirteen cards of the
    /// suit may be recorded in play.
    pub fn owner_of(&self, card: &VirtualCard) -> (p: Option<PlayerPosition>)
        requires
            in_play(self.word(card.suit)) <= 13,
        ensures
            p == self.owner_spec(*card),
    {
        let field = self.0[card.suit.index() as usize];
        let rank = card.rank.index() as u32;
        let index = rank * 2;
        if rank < 13 - (field >> COUNT_OFFSET) {
            return None;
        }
        let holder = (field >> index) % 4;
        proof {
            assert((field >> index) % 4 == (field >> index) & 3u32) by (bit_vector);
            assert(holder < 4) by (bit_vector)
                requires
                    holder == (field >> index) % 4,
            ;
        }
        if holder == 0 {
            Some(PlayerPosition::North)
        } else if holder == 1 {
            Some(PlayerPosition::East)
        } else if holder == 2 {
            Some(PlayerPosition::South)
        } else {
            Some(PlayerPosition::West)
        }
    }
}

/// How many of the positions `0 .. n` have the property.
pub open spec fn count_where(n: int, p: spec_fn(int) -> bool) -> nat
    decreases n,
{
    if n <= 0 {
        0
    } else {
        count_where(n - 1, p) + if p(n - 1) {
            1nat
        } else {
            0
        }
    }
}

proof fn lemma_count_implies(n: int, p: spec_fn(int) -> bool, q: spec_fn(int) -> bool)
    requires
        forall|k: int| 0 <= k < n && #[trigger] p(k) ==> q(k),
    ensures
        count_where(n, p) <= count_where(n, q),
    decreases n,
{
    if n > 0 {
        lemma_count_implies(n - 1, p, q);
    }
}

pub proof fn lemma_count_same(n: int, p: spec_fn(int) -> bool, q: spec_fn(int) -> bool)
    requires
        forall|k: int| 0 <= k < n ==> #[trigger] p(k) == q(k),
    ensures
        count_where(n, p) == count_where(n, q),
    decreases n,
{
    if n > 0 {
        lemma_count_same(n - 1, p, q);
    }
}

proof fn lemma_count_one_more(n: int, p: spec_fn(int) -> bool, q: spec_fn(int) -> bool, j: int)
    requires
        0 <= j < n,
        !p(j),
        q(j),
        forall|k: int| 0 <= k < n && k != j ==> #[trigger] p(k) == q(k),
    ensures
        count_where(n, q) == count_where(n, p) + 1,
    decreases n,
{
    if n - 1 > j {
        lemma_count_one_more(n - 1, p, q, j);
    } else {
        lemma_count_same(n - 1, p, q);
    }
}

/// The positions of the cards taken out of play, in the order taken: rank by rank from the
/// lowest, each rank in list order; the state reached after all ranks below `r` and the cards
/// of rank `r` before position `j`.
pub open spec fn removal_indices(cards: Seq<VirtualCard>, r: int, j: int) -> Seq<int>
    decreases r, j,
{
    if j > 0 {
        let before = removal_indices(cards, r, j - 1);
        if cards[j - 1].rank.rank() == r {
            before.push(j - 1)
        } else {
            before
        }
    } else if r > 0 {
        removal_indices(cards, r - 1, cards.len() as int)
    } else {
        Seq::empty()
    }
}

/// The positions of the cards brought back into play, in the order brought: rank by rank from
/// the highest, each rank from the end of the list; the state reached after the `q` highest
/// ranks and the cards of the next rank from position `j` on.
pub open spec fn addition_indices(cards: Seq<VirtualCard>, q: int, j: int) -> Seq<int>
    decreases q, cards.len() - j,
{
    if 0 <= j < cards.len() {
        let before = addition_indices(cards, q, j + 1);
        if cards[j].rank.rank() == 12 - q {
            before.push(j)
        } else {
            before
        }
    } else if j >= cards.len() && q > 0 {
        addition_indices(cards, q - 1, 0)
    } else {
        Seq::empty()
    }
}

/// The number of cards of the list in a suit.
pub open spec fn suit_count(cards: Seq<VirtualCard>, s: Suit) -> nat {
    count_where(cards.len() as int, |k: int| cards[k].suit == s)
}

/// The record after the cards at the positions `order` leave play, one after the other.
pub open spec fn after_removals(
    field: DistributionField,
    cards: Seq<VirtualCard>,
    order: Seq<int>,
) -> DistributionField
    decreases order.len(),
{
    if order.len() == 0 {
        field
    } else {
        let before = after_removals(field, cards, order.drop_last());
        let card = cards[order.last()];
        before.with_word(card.suit, field_without(before.word(card.suit), card.rank.rank() as u32))
    }
}

/// The record after the cards at the positions `order` come back into play, one after the
/// other, the card at position `k` held by the seat `k` places after `leader`.
pub open spec fn after_additions(
    field: DistributionField,
    cards: Seq<VirtualCard>,
    leader: PlayerPosition,
    order: Seq<int>,
) -> DistributionField
    decreases order.len(),
{
    if order.len() == 0 {
        field
    } else {
        let before = after_additions(field, cards, leader, order.drop_last());
        let k = order.last();
        let card = cards[k];
        before.with_word(
            card.suit,
            field_with(
                before.word(card.suit),
                card.rank.rank() as u32,
                leader.turned(k).rank() as u32,
            ),
        )
    }
}

proof fn lemma_removal_count(cards: Seq<VirtualCard>, s: Suit, r: int, j: int)
    requires
        0 <= r <= 13,
        0 <= j <= cards.len(),
    ensures
        count_where(
            removal_indices(cards, r, j).len() as int,
            |t: int| cards[removal_indices(cards, r, j)[t]].suit == s,
        ) == count_where(
            cards.len() as int,
            |k: int|
                cards[k].suit == s && (cards[k].rank.rank() < r || (cards[k].rank.rank() == r && k
                    < j)),
        ),
    decreases r, j,
{
    let order = removal_indices(cards, r, j);
    let n = cards.len() as int;
    let here = |k: int|
        cards[k].suit == s && (cards[k].rank.rank() < r || (cards[k].rank.rank() == r && k < j));
    if j > 0 {
        lemma_removal_count(cards, s, r, j - 1);
        let before = removal_indices(cards, r, j - 1);
        let there = |k: int|
            cards[k].suit == s && (cards[k].rank.rank() < r || (cards[k].rank.rank() == r && k < j
                - 1));
        lemma_count_same(
            before.len() as int,
            |t: int| cards[before[t]].suit == s,
            |t: int| cards[order[t]].suit == s,
        );
        if cards[j - 1].rank.rank() == r && cards[j - 1].suit == s {
            lemma_count_one_more(n, there, here, j - 1);
        } else {
            lemma_count_same(n, there, here);
        }
    } else if r > 0 {
        lemma_removal_count(cards, s, r - 1, n);
        let there = |k: int|
            cards[k].suit == s && (cards[k].rank.rank() < r - 1 || (cards[k].rank.rank() == r - 1
                && k < n));
        lemma_count_same(n, there, here);
    } else {
        lemma_count_same(n, |k: int| false, here);
        assert(count_where(n, |k: int| false) == 0) by {
            lemma_count_none(n);
        }
    }
}

proof fn lemma_count_none(n: int)
    ensures
        count_where(n, |k: int| false) == 0,
    decreases n,
{
    if n > 0 {
        lemma_count_none(n - 1);
    }
}

proof fn lemma_addition_count(cards: Seq<VirtualCard>, s: Suit, q: int, j: int)
    requires
        0 <= q <= 13,
        0 <= j <= cards.len(),
    ensures
        count_where(
            addition_indices(cards, q, j).len() as int,
            |t: int| cards[addition_indices(cards, q, j)[t]].suit == s,
        ) == count_where(
            cards.len() as int,
            |k: int|
                cards[k].suit == s && (cards[k].rank.rank() > 12 - q || (cards[k].rank.rank() == 12
                    - q && k >= j)),
        ),
    decreases q, cards.len() - j,
{
    let order = addition_indices(cards, q, j);
    let n = cards.len() as int;
    let here = |k: int|
        cards[k].suit == s && (cards[k].rank.rank() > 12 - q || (cards[k].rank.rank() == 12 - q
            && k >= j));
    if j < n {
        lemma_addition_count(cards, s, q, j + 1);
        let before = addition_indices(cards, q, j + 1);
        let there = |k: int|
            cards[k].suit == s && (cards[k].rank.rank() > 12 - q || (cards[k].rank.rank() == 12 - q
                && k >= j + 1));
        lemma_count_same(
            before.len() as int,
            |t: int| cards[before[t]].suit == s,
            |t: int| cards[order[t]].suit == s,
        );
        if cards[j].rank.rank() == 12 - q && cards[j].suit == s {
            lemma_count_one_more(n, there, here, j);
        } else {
            lemma_count_same(n, there, here);
        }
    } else if q > 0 {
        lemma_addition_count(cards, s, q - 1, 0);
        let there = |k: int|
            cards[k].suit == s && (cards[k].rank.rank() > 12 - (q - 1) || (cards[k].rank.rank()
                == 12 - (q - 1) && k >= 0));
        lemma_count_same(n, there, here);
    } else {
        lemma_count_same(n, |k: int| false, here);
        lemma_count_none(n);
    }
}

/// A history of distribution records; the last is the current one.
pub struct DistFieldManager {
    fields: Vec<DistributionField>,
}

impl DistFieldManager {
    /// The records, oldest first.
    pub closed spec fn history(self) -> Seq<DistributionField> {
        self.fields@
    }

    /// The current record.
    pub open spec fn current(self) -> DistributionField {
        self.history().last()
    }

    /// The holder of a virtual card in the current record.
    pub fn owner_of(&self, card: &VirtualCard) -> (p: Option<PlayerPosition>)
        requires
            self.history().len() > 0,
            in_play(self.current().word(card.suit)) <= 13,
        ensures
            p == self.current().owner_spec(*card),
    {
        self.fields[self.fields.len() - 1].owner_of(card)
    }

    /// The holder of the highest card of a suit still in play.
    pub fn owner_of_winning_rank_in(&self, suit: Suit) -> (p: Option<PlayerPosition>)
        requires
            self.history().len() > 0,
            in_play(self.current().word(suit)) <= 13,
        ensures
            p == self.current().owner_spec(VirtualCard { suit, rank: VirtualRank::Ace }),
    {
        self.fields[self.fields.len() - 1].owner_of(&VirtualCard { suit, rank: VirtualRank::Ace })
    }

    /// The holder of the second highest card of a suit still in play.
    pub fn owner_of_runner_up_in(&self, suit: Suit) -> (p: Option<PlayerPosition>)
        requires
            self.history().len() > 0,
            in_play(self.current().word(suit)) <= 13,
        ensures
            p == self.current().owner_spec(VirtualCard { suit, rank: VirtualRank::King }),
    {
        self.fields[self.fields.len() - 1].owner_of(&VirtualCard { suit, rank: VirtualRank::King })
    }

    /// The current record.
    pub fn get_field(&self) -> (f: DistributionField)
        requires
            self.history().len() > 0,
        ensures
            f == self.current(),
    {
        self.fields[self.fields.len() - 1]
    }

    /// Drops the current record, going back to the one before.
    pub fn step_back(&mut self)
        ensures
            final(self).history() == stepped_back(old(self).history()),
    {
        self.fields.pop();
    }

    /// Replaces the word of a suit in the current record.
    fn set_word(&mut self, suit: Suit, w: u32)
        requires
            old(self).history().len() > 0,
        ensures
            final(self).history() == old(self).history().drop_last().push(
                old(self).current().with_word(suit, w),
            ),
    {
        let n = self.fields.len();
        let mut field = self.fields[n - 1];
        field.0[suit.index() as usize] = w;
        proof {
            let target = old(self).current().with_word(suit, w);
            assert(field.0@ =~= target.0@);
            vstd::array::axiom_array_ext_equal(field.0, target.0);
        }
        self.fields.set(n - 1, field);
        proof {
            assert(self.fields@ =~= old(self).history().drop_last().push(
                old(self).current().with_word(suit, w),
            ));
        }
    }

    /// Takes the card of a virtual rank of a suit out of play in the current record. Some card
    /// of the suit must be recorded in play.
    pub fn remove_rank(&mut self, suit: Suit, virtual_rank: VirtualRank)
        requires
            old(self).history().len() > 0,
            in_play(old(self).current().word(suit)) >= 1,
        ensures
            final(self).history() == old(self).history().drop_last().push(
                old(self).current().with_word(
                    suit,
                    field_without(old(self).current().word(suit), virtual_rank.rank() as u32),
                ),
            ),
    {
        let before = self.fields[self.fields.len() - 1].0[suit.index() as usize];
        let after = Self::without_rank(before, virtual_rank);
        self.set_word(suit, after);
    }

    /// Takes a virtual card out of play in the current record.
    pub fn remove_card(&mut self, virtual_card: VirtualCard)
        requires
            old(self).history().len() > 0,
            in_play(old(self).current().word(virtual_card.suit)) >= 1,
        ensures
            final(self).history() == old(self).history().drop_last().push(
                old(self).current().with_word(
                    virtual_card.suit,
                    field_without(
                        old(self).current().word(virtual_card.suit),
                        virtual_card.rank.rank() as u32,
                    ),
                ),
            ),
    {
        self.remove_rank(virtual_card.suit, virtual_card.rank)
    }

    /// Brings a card of a virtual rank of a suit, held by `owner`, back into play in the
    /// current record. The count of cards in play must have room for one more.
    pub fn add_rank(&mut self, suit: Suit, virtual_rank: VirtualRank, owner: PlayerPosition)
        requires
            old(self).history().len() > 0,
            in_play(old(self).current().word(suit)) < 63,
        ensures
            final(self).history() == old(self).history().drop_last().push(
                old(self).current().with_word(
                    suit,
                    field_with(
                        old(self).current().word(suit),
                        virtual_rank.rank() as u32,
                        owner.rank() as u32,
                    ),
                ),
            ),
    {
        let before = self.fields[self.fields.len() - 1].0[suit.index() as usize];
        let after = Self::with_added_rank(before, virtual_rank, owner);
        self.set_word(suit, after);
    }

    /// Brings a virtual card, held by `owner`, back into play in the current record.
    pub fn add_card(&mut self, virtual_card: VirtualCard, owner: PlayerPosition)
        requires
            old(self).history().len() > 0,
            in_play(old(self).current().word(virtual_card.suit)) < 63,
        ensures
            final(self).history() == old(self).history().drop_last().push(
                old(self).current().with_word(
                    virtual_card.suit,
                    field_with(
                        old(self).current().word(virtual_card.suit),
                        virtual_card.rank.rank() as u32,
                        owner.rank() as u32,
                    ),
                ),
            ),
    {
        self.add_rank(virtual_card.suit, virtual_card.rank, owner)
    }

    fn without_rank(field: u32, virt_rank: VirtualRank) -> (r: u32)
        requires
            in_play(field) >= 1,
        ensures
            r == field_without(field, virt_rank.rank() as u32),
    {
        let index = 2 * (virt_rank.index() as u32);
        proof {
            assert(index <= 24);
            assert(index <= 24 ==> (1u32 << index) >= 1) by (bit_vector);
        }
        let lower_mask = (1u32 << index) - 1;
        let index_mask = 3u32 << index;
        let upper_mask = !(lower_mask | index_mask);
        let upper_field = field & upper_mask;
        let lower_field = (field & lower_mask) << 2u32;
        let suit_distribution = upper_field | lower_field;
        proof {
            assert(field >> 26u32 >= 1 && index <= 24 ==> ((field & !((((1u32 << index) - 1) as u32)
                | (3u32 << index))) | ((field & (((1u32 << index) - 1) as u32)) << 2u32)) >= (1u32
                << 26u32)) by (bit_vector);
        }
        suit_distribution - (1u32 << COUNT_OFFSET)
    }

    fn with_added_rank(field: u32, virt_rank: VirtualRank, owner: PlayerPosition) -> (r: u32)
        requires
            in_play(field) < 63,
        ensures
            r == field_with(field, virt_rank.rank() as u32, owner.rank() as u32),
    {
        let index = 2 * (virt_rank.index() as u32);
        proof {
            assert(index <= 24);
            assert(index <= 24 ==> (1u32 << (index + 2) as u32) >= 1) by (bit_vector);
        }
        let lower_mask = (1u32 << (index + 2)) - 1;
        let upper_mask = !lower_mask;
        let upper_field = field & upper_mask;
        let lower_field = (field & lower_mask) >> 2u32;
        let owner_bits = owner.index() as u32;
        let suit_distribution = upper_field | lower_field | (owner_bits << index);
        proof {
            assert(field >> 26u32 < 63 && index <= 24 && owner_bits < 4 ==> ((field & !((((1u32 << (
            index + 2) as u32) - 1) as u32))) | ((field & (((1u32 << (index + 2) as u32) - 1) as u32))
                >> 2u32) | (owner_bits << index)) < 0xffff_ffffu32 - (1u32 << 26u32) + 1)
                by (bit_vector);
        }
        suit_distribution + (1u32 << COUNT_OFFSET)
    }
}

/// The records left once the current one is dropped; with none, none.
pub open spec fn stepped_back(h: Seq<DistributionField>) -> Seq<DistributionField> {
    if h.len() > 0 {
        h.drop_last()
    } else {
        h
    }
}

/// Stepping back after cards were taken out of play, or brought back into play, gives back
/// the records as they were, the current one included, whatever the cards were.
pub proof fn lemma_step_back_undoes_record(
    before: DistFieldManager,
    cards: Seq<VirtualCard>,
    last_leader: PlayerPosition,
)
    requires
        before.history().len() > 0,
    ensures
        stepped_back(
            before.history().push(after_removals(before.current(), cards, removal_indices(cards, 13, 0))),
        ) == before.history(),
        stepped_back(
            before.history().push(
                after_additions(before.current(), cards, last_leader, addition_indices(cards, 12, 0)),
            ),
        ).last() == before.current(),
        stepped_back(
            before.history().push(
                after_additions(before.current(), cards, last_leader, addition_indices(cards, 12, 0)),
            ),
        ) == before.history(),
        stepped_back(
            before.history().push(after_removals(before.current(), cards, removal_indices(cards, 13, 0))),
        ).last() == before.current(),
{
    assert(before.history().push(after_removals(before.current(), cards, removal_indices(cards, 13, 0))).drop_last()
        =~= before.history());
    assert(before.history().push(
        after_additions(before.current(), cards, last_leader, addition_indices(cards, 12, 0)),
    ).drop_last() =~= before.history());
}

/// The cards of a suit, among the first `n` of the list, taken out of play up to step `(r, j)`
/// of the removal order.
pub open spec fn removed_before(cards: Seq<VirtualCard>, s: Suit, r: int, j: int) -> nat {
    count_where(
        cards.len() as int,
        |k: int|
            cards[k].suit == s && (cards[k].rank.rank() < r || (cards[k].rank.rank() == r && k < j)),
    )
}

/// The cards of a suit brought back into play up to step `(q, j)` of the addition order.
pub open spec fn added_before(cards: Seq<VirtualCard>, s: Suit, q: int, j: int) -> nat {
    count_where(
        cards.len() as int,
        |k: int|
            cards[k].suit == s && (cards[k].rank.rank() > 12 - q || (cards[k].rank.rank() == 12 - q
                && k >= j)),
    )
}

impl DistFieldManager {
    /// Adds a copy of the current record and takes the cards out of play in it, lowest virtual
    /// rank first. No suit may lose more cards than it has in play.
    pub fn remove_cards(&mut self, cards: &[VirtualCard])
        requires
            old(self).history().len() > 0,
            forall|s: Suit|
                #[trigger] suit_count(cards@, s) <= in_play(old(self).current().word(s)),
        ensures
            final(self).history() == old(self).history().push(
                after_removals(old(self).current(), cards@, removal_indices(cards@, 13, 0)),
            ),
            forall|s: Suit|
                #[trigger] in_play(final(self).current().word(s)) == in_play(
                    old(self).current().word(s),
                ) - suit_count(cards@, s),
    {
        let ghost start = self.current();
        let ghost earlier = self.history();
        let n = self.fields.len();
        let last = self.fields[n - 1];
        self.fields.push(last);
        proof {
            assert forall|s: Suit| #[trigger] removed_before(cards@, s, 0, 0) == 0 by {
                lemma_count_same(
                    cards@.len() as int,
                    |k: int| false,
                    |k: int|
                        cards@[k].suit == s && (cards@[k].rank.rank() < 0 || (cards@[k].rank.rank()
                            == 0 && k < 0)),
                );
                lemma_count_none(cards@.len() as int);
            }
            assert(removal_indices(cards@, 0, 0) =~= Seq::<int>::empty());
        }
        let mut r: u8 = 0;
        while r < 13
            invariant
                0 <= r <= 13,
                self.history().len() > 0,
                self.history().drop_last() == earlier,
                self.current() == after_removals(start, cards@, removal_indices(cards@, r as int, 0)),
                forall|s: Suit| #[trigger] suit_count(cards@, s) <= in_play(start.word(s)),
                forall|s: Suit|
                    #[trigger] in_play(self.current().word(s)) == in_play(start.word(s))
                        - removed_before(cards@, s, r as int, 0),
            decreases 13 - r,
        {
            let mut j: usize = 0;
            while j < cards.len()
                invariant
                    0 <= r < 13,
                    0 <= j <= cards@.len(),
                    self.history().len() > 0,
                    self.history().drop_last() == earlier,
                    self.current() == after_removals(
                        start,
                        cards@,
                        removal_indices(cards@, r as int, j as int),
                    ),
                    forall|s: Suit| #[trigger] suit_count(cards@, s) <= in_play(start.word(s)),
                    forall|s: Suit|
                        #[trigger] in_play(self.current().word(s)) == in_play(start.word(s))
                            - removed_before(cards@, s, r as int, j as int),
                decreases cards@.len() - j,
            {
                let card = cards[j];
                let ghost before = self.current();
                let ghost order = removal_indices(cards@, r as int, j as int);
                proof {
                    assert forall|s: Suit|
                        #![trigger removed_before(cards@, s, r as int, j as int + 1)]
                        removed_before(cards@, s, r as int, j as int + 1) == removed_before(
                            cards@,
                            s,
                            r as int,
                            j as int,
                        ) + (if s == card.suit && card.rank.rank() == r {
                            1nat
                        } else {
                            0
                        }) && removed_before(cards@, s, r as int, j as int + 1) <= suit_count(
                            cards@,
                            s,
                        ) by {
                        let p = |k: int|
                            cards@[k].suit == s && (cards@[k].rank.rank() < r || (
                            cards@[k].rank.rank() == r && k < j));
                        let q = |k: int|
                            cards@[k].suit == s && (cards@[k].rank.rank() < r || (
                            cards@[k].rank.rank() == r && k < j + 1));
                        if s == card.suit && card.rank.rank() == r {
                            lemma_count_one_more(cards@.len() as int, p, q, j as int);
                        } else {
                            lemma_count_same(cards@.len() as int, p, q);
                        }
                        lemma_count_implies(
                            cards@.len() as int,
                            q,
                            |k: int| cards@[k].suit == s,
                        );
                    }
                }
                if card.rank.index() == r {
                    proof {
                        assert(removed_before(cards@, card.suit, r as int, j as int + 1) <= suit_count(
                            cards@,
                            card.suit,
                        ));
                        assert(suit_count(cards@, card.suit) <= in_play(start.word(card.suit)));
                        assert(in_play(self.current().word(card.suit)) == in_play(
                            start.word(card.suit),
                        ) - removed_before(cards@, card.suit, r as int, j as int));
                    }
                    self.remove_card(card);
                    proof {
                        before.lemma_with_word(
                            card.suit,
                            field_without(before.word(card.suit), card.rank.rank() as u32),
                        );
                        lemma_field_without_count(before.word(card.suit), card.rank.rank() as u32);
                        assert(order.push(j as int).drop_last() =~= order);
                    }
                }
                proof {
                    assert forall|s: Suit| #[trigger]
                        in_play(self.current().word(s)) == in_play(start.word(s)) - removed_before(
                            cards@,
                            s,
                            r as int,
                            j as int + 1,
                        ) by {
                        assert(removed_before(cards@, s, r as int, j as int + 1) == removed_before(
                            cards@,
                            s,
                            r as int,
                            j as int,
                        ) + (if s == card.suit && card.rank.rank() == r {
                            1nat
                        } else {
                            0
                        }));
                        assert(in_play(before.word(s)) == in_play(start.word(s)) - removed_before(
                            cards@,
                            s,
                            r as int,
                            j as int,
                        ));
                    }
                }
                j = j + 1;
            }
            proof {
                assert forall|s: Suit|
                    removed_before(cards@, s, r as int + 1, 0) == removed_before(
                        cards@,
                        s,
                        r as int,
                        cards@.len() as int,
                    ) by {
                    lemma_count_same(
                        cards@.len() as int,
                        |k: int|
                            cards@[k].suit == s && (cards@[k].rank.rank() < r + 1 || (
                            cards@[k].rank.rank() == r + 1 && k < 0)),
                        |k: int|
                            cards@[k].suit == s && (cards@[k].rank.rank() < r || (
                            cards@[k].rank.rank() == r && k < cards@.len())),
                    );
                }
            }
            r = r + 1;
        }
        proof {
            assert(self.history() =~= earlier.push(self.current()));
            assert forall|s: Suit| #[trigger]
                in_play(self.current().word(s)) == in_play(start.word(s)) - suit_count(cards@, s) by {
                lemma_count_same(
                    cards@.len() as int,
                    |k: int|
                        cards@[k].suit == s && (cards@[k].rank.rank() < 13 || (cards@[k].rank.rank()
                            == 13 && k < 0)),
                    |k: int| cards@[k].suit == s,
                );
            }
        }
    }

    /// Adds a copy of the current record and brings the cards back into play in it, highest
    /// virtual rank first; the card at position `k` of the list is held by the seat `k` places
    /// after `last_leader`. No suit may come to more than 63 cards in play.
    pub fn add_cards(&mut self, cards: &[VirtualCard], last_leader: PlayerPosition)
        requires
            old(self).history().len() > 0,
            forall|s: Suit|
                #[trigger] in_play(old(self).current().word(s)) + suit_count(cards@, s) <= 63,
        ensures
            final(self).history() == old(self).history().push(
                after_additions(
                    old(self).current(),
                    cards@,
                    last_leader,
                    addition_indices(cards@, 12, 0),
                ),
            ),
    {
        let ghost start = self.current();
        let ghost earlier = self.history();
        let n = self.fields.len();
        let last = self.fields[n - 1];
        self.fields.push(last);
        proof {
            assert forall|s: Suit| #[trigger] added_before(cards@, s, 0, cards@.len() as int) == 0 by {
                lemma_count_same(
                    cards@.len() as int,
                    |k: int| false,
                    |k: int|
                        cards@[k].suit == s && (cards@[k].rank.rank() > 12 || (cards@[k].rank.rank()
                            == 12 && k >= cards@.len())),
                );
                lemma_count_none(cards@.len() as int);
            }
        }
        let mut q: u8 = 0;
        while q < 13
            invariant
                0 <= q <= 13,
                self.history().len() > 0,
                self.history().drop_last() == earlier,
                q > 0 ==> self.current() == after_additions(
                    start,
                    cards@,
                    last_leader,
                    addition_indices(cards@, q - 1, 0),
                ),
                q == 0 ==> self.current() == start,
                forall|s: Suit|
                    #[trigger] in_play(start.word(s)) + suit_count(cards@, s) <= 63,
                forall|s: Suit|
                    #[trigger] in_play(self.current().word(s)) == in_play(start.word(s))
                        + added_before(cards@, s, q as int, cards@.len() as int),
            decreases 13 - q,
        {
            let mut j: usize = cards.len();
            proof {
                if q > 0 {
                    assert(addition_indices(cards@, q as int, cards@.len() as int)
                        == addition_indices(cards@, q - 1, 0));
                }
            }
            while j > 0
                invariant
                    0 <= q < 13,
                    0 <= j <= cards@.len(),
                    self.history().len() > 0,
                    self.history().drop_last() == earlier,
                    self.current() == after_additions(
                        start,
                        cards@,
                        last_leader,
                        addition_indices(cards@, q as int, j as int),
                    ),
                    forall|s: Suit|
                        #[trigger] in_play(start.word(s)) + suit_count(cards@, s) <= 63,
                    forall|s: Suit|
                        #[trigger] in_play(self.current().word(s)) == in_play(start.word(s))
                            + added_before(cards@, s, q as int, j as int),
                decreases j,
            {
                let k = j - 1;
                let card = cards[k];
                let ghost before = self.current();
                let ghost order = addition_indices(cards@, q as int, j as int);
                proof {
                    assert forall|s: Suit|
                        added_before(cards@, s, q as int, k as int) == added_before(
                            cards@,
                            s,
                            q as int,
                            j as int,
                        ) + (if s == card.suit && card.rank.rank() == 12 - q {
                            1nat
                        } else {
                            0
                        }) && added_before(cards@, s, q as int, k as int) <= suit_count(cards@, s) by {
                        let p = |i: int|
                            cards@[i].suit == s && (cards@[i].rank.rank() > 12 - q || (
                            cards@[i].rank.rank() == 12 - q && i >= j));
                        let r = |i: int|
                            cards@[i].suit == s && (cards@[i].rank.rank() > 12 - q || (
                            cards@[i].rank.rank() == 12 - q && i >= k));
                        if s == card.suit && card.rank.rank() == 12 - q {
                            lemma_count_one_more(cards@.len() as int, p, r, k as int);
                        } else {
                            lemma_count_same(cards@.len() as int, p, r);
                        }
                        lemma_count_implies(
                            cards@.len() as int,
                            r,
                            |i: int| cards@[i].suit == s,
                        );
                    }
                }
                if card.rank.index() == 12 - q {
                    let owner = last_leader.after((k % 4) as u8);
                    proof {
                        assert((last_leader.rank() + (k % 4) as int) % 4 == (last_leader.rank()
                            + k) % 4);
                    }
                    proof {
                        assert(added_before(cards@, card.suit, q as int, k as int) <= suit_count(
                            cards@,
                            card.suit,
                        ));
                        assert(in_play(start.word(card.suit)) + suit_count(cards@, card.suit) <= 63);
                        assert(in_play(self.current().word(card.suit)) == in_play(
                            start.word(card.suit),
                        ) + added_before(cards@, card.suit, q as int, j as int));
                    }
                    self.add_card(card, owner);
                    proof {
                        before.lemma_with_word(
                            card.suit,
                            field_with(
                                before.word(card.suit),
                                card.rank.rank() as u32,
                                owner.rank() as u32,
                            ),
                        );
                        lemma_field_with_count(
                            before.word(card.suit),
                            card.rank.rank() as u32,
                            owner.rank() as u32,
                        );
                        assert(order.push(k as int).drop_last() =~= order);
                    }
                }
                j = k;
            }
            proof {
                assert forall|s: Suit|
                    added_before(cards@, s, q as int + 1, cards@.len() as int) == added_before(
                        cards@,
                        s,
                        q as int,
                        0,
                    ) by {
                    lemma_count_same(
                        cards@.len() as int,
                        |i: int|
                            cards@[i].suit == s && (cards@[i].rank.rank() > 12 - (q + 1) || (
                            cards@[i].rank.rank() == 12 - (q + 1) && i >= cards@.len())),
                        |i: int|
                            cards@[i].suit == s && (cards@[i].rank.rank() > 12 - q || (
                            cards@[i].rank.rank() == 12 - q && i >= 0)),
                    );
                }
            }
            q = q + 1;
        }
        proof {
            assert(self.history() =~= earlier.push(self.current()));
        }
    }
}

/// Taking a card out of play lowers the count by one.
proof fn lemma_field_without_count(field: u32, r: u32)
    requires
        r < 13,
        in_play(field) >= 1,
    ensures
        in_play(field_without(field, r)) == in_play(field) - 1,
{
    lemma_field_without(field, r, 0);
}

/// Bringing a card back into play raises the count by one.
proof fn lemma_field_with_count(field: u32, r: u32, owner: u32)
    requires
        r < 13,
        owner < 4,
        in_play(field) < 63,
    ensures
        in_play(field_with(field, r, owner)) == in_play(field) + 1,
{
    lemma_field_with(field, r, owner, 0);
}

/// The seat bits of denomination `a` of a suit from the first `n` hands (North to West):
/// each hand holding it adds its seat number (North adds nothing).
pub open spec fn holder_bits(hands: Seq<CardTracker>, s: Suit, a: int, n: int) -> u32
    decreases n,
{
    if n <= 1 {
        0
    } else {
        holder_bits(hands, s, a, n - 1) | if has_rank(hands[n - 1].field(s).bits(), a) {
            (n - 1) as u32
        } else {
            0u32
        }
    }
}

/// The number of cards of a suit in the first `n` hands.
pub open spec fn cards_in_hands(hands: Seq<CardTracker>, s: Suit, n: int) -> int
    decreases n,
{
    if n <= 0 {
        0
    } else {
        cards_in_hands(hands, s, n - 1) + ones(hands[n - 1].field(s).bits(), 16)
    }
}

/// The word of a suit at the start: who holds each denomination, and how many cards are in play.
pub open spec fn starts_as(hands: Seq<CardTracker>, s: Suit, w: u32) -> bool {
    &&& in_play(w) == cards_in_hands(hands, s, 4)
    &&& forall|i: u32| i < 13 ==> #[trigger] slot(w, i) == holder_bits(hands, s, i as int, 4)
}

proof fn lemma_or_slot(field: u32, pid: u32, a: u32, i: u32)
    by (bit_vector)
    requires
        pid < 4,
        a < 13,
        i < 13,
    ensures
        slot(field | (pid << (2 * a) as u32), i) == if i == a {
            slot(field, i) | pid
        } else {
            slot(field, i)
        },
        in_play(field | (pid << (2 * a) as u32)) == in_play(field),
{
}

proof fn lemma_add_count(field: u32, c: u32, i: u32)
    by (bit_vector)
    requires
        c < 64,
        (field >> 26u32) + c <= 63,
        i < 13,
    ensures
        field + (c << 26u32) <= 0xffff_ffffu32,
        slot((field + (c << 26u32)) as u32, i) == slot(field, i),
        in_play((field + (c << 26u32)) as u32) == in_play(field) + c,
{
}

/// A suit field within the thirteen denominations has at most thirteen cards.
pub proof fn lemma_ones_within_ranks(v: u16)
    requires
        v <= ALL_RANKS,
    ensures
        ones(v, 16) <= 13,
{
    crate::dds::virtual_card_tracker::lemma_ones_at_most(v, 13);
    assert(!crate::dds::bits::bit16(v, 13)) by {
        if crate::dds::bits::bit16(v, 13) {
            crate::dds::card_tracker::lemma_within_ranks_bits(v, 13);
            crate::dds::bits::lemma_bit16_ops(0, 0, 0, 13);
        }
    }
    assert(!crate::dds::bits::bit16(v, 14)) by {
        if crate::dds::bits::bit16(v, 14) {
            crate::dds::card_tracker::lemma_within_ranks_bits(v, 14);
            crate::dds::bits::lemma_bit16_ops(0, 0, 0, 14);
        }
    }
    assert(!crate::dds::bits::bit16(v, 15)) by {
        if crate::dds::bits::bit16(v, 15) {
            crate::dds::card_tracker::lemma_within_ranks_bits(v, 15);
            crate::dds::bits::lemma_bit16_ops(0, 0, 0, 15);
        }
    }
    assert(ones(v, 14) == ones(v, 13));
    assert(ones(v, 15) == ones(v, 14));
    assert(ones(v, 16) == ones(v, 15));
}

fn initial_word(hands: &[CardTracker; 4], suit: Suit) -> (w: u32)
    requires
        forall|i: int| 0 <= i < 4 ==> (#[trigger] hands@[i]).within_ranks(),
    ensures
        starts_as(hands@, suit, w),
{
    let mut field: u32 = 0;
    proof {
        assert forall|i: u32| i < 13 implies #[trigger] slot(field, i) == holder_bits(hands@, suit, i as int, 0) by {
            assert(slot(0u32, i) == 0) by (bit_vector);
        }
        assert(in_play(0u32) == 0) by (bit_vector);
    }
    let mut p: usize = 0;
    while p < 4
        invariant
            0 <= p <= 4,
            forall|i: int| 0 <= i < 4 ==> (#[trigger] hands@[i]).within_ranks(),
            forall|i: u32| i < 13 ==> #[trigger] slot(field, i) == holder_bits(hands@, suit, i as int, p as int),
            in_play(field) == cards_in_hands(hands@, suit, p as int),
            cards_in_hands(hands@, suit, p as int) <= 13 * p,
        decreases 4 - p,
    {
        if p != 0 {
            let mut a: u8 = 0;
            while a < 13
                invariant
                    1 <= p < 4,
                    0 <= a <= 13,
                    forall|i: u32|
                        i < 13 ==> #[trigger] slot(field, i) == if i < a {
                            holder_bits(hands@, suit, i as int, p as int + 1)
                        } else {
                            holder_bits(hands@, suit, i as int, p as int)
                        },
                    in_play(field) == cards_in_hands(hands@, suit, p as int),
                decreases 13 - a,
            {
                let holds = hands[p].contains_in(&Denomination::from_index(a), suit);
                proof {
                    crate::card::lemma_denomination_rank_bijection(Denomination::of_rank(a), a);
                }
                let before = field;
                if holds {
                    field = field | ((p as u32) << (2 * a as u32));
                    proof {
                        assert forall|i: u32| i < 13 implies #[trigger] slot(field, i) == if i < a + 1 {
                            holder_bits(hands@, suit, i as int, p as int + 1)
                        } else {
                            holder_bits(hands@, suit, i as int, p as int)
                        } by {
                            lemma_or_slot(before, p as u32, a as u32, i);
                            assert(slot(before, i) == if i < a {
                                holder_bits(hands@, suit, i as int, p as int + 1)
                            } else {
                                holder_bits(hands@, suit, i as int, p as int)
                            });
                        }
                        lemma_or_slot(before, p as u32, a as u32, 0);
                    }
                } else {
                    proof {
                        assert forall|i: u32| i < 13 implies #[trigger] slot(field, i) == if i < a + 1 {
                            holder_bits(hands@, suit, i as int, p as int + 1)
                        } else {
                            holder_bits(hands@, suit, i as int, p as int)
                        } by {
                            assert(slot(before, i) == if i < a {
                                holder_bits(hands@, suit, i as int, p as int + 1)
                            } else {
                                holder_bits(hands@, suit, i as int, p as int)
                            });
                            if i == a {
                                let h = holder_bits(hands@, suit, i as int, p as int);
                                assert(h | 0u32 == h) by (bit_vector);
                            }
                        }
                    }
                }
                a = a + 1;
            }
        } else {
            proof {
                assert forall|i: u32| i < 13 implies #[trigger] slot(field, i) == holder_bits(hands@, suit, i as int, 1) by {
                }
            }
        }
        let count = hands[p].count_cards_in(suit) as u32;
        proof {
            lemma_ones_within_ranks(hands@[p as int].field(suit).bits());
        }
        let before = field;
        proof {
            lemma_add_count(before, count, 0);
        }
        field = field + (count << COUNT_OFFSET);
        proof {
            assert forall|i: u32| i < 13 implies #[trigger] slot(field, i) == holder_bits(hands@, suit, i as int, p as int + 1) by {
                lemma_add_count(before, count, i);
            }
        }
        p = p + 1;
    }
    field
}

impl DistFieldManager {
    /// The history at the start of play: one record, who holds each card of the four hands
    /// (North, East, South, West) and how many cards of each suit are in play.
    pub fn new_for_game(hands: &[CardTracker; 4]) -> (m: Self)
        requires
            forall|i: int| 0 <= i < 4 ==> (#[trigger] hands@[i]).within_ranks(),
        ensures
            m.history().len() == 1,
            forall|s: Suit| #[trigger] starts_as(hands@, s, m.current().word(s)),
    {
        let initial = [
            initial_word(hands, Suit::Clubs),
            initial_word(hands, Suit::Diamonds),
            initial_word(hands, Suit::Hearts),
            initial_word(hands, Suit::Spades),
        ];
        let mut fields: Vec<DistributionField> = Vec::new();
        fields.push(DistributionField(initial));
        Self { fields }
    }
}

/// Taking a card out of play and bringing it back at the same virtual rank, held by the seat
/// recorded for it, gives back the record as it was.
pub proof fn lemma_add_card_undoes_remove_card(f: DistributionField, card: VirtualCard)
    requires
        in_play(f.word(card.suit)) >= 1,
    ensures
        ({
            let w = f.word(card.suit);
            let r = card.rank.rank() as u32;
            let removed = f.with_word(card.suit, field_without(w, r));
            removed.with_word(card.suit, field_with(removed.word(card.suit), r, slot(w, r))) == f
        }),
{
    let w = f.word(card.suit);
    let r = card.rank.rank() as u32;
    let removed = f.with_word(card.suit, field_without(w, r));
    removed.lemma_with_word(card.suit, field_with(removed.word(card.suit), r, slot(w, r)));
    f.lemma_with_word(card.suit, field_without(w, r));
    lemma_with_undoes_without(w, r);
    let back = removed.with_word(card.suit, field_with(removed.word(card.suit), r, slot(w, r)));
    assert forall|t: Suit| #[trigger] back.word(t) == f.word(t) by {}
    f.lemma_words_ext(back);
}

} // verus!
