//! A hand of thirteen cards, kept sorted, with its suit lengths and its shape.
use crate::card::{lemma_card_order_injective, Card, Denomination, Suit};
use crate::notation::{read_hand, read_hand_cards};
use vstd::prelude::*;
use vstd::string::StrSliceExecFns;
use vstd::string::StringExecFns;

verus! {

/// A bridge hand: thirteen distinct cards in ascending order, the length of each suit
/// (Spades, Hearts, Diamonds, Clubs) and the hand's shape.
#[derive(Clone, Copy, Debug, PartialEq, Eq)]
pub struct Hand {
    cards: [Card; 13],
    suit_lengths: [u8; 4],
    hand_type: HandType,
}

/// The shape of a hand: its long suits, longest first.
#[derive(Clone, Copy, Debug, PartialEq, Eq)]
pub enum HandType {
    ThreeSuiter(Suit, Suit, Suit),
    TwoSuiter(Suit, Suit),
    OneSuiter(Suit),
    Balanced(Option<Suit>),  // might contain a 5-card suit
}

/// The cards of `s` that belong to `suit`, in the order of `s`.
pub open spec fn cards_of_suit(s: Seq<Card>, suit: Suit) -> Seq<Card>
    decreases s.len(),
{
    if s.len() == 0 {
        Seq::empty()
    } else {
        let rest = cards_of_suit(s.drop_last(), suit);
        if s.last().suit == suit {
            rest.push(s.last())
        } else {
            rest
        }
    }
}

/// The number of cards of `s` that belong to `suit`.
pub open spec fn count_suit(s: Seq<Card>, suit: Suit) -> nat {
    cards_of_suit(s, suit).len()
}

/// `s` is in strictly ascending card order (so it holds no card twice).
pub open spec fn strictly_ascending(s: Seq<Card>) -> bool {
    forall|i: int, j: int| 0 <= i < j < s.len() ==> #[trigger] s[i].order() < #[trigger] s[j].order()
}

/// No card occurs twice in `s`.
pub open spec fn distinct_cards(s: Seq<Card>) -> bool {
    forall|i: int, j: int| 0 <= i < j < s.len() ==> #[trigger] s[i] != #[trigger] s[j]
}

/// The position of a suit's length in a hand's suit lengths: Spades, Hearts, Diamonds, Clubs.
pub open spec fn length_slot(suit: Suit) -> int {
    3 - suit.rank()
}

/// The key by which suits are ranked for a hand's shape: length first, then the suit.
pub open spec fn shape_key(lengths: Seq<u8>, suit: Suit) -> int {
    lengths[length_slot(suit)] * 4 + suit.rank()
}

/// How many suits rank below `suit` by length (ties broken by suit).
pub open spec fn shape_position(lengths: Seq<u8>, suit: Suit) -> int {
    (if shape_key(lengths, Suit::Clubs) < shape_key(lengths, suit) { 1int } else { 0 })
        + (if shape_key(lengths, Suit::Diamonds) < shape_key(lengths, suit) { 1int } else { 0 })
        + (if shape_key(lengths, Suit::Hearts) < shape_key(lengths, suit) { 1int } else { 0 })
        + (if shape_key(lengths, Suit::Spades) < shape_key(lengths, suit) { 1int } else { 0 })
}

/// The suit at position `k` when the suits are ranked by length (ties broken by suit),
/// position 3 being the longest.
pub open spec fn suit_at_shape_position(lengths: Seq<u8>, k: int) -> Suit {
    if shape_position(lengths, Suit::Clubs) == k {
        Suit::Clubs
    } else if shape_position(lengths, Suit::Diamonds) == k {
        Suit::Diamonds
    } else if shape_position(lengths, Suit::Hearts) == k {
        Suit::Hearts
    } else {
        Suit::Spades
    }
}

/// The shape of a hand with the given suit lengths (Spades, Hearts, Diamonds, Clubs):
/// three suits of four or more cards make a three-suiter; a five-card suit with a four-card
/// suit a two-suiter; a six-card suit a one-suiter; anything else is balanced, possibly
/// with a five-card suit.
pub open spec fn classify(lengths: Seq<u8>) -> HandType {
    let first = suit_at_shape_position(lengths, 3);
    let second = suit_at_shape_position(lengths, 2);
    let third = suit_at_shape_position(lengths, 1);
    let len_of = |s: Suit| lengths[length_slot(s)];
    if len_of(third) >= 4 {
        HandType::ThreeSuiter(first, second, third)
    } else if len_of(first) >= 5 && len_of(second) >= 4 {
        HandType::TwoSuiter(first, second)
    } else if len_of(first) >= 6 {
        HandType::OneSuiter(first)
    } else if len_of(first) == 5 {
        HandType::Balanced(Some(first))
    } else {
        HandType::Balanced(None)
    }
}

/// The length of a suit among the lengths Spades, Hearts, Diamonds, Clubs.
pub open spec fn length_of(lengths: Seq<u8>, suit: Suit) -> int {
    lengths[length_slot(suit)] as int
}

/// `a`, `b`, `c`, `d` are the four suits from the longest to the shortest, a tie going to the
/// higher suit.
pub open spec fn ranked_by_length(lengths: Seq<u8>, a: Suit, b: Suit, c: Suit, d: Suit) -> bool {
    &&& shape_key(lengths, a) > shape_key(lengths, b)
    &&& shape_key(lengths, b) > shape_key(lengths, c)
    &&& shape_key(lengths, c) > shape_key(lengths, d)
}

/// The suits ranked by length take the places of the ranking, from the longest (place 3) down.
proof fn lemma_ranked_places(lengths: Seq<u8>, a: Suit, b: Suit, c: Suit, d: Suit)
    requires
        lengths.len() == 4,
        ranked_by_length(lengths, a, b, c, d),
    ensures
        suit_at_shape_position(lengths, 3) == a,
        suit_at_shape_position(lengths, 2) == b,
        suit_at_shape_position(lengths, 1) == c,
{
    assert(a != b && a != c && a != d && b != c && b != d && c != d);
    assert(shape_position(lengths, a) == 3);
    assert(shape_position(lengths, b) == 2);
    assert(shape_position(lengths, c) == 1);
    assert(shape_position(lengths, d) == 0);
}

/// Any four distinct lengths-keys can be ranked: some order of the four suits runs from the
/// longest to the shortest.
proof fn lemma_some_ranking(lengths: Seq<u8>) -> (r: (Suit, Suit, Suit, Suit))
    requires
        lengths.len() == 4,
    ensures
        ranked_by_length(lengths, r.0, r.1, r.2, r.3),
{
    let a = suit_at_shape_position(lengths, 3);
    let b = suit_at_shape_position(lengths, 2);
    let c = suit_at_shape_position(lengths, 1);
    let d = suit_at_shape_position(lengths, 0);
    assert(shape_key(lengths, Suit::Clubs) != shape_key(lengths, Suit::Diamonds));
    assert(shape_key(lengths, Suit::Clubs) != shape_key(lengths, Suit::Hearts));
    assert(shape_key(lengths, Suit::Clubs) != shape_key(lengths, Suit::Spades));
    assert(shape_key(lengths, Suit::Diamonds) != shape_key(lengths, Suit::Hearts));
    assert(shape_key(lengths, Suit::Diamonds) != shape_key(lengths, Suit::Spades));
    assert(shape_key(lengths, Suit::Hearts) != shape_key(lengths, Suit::Spades));
    (a, b, c, d)
}

/// A hand with a suit of six or more cards and no other suit of four or more is a one-suiter
/// in that suit.
pub proof fn lemma_one_suiter(lengths: Seq<u8>, s: Suit)
    requires
        lengths.len() == 4,
        length_of(lengths, s) >= 6,
        forall|t: Suit| t != s ==> #[trigger] length_of(lengths, t) <= 3,
    ensures
        classify(lengths) == HandType::OneSuiter(s),
{
    let (a, b, c, d) = lemma_some_ranking(lengths);
    lemma_ranked_places(lengths, a, b, c, d);
    assert(length_of(lengths, a) >= 0 && length_of(lengths, b) >= 0);
    if a != s {
        assert(length_of(lengths, a) <= 3);
        assert(shape_key(lengths, s) > shape_key(lengths, a));
        assert(false);
    }
    assert(length_of(lengths, b) <= 3);
    assert(length_of(lengths, c) <= 3);
}

/// A hand with a five-card suit and no other suit of four or more is balanced with that
/// five-card suit.
pub proof fn lemma_balanced_with_five(lengths: Seq<u8>, s: Suit)
    requires
        lengths.len() == 4,
        length_of(lengths, s) == 5,
        forall|t: Suit| t != s ==> #[trigger] length_of(lengths, t) <= 3,
    ensures
        classify(lengths) == HandType::Balanced(Some(s)),
{
    let (a, b, c, d) = lemma_some_ranking(lengths);
    lemma_ranked_places(lengths, a, b, c, d);
    if a != s {
        assert(length_of(lengths, a) <= 3);
        assert(shape_key(lengths, s) > shape_key(lengths, a));
        assert(false);
    }
    assert(length_of(lengths, b) <= 3);
    assert(length_of(lengths, c) <= 3);
}

/// A hand without a suit of five or more and without three suits of four is balanced, with
/// no five-card suit.
pub proof fn lemma_balanced(lengths: Seq<u8>, a: Suit, b: Suit, c: Suit, d: Suit)
    requires
        lengths.len() == 4,
        ranked_by_length(lengths, a, b, c, d),
        length_of(lengths, a) <= 4,
        length_of(lengths, c) <= 3,
    ensures
        classify(lengths) == HandType::Balanced(None),
{
    lemma_ranked_places(lengths, a, b, c, d);
}

/// A hand whose longest suit has five or more cards and whose second suit has four or more,
/// with no third suit of four, is a two-suiter in those two suits, the longer (or, of equal
/// length, the higher) first.
pub proof fn lemma_two_suiter(lengths: Seq<u8>, a: Suit, b: Suit, c: Suit, d: Suit)
    requires
        lengths.len() == 4,
        ranked_by_length(lengths, a, b, c, d),
        length_of(lengths, a) >= 5,
        length_of(lengths, b) >= 4,
        length_of(lengths, c) <= 3,
    ensures
        classify(lengths) == HandType::TwoSuiter(a, b),
{
    lemma_ranked_places(lengths, a, b, c, d);
}

/// A hand with three suits of four or more cards is a three-suiter in them, from the longest
/// (or, of equal length, the highest) down.
pub proof fn lemma_three_suiter(lengths: Seq<u8>, a: Suit, b: Suit, c: Suit, d: Suit)
    requires
        lengths.len() == 4,
        ranked_by_length(lengths, a, b, c, d),
        length_of(lengths, c) >= 4,
    ensures
        classify(lengths) == HandType::ThreeSuiter(a, b, c),
{
    lemma_ranked_places(lengths, a, b, c, d);
}

/// The high card points of one card: Ace 4, King 3, Queen 2, Jack 1.
pub open spec fn card_points(card: Card) -> nat {
    match card.denomination {
        Denomination::Ace => 4,
        Denomination::King => 3,
        Denomination::Queen => 2,
        Denomination::Jack => 1,
        _ => 0,
    }
}

/// The high card points of the cards of `s`.
pub open spec fn points(s: Seq<Card>) -> nat
    decreases s.len(),
{
    if s.len() == 0 {
        0
    } else {
        points(s.drop_last()) + card_points(s.last())
    }
}

/// The high card points of cards are the points of their four suits added up.
pub proof fn lemma_points_by_suit(s: Seq<Card>)
    ensures
        points(s) == points(cards_of_suit(s, Suit::Clubs)) + points(cards_of_suit(s, Suit::Diamonds))
            + points(cards_of_suit(s, Suit::Hearts)) + points(cards_of_suit(s, Suit::Spades)),
    decreases s.len(),
{
    if s.len() > 0 {
        lemma_points_by_suit(s.drop_last());
        let c = s.last();
        let before = cards_of_suit(s.drop_last(), c.suit);
        assert(before.push(c).drop_last() =~= before);
    }
}

/// Swapping two entries of a sequence keeps its set of elements.
proof fn lemma_swap_keeps_set(s: Seq<Card>, i: int, j: int)
    requires
        0 <= i < s.len(),
        0 <= j < s.len(),
    ensures
        s.update(i, s[j]).update(j, s[i]).to_set() == s.to_set(),
        s.update(i, s[j]).update(j, s[i]).len() == s.len(),
{
    let t = s.update(i, s[j]).update(j, s[i]);
    assert forall|x: Card| s.contains(x) implies t.contains(x) by {
        let k = choose|k: int| 0 <= k < s.len() && s[k] == x;
        if k == i {
            assert(t[j] == x);
        } else if k == j {
            assert(t[i] == x);
        } else {
            assert(t[k] == x);
        }
    }
    assert forall|x: Card| t.contains(x) implies s.contains(x) by {
        let k = choose|k: int| 0 <= k < t.len() && t[k] == x;
        if k == j {
            assert(s[i] == x);
        } else if k == i {
            assert(s[j] == x);
        } else {
            assert(s[k] == x);
        }
    }
    assert(t.to_set() =~= s.to_set());
}

/// Counting the cards of a suit one card further.
proof fn lemma_count_suit_step(s: Seq<Card>, i: int, suit: Suit)
    requires
        0 <= i < s.len(),
    ensures
        count_suit(s.take(i + 1), suit) == count_suit(s.take(i), suit) + (if s[i].suit == suit {
            1nat
        } else {
            0
        }),
{
    assert(s.take(i + 1).drop_last() =~= s.take(i));
}

/// Summing the points one card further.
proof fn lemma_points_step(s: Seq<Card>, i: int)
    requires
        0 <= i < s.len(),
    ensures
        points(s.take(i + 1)) == points(s.take(i)) + card_points(s[i]),
{
    assert(s.take(i + 1).drop_last() =~= s.take(i));
}

/// Filtering one card further.
proof fn lemma_cards_of_suit_step(s: Seq<Card>, i: int, suit: Suit)
    requires
        0 <= i < s.len(),
    ensures
        cards_of_suit(s.take(i + 1), suit) == (if s[i].suit == suit {
            cards_of_suit(s.take(i), suit).push(s[i])
        } else {
            cards_of_suit(s.take(i), suit)
        }),
{
    assert(s.take(i + 1).drop_last() =~= s.take(i));
}

/// Every card of the filtered sequence is of the suit, and comes from the sequence.
proof fn lemma_cards_of_suit_members(s: Seq<Card>, suit: Suit)
    ensures
        forall|k: int|
            0 <= k < cards_of_suit(s, suit).len() ==> (#[trigger] cards_of_suit(s, suit)[k]).suit
                == suit && s.contains(cards_of_suit(s, suit)[k]),
    decreases s.len(),
{
    if s.len() > 0 {
        lemma_cards_of_suit_members(s.drop_last(), suit);
        let rest = cards_of_suit(s.drop_last(), suit);
        assert forall|k: int| 0 <= k < rest.len() implies s.contains(#[trigger] rest[k]) by {
            let m = choose|m: int| 0 <= m < s.drop_last().len() && s.drop_last()[m] == rest[k];
            assert(s[m] == rest[k]);
        }
        assert(s[s.len() - 1] == s.last());
    }
}

impl Hand {
    /// The hand's invariant: the cards strictly ascending, the suit lengths counted from them,
    /// the shape classified from the lengths.
    #[verifier::type_invariant]
    pub closed spec fn well_formed(self) -> bool {
        &&& strictly_ascending(self.cards@)
        &&& forall|suit: Suit|
            #![trigger count_suit(self.cards@, suit)]
            self.suit_lengths[length_slot(suit)] == count_suit(self.cards@, suit)
        &&& self.hand_type == classify(self.suit_lengths@)
    }

    /// The cards of the hand, in ascending order.
    pub closed spec fn view(&self) -> Seq<Card> {
        self.cards@
    }

    /// The suit lengths of the hand, in the order Spades, Hearts, Diamonds, Clubs.
    pub closed spec fn lengths(&self) -> Seq<u8> {
        self.suit_lengths@
    }

    /// The shape of the hand.
    pub closed spec fn shape(&self) -> HandType {
        self.hand_type
    }

    /// What every hand satisfies: thirteen cards in strictly ascending order, each suit length
    /// counted from them, and the shape classified from the lengths.
    pub proof fn lemma_well_formed(self)
        requires
            self.well_formed(),
        ensures
            self@.len() == 13,
            strictly_ascending(self@),
            self.lengths().len() == 4,
            forall|suit: Suit|
                #![trigger count_suit(self@, suit)]
                self.lengths()[length_slot(suit)] == count_suit(self@, suit),
            self.shape() == classify(self.lengths()),
    {
    }

    /// Creates a hand from thirteen cards, which it sorts. The cards must be distinct.
    pub fn new(cards: [Card; 13]) -> (hand: Hand)
        requires
            distinct_cards(cards@),
        ensures
            hand@.to_set() == cards@.to_set(),
            strictly_ascending(hand@),
            hand.lengths() == Seq::new(4, |i: int| count_suit(hand@, Suit::of_rank((3 - i) as u8)) as u8),
            hand.shape() == classify(hand.lengths()),
    {
        let mut a = cards;
        let mut k: usize = 0;
        while k < 13
            invariant
                0 <= k <= 13,
                a@.len() == 13,
                a@.to_set() == cards@.to_set(),
                distinct_cards(a@),
                forall|i: int, j: int| 0 <= i < j < k ==> #[trigger] a@[i].order() < #[trigger] a@[j].order(),
                forall|i: int, j: int|
                    0 <= i < k <= j < 13 ==> #[trigger] a@[i].order() < #[trigger] a@[j].order(),
            decreases 13 - k,
        {
            let mut m: usize = k;
            let mut t: usize = k + 1;
            while t < 13
                invariant
                    k < 13,
                    k <= m < 13,
                    k + 1 <= t <= 13,
                    m < t,
                    forall|u: int| k <= u < t ==> a@[m as int].order() <= #[trigger] a@[u].order(),
                decreases 13 - t,
            {
                if a[t].index() < a[m].index() {
                    m = t;
                }
                t = t + 1;
            }
            let ghost before = a@;
            proof {
                lemma_swap_keeps_set(before, k as int, m as int);
                assert forall|u: int| k <= u < 13 && u != m implies before[m as int].order()
                    < #[trigger] before[u].order() by {
                    lemma_card_order_injective(before[m as int], before[u]);
                }
            }
            let tmp = a[k];
            a[k] = a[m];
            a[m] = tmp;
            assert(a@ =~= before.update(k as int, before[m as int]).update(m as int, before[k as int]));
            k = k + 1;
        }
        let mut lengths: [u8; 4] = [0; 4];
        let mut i: usize = 0;
        while i < 13
            invariant
                0 <= i <= 13,
                a@.len() == 13,
                lengths@.len() == 4,
                forall|suit: Suit|
                    #![trigger count_suit(a@.take(i as int), suit)]
                    lengths@[length_slot(suit)] == count_suit(a@.take(i as int), suit),
                forall|j: int| 0 <= j < 4 ==> lengths@[j] <= i,
            decreases 13 - i,
        {
            let ghost old_lengths = lengths@;
            match a[i].suit {
                Suit::Spades => lengths[0] = lengths[0] + 1,
                Suit::Hearts => lengths[1] = lengths[1] + 1,
                Suit::Diamonds => lengths[2] = lengths[2] + 1,
                Suit::Clubs => lengths[3] = lengths[3] + 1,
            }
            assert forall|suit: Suit| #![trigger count_suit(a@.take(i + 1), suit)]
                lengths@[length_slot(suit)] == count_suit(a@.take(i + 1), suit) by {
                lemma_count_suit_step(a@, i as int, suit);
                assert(old_lengths[length_slot(suit)] == count_suit(a@.take(i as int), suit));
            }
            i = i + 1;
        }
        assert(a@.take(13) =~= a@);
        let hand_type = classify_lengths(&lengths);
        let hand = Hand { cards: a, suit_lengths: lengths, hand_type };
        proof {
            assert(hand.lengths() =~= Seq::new(
                4,
                |i: int| count_suit(hand@, Suit::of_rank((3 - i) as u8)) as u8,
            )) by {
                assert(count_suit(a@, Suit::Spades) == lengths@[0]);
                assert(count_suit(a@, Suit::Hearts) == lengths@[1]);
                assert(count_suit(a@, Suit::Diamonds) == lengths@[2]);
                assert(count_suit(a@, Suit::Clubs) == lengths@[3]);
            }
        }
        hand
    }

    /// Reads a hand from its notation, as in "S:AKQ,H:T9,D:8765,C:432": pieces separated by
    /// ',' or line breaks, each a suit (letter or symbol), ':' and the denominations held in
    /// it. White space around a piece's suit and denominations is ignored. A malformed text
    /// gives an error; the text must name thirteen distinct cards if it is well formed, and
    /// must not hold denominations after an empty suit.
    pub fn from_str(string: &str) -> (r: Result<Hand, ()>)
        requires
            readable_hand_text(string@),
        ensures
            r is Err <==> read_hand(string@).unwrap() is Err,
            r is Ok ==> r.unwrap()@.to_set() == read_hand(string@).unwrap()->Ok_0.to_set(),
            r is Ok ==> strictly_ascending(r.unwrap()@),
    {
        let n = string.unicode_len();
        let mut text: Vec<char> = Vec::new();
        let mut i: usize = 0;
        while i < n
            invariant
                0 <= i <= n,
                n == string@.len(),
                text@ == string@.take(i as int),
            decreases n - i,
        {
            text.push(string.get_char(i));
            i = i + 1;
            assert(text@ =~= string@.take(i as int));
        }
        assert(text@ =~= string@);
        let cards = match read_hand_cards(&text) {
            Ok(c) => c,
            Err(e) => {
                return Err(e);
            },
        };
        let arr = first_thirteen(&cards);
        Ok(Hand::new(arr))
    }

    /// The hand written out one line per suit, Spades to Clubs, as in "♠: AKQ\n♥: ...".
    pub fn to_string(&self) -> (text: String)
        ensures
            text@ == hand_text(self@),
    {
        let mut text = String::new();
        self.append_suit_line(&mut text, Suit::Spades);
        self.append_suit_line(&mut text, Suit::Hearts);
        self.append_suit_line(&mut text, Suit::Diamonds);
        self.append_suit_line(&mut text, Suit::Clubs);
        assert(text@ =~= hand_text(self@));
        text
    }

    fn append_suit_line(&self, text: &mut String, suit: Suit)
        ensures
            final(text)@ == old(text)@ + suit_line(self@, suit),
    {
        let symbol = suit.to_string();
        text.append(symbol.as_str());
        proof {
            reveal_strlit(": ");
            reveal_strlit("\n");
        }
        text.append(": ");
        let cards = self.cards_in_rev(suit);
        let ghost start = text@;
        let mut i: usize = 0;
        while i < cards.len()
            invariant
                0 <= i <= cards@.len(),
                text@ == start + cards@.take(i as int).map_values(|c: Card| c.denomination.symbol()),
            decreases cards@.len() - i,
        {
            let d = cards[i].denomination.to_string();
            text.append(d.as_str());
            i = i + 1;
            assert(text@ =~= start + cards@.take(i as int).map_values(
                |c: Card| c.denomination.symbol(),
            ));
        }
        text.append("\n");
        assert(cards@.take(cards@.len() as int) =~= cards@);
        assert(text@ =~= old(text)@ + suit_line(self@, suit));
    }

    /// The cards of the hand, in ascending order.
    pub fn cards(&self) -> (v: Vec<Card>)
        ensures
            v@ == self@,
    {
        let mut v: Vec<Card> = Vec::new();
        let mut i: usize = 0;
        while i < 13
            invariant
                0 <= i <= 13,
                self.cards@.len() == 13,
                v@ == self.cards@.take(i as int),
            decreases 13 - i,
        {
            v.push(self.cards[i]);
            i = i + 1;
            assert(v@ =~= self.cards@.take(i as int));
        }
        assert(self.cards@.take(13) =~= self.cards@);
        v
    }

    /// The cards of the hand, in descending order.
    pub fn cards_rev(&self) -> (v: Vec<Card>)
        ensures
            v@ == self@.reverse(),
    {
        let mut v: Vec<Card> = Vec::new();
        let mut i: usize = 13;
        while i > 0
            invariant
                0 <= i <= 13,
                self.cards@.len() == 13,
                v@ == self.cards@.subrange(i as int, 13).reverse(),
            decreases i,
        {
            i = i - 1;
            v.push(self.cards[i]);
            assert(v@ =~= self.cards@.subrange(i as int, 13).reverse());
        }
        assert(self.cards@.subrange(0, 13) =~= self.cards@);
        v
    }

    /// The cards of the hand in one suit, in ascending order.
    pub fn cards_in(&self, suit: Suit) -> (v: Vec<Card>)
        ensures
            v@ == cards_of_suit(self@, suit),
    {
        let mut v: Vec<Card> = Vec::new();
        let mut i: usize = 0;
        while i < 13
            invariant
                0 <= i <= 13,
                self.cards@.len() == 13,
                v@ == cards_of_suit(self.cards@.take(i as int), suit),
            decreases 13 - i,
        {
            proof {
                lemma_cards_of_suit_step(self.cards@, i as int, suit);
            }
            if self.cards[i].suit == suit {
                v.push(self.cards[i]);
            }
            i = i + 1;
        }
        assert(self.cards@.take(13) =~= self.cards@);
        v
    }

    /// The cards of the hand in one suit, in descending order.
    pub fn cards_in_rev(&self, suit: Suit) -> (v: Vec<Card>)
        ensures
            v@ == cards_of_suit(self@, suit).reverse(),
    {
        let fwd = self.cards_in(suit);
        let n = fwd.len();
        let mut v: Vec<Card> = Vec::new();
        let mut i: usize = n;
        while i > 0
            invariant
                0 <= i <= n,
                n == fwd@.len(),
                v@ == fwd@.subrange(i as int, n as int).reverse(),
            decreases i,
        {
            i = i - 1;
            v.push(fwd[i]);
            assert(v@ =~= fwd@.subrange(i as int, n as int).reverse());
        }
        assert(fwd@.subrange(0, n as int) =~= fwd@);
        v
    }

    /// Whether the hand holds the card.
    pub fn contains(&self, card: &Card) -> (b: bool)
        ensures
            b == self@.contains(*card),
    {
        let mut i: usize = 0;
        while i < 13
            invariant
                0 <= i <= 13,
                self.cards@.len() == 13,
                forall|j: int| 0 <= j < i ==> self.cards@[j] != *card,
            decreases 13 - i,
        {
            if self.cards[i] == *card {
                assert(self.cards@[i as int] == *card);
                return true;
            }
            i = i + 1;
        }
        false
    }

    /// The number of cards the hand holds in a suit.
    pub fn length_in(&self, suit: Suit) -> (n: u8)
        ensures
            n == count_suit(self@, suit),
            n <= 13,
    {
        proof {
            use_type_invariant(self);
            lemma_count_suit_bound(self.cards@, suit);
        }
        match suit {
            Suit::Spades => self.suit_lengths[0],
            Suit::Hearts => self.suit_lengths[1],
            Suit::Diamonds => self.suit_lengths[2],
            Suit::Clubs => self.suit_lengths[3],
        }
    }

    /// The suit lengths in the order Spades, Hearts, Diamonds, Clubs.
    pub fn suit_lengths(&self) -> (l: [u8; 4])
        ensures
            l@ == self.lengths(),
    {
        self.suit_lengths
    }

    /// The shape of the hand.
    pub fn hand_type(&self) -> (t: HandType)
        ensures
            t == self.shape(),
    {
        self.hand_type
    }

    /// The high card points of the hand: Ace 4, King 3, Queen 2, Jack 1.
    pub fn high_card_points(&self) -> (p: u8)
        ensures
            p == points(self@),
    {
        let mut acc: u8 = 0;
        let mut i: usize = 0;
        while i < 13
            invariant
                0 <= i <= 13,
                self.cards@.len() == 13,
                acc == points(self.cards@.take(i as int)),
                acc <= 4 * i,
            decreases 13 - i,
        {
            proof {
                lemma_points_step(self.cards@, i as int);
            }
            acc = acc + match self.cards[i].denomination {
                Denomination::Ace => 4,
                Denomination::King => 3,
                Denomination::Queen => 2,
                Denomination::Jack => 1,
                _ => 0,
            };
            i = i + 1;
        }
        assert(self.cards@.take(13) =~= self.cards@);
        acc
    }
}

/// One line of a hand's text: the suit's symbol, ": ", the denominations held in it
/// (highest first) and a line break.
pub open spec fn suit_line(s: Seq<Card>, suit: Suit) -> Seq<char> {
    seq![suit.symbol(), ':', ' '] + cards_of_suit(s, suit).reverse().map_values(
        |c: Card| c.denomination.symbol(),
    ) + seq!['\n']
}

/// A hand's text: one line per suit, Spades, Hearts, Diamonds, Clubs.
pub open spec fn hand_text(s: Seq<Card>) -> Seq<char> {
    suit_line(s, Suit::Spades) + suit_line(s, Suit::Hearts) + suit_line(s, Suit::Diamonds)
        + suit_line(s, Suit::Clubs)
}

/// The thirteen cards of a sequence of thirteen, as an array.
pub(crate) fn first_thirteen(cards: &Vec<Card>) -> (arr: [Card; 13])
    requires
        cards@.len() == 13,
    ensures
        arr@ == cards@,
{
    let arr: [Card; 13] = [
        cards[0],
        cards[1],
        cards[2],
        cards[3],
        cards[4],
        cards[5],
        cards[6],
        cards[7],
        cards[8],
        cards[9],
        cards[10],
        cards[11],
        cards[12],
    ];
    assert(arr@ =~= cards@);
    arr
}

/// Whether a hand's notation can be read: reading does not fail outright, and if the text is
/// well formed it names thirteen distinct cards.
pub open spec fn readable_hand_text(s: Seq<char>) -> bool {
    &&& read_hand(s) is Some
    &&& read_hand(s).unwrap() is Ok ==> read_hand(s).unwrap()->Ok_0.len() == 13 && distinct_cards(
        read_hand(s).unwrap()->Ok_0,
    )
}

/// The four suits' counts add up to the length of the sequence.
pub proof fn lemma_suit_counts_sum(s: Seq<Card>)
    ensures
        count_suit(s, Suit::Clubs) + count_suit(s, Suit::Diamonds) + count_suit(s, Suit::Hearts)
            + count_suit(s, Suit::Spades) == s.len(),
    decreases s.len(),
{
    if s.len() > 0 {
        lemma_suit_counts_sum(s.drop_last());
    }
}

/// A suit's count never exceeds the length of the sequence.
pub proof fn lemma_count_suit_bound(s: Seq<Card>, suit: Suit)
    ensures
        count_suit(s, suit) <= s.len(),
    decreases s.len(),
{
    if s.len() > 0 {
        lemma_count_suit_bound(s.drop_last(), suit);
    }
}

/// Classifies the shape of a hand from its suit lengths (Spades, Hearts, Diamonds, Clubs).
fn classify_lengths(lengths: &[u8; 4]) -> (t: HandType)
    requires
        forall|j: int| 0 <= j < 4 ==> lengths@[j] <= 13,
    ensures
        t == classify(lengths@),
{
    let key_c = lengths[3] * 4;
    let key_d = lengths[2] * 4 + 1;
    let key_h = lengths[1] * 4 + 2;
    let key_s = lengths[0] * 4 + 3;
    let keys = [key_c, key_d, key_h, key_s];
    let mut pos: [u8; 4] = [0; 4];
    let mut s: usize = 0;
    while s < 4
        invariant
            0 <= s <= 4,
            keys@ == seq![key_c, key_d, key_h, key_s],
            forall|r: int|
                0 <= r < s ==> pos@[r] == (if keys@[0] < keys@[r] { 1int } else { 0 }) + (if keys@[1]
                    < keys@[r] { 1int } else { 0 }) + (if keys@[2] < keys@[r] { 1int } else { 0 })
                    + (if keys@[3] < keys@[r] { 1int } else { 0 }),
        decreases 4 - s,
    {
        let mut p: u8 = 0;
        if keys[0] < keys[s] {
            p = p + 1;
        }
        if keys[1] < keys[s] {
            p = p + 1;
        }
        if keys[2] < keys[s] {
            p = p + 1;
        }
        if keys[3] < keys[s] {
            p = p + 1;
        }
        pos[s] = p;
        s = s + 1;
    }
    let ghost l = lengths@;
    assert(pos@[0] == shape_position(l, Suit::Clubs));
    assert(pos@[1] == shape_position(l, Suit::Diamonds));
    assert(pos@[2] == shape_position(l, Suit::Hearts));
    assert(pos@[3] == shape_position(l, Suit::Spades));
    let first = suit_at(&pos, 3);
    let second = suit_at(&pos, 2);
    let third = suit_at(&pos, 1);
    let len_first = lengths[(3 - first.index()) as usize];
    let len_second = lengths[(3 - second.index()) as usize];
    let len_third = lengths[(3 - third.index()) as usize];
    if len_third >= 4 {
        HandType::ThreeSuiter(first, second, third)
    } else if len_first >= 5 && len_second >= 4 {
        HandType::TwoSuiter(first, second)
    } else if len_first >= 6 {
        HandType::OneSuiter(first)
    } else if len_first == 5 {
        HandType::Balanced(Some(first))
    } else {
        HandType::Balanced(None)
    }
}

/// The suit whose position (given per suit, Clubs to Spades) is `k`.
fn suit_at(pos: &[u8; 4], k: u8) -> (s: Suit)
    ensures
        s == (if pos@[0] == k {
            Suit::Clubs
        } else if pos@[1] == k {
            Suit::Diamonds
        } else if pos@[2] == k {
            Suit::Hearts
        } else {
            Suit::Spades
        }),
{
    if pos[0] == k {
        Suit::Clubs
    } else if pos[1] == k {
        Suit::Diamonds
    } else if pos[2] == k {
        Suit::Hearts
    } else {
        Suit::Spades
    }
}

} // verus!
