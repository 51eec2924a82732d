//! Hand evaluation after the Forum D Plus 2015 system of the German Bridge Association.
//! Values that can be half points are given in half points.
use crate::card::{Card, Denomination, Suit};
use crate::hand::{card_points, cards_of_suit, count_suit, lemma_count_suit_bound, points, Hand};
use vstd::prelude::*;

verus! {

/// The quality of a suit, from weak to standing.
#[derive(Clone, Copy, Debug, PartialEq, Eq, Structural, PartialOrd, Ord)]
pub enum SuitQuality {
    Weak,  // less than acceptable
    Acceptable,  // at least 3 HCP
    Good,  // A or K with mid-values, or two of (A,K,Q), or QJT
    VeryGood,  // two of (A,K,Q) with mid-values; for 7-card suits and longer two of (A,K,Q) suffice
    AlmostStanding,  // 4 of the 5 honors; for a 6-card suit AKQ suffices, for a 7-card suit KQJ
    Standing,  // AKQJ; for 7-card suits and longer AKQ suffices
}

/// The evaluator of the Forum D Plus 2015 system.
#[derive(Debug)]
pub struct ForumDPlus2015Evaluator {}

/// The denominations a hand holds in a suit, highest first.
pub open spec fn holding(s: Seq<Card>, suit: Suit) -> Seq<Denomination> {
    cards_of_suit(s, suit).reverse().map_values(|c: Card| c.denomination)
}

/// 1 if the holding has the denomination, else 0.
pub open spec fn has(h: Seq<Denomination>, d: Denomination) -> int {
    if h.contains(d) {
        1
    } else {
        0
    }
}

/// How many of Ace, King and Queen the holding has.
pub open spec fn top_three(h: Seq<Denomination>) -> int {
    has(h, Denomination::Ace) + has(h, Denomination::King) + has(h, Denomination::Queen)
}

/// How many of the five honors (Ace to Ten) the holding has.
pub open spec fn top_five(h: Seq<Denomination>) -> int {
    top_three(h) + has(h, Denomination::Jack) + has(h, Denomination::Ten)
}

/// The holding starts with the three denominations.
pub open spec fn starts3(h: Seq<Denomination>, a: Denomination, b: Denomination, c: Denomination) -> bool {
    h.len() >= 3 && h[0] == a && h[1] == b && h[2] == c
}

/// The holding has the Jack, or the Ten and the Nine.
pub open spec fn mid_values(h: Seq<Denomination>) -> bool {
    h.contains(Denomination::Jack) || (h.contains(Denomination::Ten) && h.contains(
        Denomination::Nine,
    ))
}

/// The quality of a suit of the hand `s`.
pub open spec fn quality(s: Seq<Card>, suit: Suit) -> SuitQuality {
    let h = holding(s, suit);
    if (h.len() >= 7 && starts3(h, Denomination::Ace, Denomination::King, Denomination::Queen)) || (
    h.len() >= 4 && starts3(h, Denomination::Ace, Denomination::King, Denomination::Queen) && h[3]
        == Denomination::Jack) {
        SuitQuality::Standing
    } else if top_five(h) >= 4 || (h.len() >= 6 && starts3(
        h,
        Denomination::Ace,
        Denomination::King,
        Denomination::Queen,
    )) || (h.len() >= 7 && starts3(h, Denomination::King, Denomination::Queen, Denomination::Jack)) {
        SuitQuality::AlmostStanding
    } else if (top_three(h) >= 2 && (mid_values(h) || h.len() >= 7)) || starts3(
        h,
        Denomination::Ace,
        Denomination::King,
        Denomination::Queen,
    ) {
        SuitQuality::VeryGood
    } else if ((h.contains(Denomination::Ace) || h.contains(Denomination::King)) && mid_values(h))
        || top_three(h) >= 2 || starts3(h, Denomination::Queen, Denomination::Jack, Denomination::Ten) {
        SuitQuality::Good
    } else if points(cards_of_suit(s, suit)) >= 3 {
        SuitQuality::Acceptable
    } else {
        SuitQuality::Weak
    }
}

/// The number of cards of the denomination in `s`.
pub open spec fn count_denomination(s: Seq<Card>, d: Denomination) -> nat
    decreases s.len(),
{
    if s.len() == 0 {
        0
    } else {
        count_denomination(s.drop_last(), d) + if s.last().denomination == d {
            1nat
        } else {
            0
        }
    }
}

/// The adjustment for aces and tens, in half points: -1 without any, -0.5 with one,
/// +1 with three tens or four or more together.
pub open spec fn aces_and_tens_halves(s: Seq<Card>) -> int {
    let tens = count_denomination(s, Denomination::Ten);
    let aces = count_denomination(s, Denomination::Ace);
    if tens == 0 && aces == 0 {
        -2
    } else if (tens == 0 && aces == 1) || (tens == 1 && aces == 0) {
        -1
    } else if tens == 3 {
        2
    } else if tens + aces >= 4 {
        2
    } else {
        0
    }
}

/// -1 for a suit whose honors (Jack or higher) are unguarded: a singleton honor, or a
/// doubleton of two honors.
pub open spec fn unguarded_in(s: Seq<Card>, suit: Suit) -> int {
    let h = holding(s, suit);
    if h.len() == 1 && h[0].rank() >= Denomination::Jack.rank() {
        -1
    } else if h.len() == 2 && h[1].rank() >= Denomination::Jack.rank() {
        -1
    } else {
        0
    }
}

/// The suit's length points: one for each card past the fourth, in a suit with at least 3
/// high card points that is not trumps and not shown long by the opponents.
pub open spec fn length_points_in(
    s: Seq<Card>,
    suit: Suit,
    trump_suit: Option<Suit>,
    shown: Seq<Suit>,
) -> int {
    if trump_suit == Some(suit) || shown.contains(suit) {
        0
    } else if points(cards_of_suit(s, suit)) >= 3 && count_suit(s, suit) > 4 {
        count_suit(s, suit) - 4
    } else {
        0
    }
}

/// Distribution points of a side suit: 3 for a void, 2 for a singleton, 1 for a doubleton.
pub open spec fn shortness_points(s: Seq<Card>, suit: Suit, trump_suit: Suit) -> int {
    if suit == trump_suit {
        0
    } else if count_suit(s, suit) == 0 {
        3
    } else if count_suit(s, suit) == 1 {
        2
    } else if count_suit(s, suit) == 2 {
        1
    } else {
        0
    }
}

/// Trump distribution points: 2 for the ninth trump, 1 for each further one, each card counted
/// once between the partners.
pub open spec fn trump_points(total_length: int, partners_count: int) -> int {
    if partners_count < 9 && total_length == 9 {
        2
    } else if partners_count < 9 && total_length > 9 {
        total_length - 7
    } else if partners_count >= 9 && total_length > 9 {
        total_length - partners_count
    } else {
        0
    }
}

/// The playing tricks of two top cards, in half tricks.
pub open spec fn two_card_tricks(a: Denomination, b: Denomination) -> int {
    match (a, b) {
        (Denomination::Ace, Denomination::King) => 4,
        (Denomination::Ace, Denomination::Queen) => 3,
        (Denomination::Ace, Denomination::Jack) => 3,
        (Denomination::Ace, _) => 2,
        (Denomination::King, Denomination::Queen) => 2,
        (Denomination::King, Denomination::Jack) => 2,
        (Denomination::King, _) => 1,
        _ => 0,
    }
}

/// The playing tricks of three top cards, in half tricks: one trick for each of the honors
/// down to the Ten, less half a trick for each hole, at most as many as the top card allows.
pub open spec fn three_card_tricks(a: Denomination, b: Denomination, c: Denomination) -> int {
    match (a, b, c) {
        (Denomination::Ace, Denomination::King, Denomination::Queen) => 6,
        (Denomination::Ace, Denomination::King, Denomination::Jack) => 5,
        (Denomination::Ace, Denomination::King, _) => 4,
        (Denomination::Ace, Denomination::Queen, Denomination::Jack) => 5,
        (Denomination::Ace, Denomination::Queen, Denomination::Ten) => 4,
        (Denomination::Ace, Denomination::Queen, _) => 3,
        (Denomination::Ace, Denomination::Jack, Denomination::Ten) => 3,
        (Denomination::Ace, _, _) => 2,
        (Denomination::King, Denomination::Queen, Denomination::Jack) => 4,
        (Denomination::King, Denomination::Queen, _) => 3,
        (Denomination::King, Denomination::Jack, Denomination::Ten) => 3,
        (Denomination::King, Denomination::Jack, _) => 2,
        (Denomination::King, _, _) => 1,
        (Denomination::Queen, Denomination::Jack, Denomination::Ten) => 2,
        (Denomination::Queen, Denomination::Jack, _) => 1,
        _ => 0,
    }
}

/// The playing tricks of a suit, in half tricks. At most the first three cards are valued;
/// every further card is a trick, but the fourth card of a four- to six-card suit only half.
pub open spec fn suit_playing_tricks(h: Seq<Denomination>) -> int {
    let l = h.len() as int;
    if l == 0 {
        0
    } else if l == 1 || (11 <= l <= 12) {
        if h[0] == Denomination::Ace {
            2 * l
        } else {
            2 * l - 2
        }
    } else if l == 2 || (9 <= l <= 10) {
        2 * l - 4 + two_card_tricks(h[0], h[1])
    } else if l == 3 || (7 <= l <= 8) {
        2 * l - 6 + three_card_tricks(h[0], h[1], h[2])
    } else if 4 <= l <= 6 {
        2 * l - 7 + three_card_tricks(h[0], h[1], h[2])
    } else {
        26
    }
}

/// The losers of a suit, in half losers: at most three, one less for each of Ace, King and
/// Queen, with half a loser more for a four- to six-card suit without mid-values.
pub open spec fn suit_losers(h: Seq<Denomination>) -> int {
    let l = h.len() as int;
    if l == 1 || (11 <= l <= 12) {
        if h[0] == Denomination::Ace {
            0
        } else {
            2
        }
    } else if l == 2 || (9 <= l <= 10) {
        if h[0] == Denomination::Ace && h[1] == Denomination::King {
            0
        } else if h[0] == Denomination::Ace || h[0] == Denomination::King {
            2
        } else {
            4
        }
    } else if l == 3 || (7 <= l <= 8) {
        6 - 2 * top_three(h)
    } else if 4 <= l <= 6 {
        6 - 2 * top_three(h) + (if mid_values(h) {
            0int
        } else {
            1
        })
    } else {
        0
    }
}

/// The stoppers of a two-card holding, in half stoppers.
pub open spec fn two_card_stoppers(a: Denomination, b: Denomination) -> int {
    match (a, b) {
        (Denomination::Ace, Denomination::King) => 4,
        (Denomination::Ace, _) => 2,
        (Denomination::King, Denomination::Queen) => 2,
        (Denomination::King, _) => 1,
        _ => 0,
    }
}

/// The stoppers of a three-card holding, in half stoppers.
pub open spec fn three_card_stoppers(a: Denomination, b: Denomination, c: Denomination) -> int {
    match (a, b, c) {
        (Denomination::Ace, Denomination::King, Denomination::Queen) => 6,
        (Denomination::Ace, Denomination::King, _) => 4,
        (Denomination::Ace, Denomination::Queen, Denomination::Jack) => 4,
        (Denomination::Ace, Denomination::Queen, _) => 3,
        (Denomination::Ace, Denomination::Jack, Denomination::Ten) => 3,
        (Denomination::Ace, _, _) => 2,
        (Denomination::King, Denomination::Queen, Denomination::Jack) => 4,
        (Denomination::King, Denomination::Queen, _) => 2,
        (Denomination::King, Denomination::Jack, Denomination::Ten) => 2,
        (Denomination::King, _, _) => 1,
        (Denomination::Queen, Denomination::Jack, Denomination::Ten) => 2,
        (Denomination::Queen, Denomination::Jack, _) => 1,
        _ => 0,
    }
}

/// The stoppers of the top four cards of a longer holding, in half stoppers.
pub open spec fn four_card_stoppers(
    a: Denomination,
    b: Denomination,
    c: Denomination,
    d: Denomination,
) -> int {
    match (a, b, c, d) {
        (Denomination::Ace, Denomination::King, Denomination::Queen, Denomination::Jack) => 8,
        (Denomination::Ace, Denomination::King, Denomination::Queen, _) => 6,
        (Denomination::Ace, Denomination::King, Denomination::Jack, Denomination::Ten) => 6,
        (Denomination::Ace, Denomination::King, _, _) => 4,
        (Denomination::Ace, Denomination::Queen, Denomination::Jack, Denomination::Ten) => 6,
        (Denomination::Ace, Denomination::Queen, Denomination::Jack, _) => 4,
        (Denomination::Ace, Denomination::Queen, _, _) => 3,
        (Denomination::Ace, Denomination::Jack, Denomination::Ten, Denomination::Nine) => 3,
        (Denomination::Ace, _, _, _) => 2,
        (Denomination::King, Denomination::Queen, Denomination::Jack, Denomination::Ten) => 6,
        (Denomination::King, Denomination::Queen, Denomination::Jack, _) => 4,
        (Denomination::King, Denomination::Queen, Denomination::Ten, _) => 3,
        (Denomination::King, Denomination::Queen, _, _) => 2,
        (Denomination::King, Denomination::Jack, Denomination::Ten, _) => 2,
        (Denomination::King, _, _, _) => 1,
        (Denomination::Queen, Denomination::Jack, Denomination::Ten, Denomination::Nine) => 4,
        (Denomination::Queen, Denomination::Jack, Denomination::Ten, _) => 2,
        (Denomination::Queen, Denomination::Jack, Denomination::Nine, _) => 1,
        _ => 0,
    }
}

/// The stoppers of a non-empty holding, in half stoppers.
pub open spec fn suit_stoppers(h: Seq<Denomination>) -> int {
    if h.len() == 1 {
        if h.contains(Denomination::Ace) {
            2
        } else {
            0
        }
    } else if h.len() == 2 {
        two_card_stoppers(h[0], h[1])
    } else if h.len() == 3 {
        three_card_stoppers(h[0], h[1], h[2])
    } else {
        four_card_stoppers(h[0], h[1], h[2], h[3])
    }
}

/// `v` is the length of two of the four suits together, and no two suits are longer together.
pub open spec fn is_two_longest(lengths: Seq<int>, v: int) -> bool {
    &&& exists|i: int, j: int| 0 <= i < j < 4 && v == lengths[i] + lengths[j]
    &&& forall|i: int, j: int| 0 <= i < j < 4 ==> lengths[i] + lengths[j] <= v
}

/// The two longest of four suits together: the sum of the two largest lengths.
pub open spec fn two_longest(a: int, b: int, c: int, d: int) -> int {
    choose|v: int| is_two_longest(seq![a, b, c, d], v)
}

/// Only one total is that of the two longest suits.
proof fn lemma_two_longest_is(a: int, b: int, c: int, d: int, v: int)
    requires
        is_two_longest(seq![a, b, c, d], v),
    ensures
        two_longest(a, b, c, d) == v,
{
    let w = two_longest(a, b, c, d);
    assert(is_two_longest(seq![a, b, c, d], w));
    let (i, j) = choose|i: int, j: int| 0 <= i < j < 4 && v == seq![a, b, c, d][i] + seq![a, b, c, d][j];
    let (k, l) = choose|i: int, j: int| 0 <= i < j < 4 && w == seq![a, b, c, d][i] + seq![a, b, c, d][j];
    assert(seq![a, b, c, d][i] + seq![a, b, c, d][j] <= w);
    assert(seq![a, b, c, d][k] + seq![a, b, c, d][l] <= v);
}

/// Whether the holding contains the denomination.
fn holds(h: &Vec<Denomination>, d: Denomination) -> (b: bool)
    ensures
        b == h@.contains(d),
{
    let mut i: usize = 0;
    while i < h.len()
        invariant
            0 <= i <= h@.len(),
            forall|j: int| 0 <= j < i ==> h@[j] != d,
        decreases h@.len() - i,
    {
        if h[i] == d {
            assert(h@[i as int] == d);
            return true;
        }
        i = i + 1;
    }
    false
}

/// 1 if the holding contains the denomination, else 0.
fn has_count(h: &Vec<Denomination>, d: Denomination) -> (n: u8)
    ensures
        n == has(h@, d),
{
    if holds(h, d) {
        1
    } else {
        0
    }
}

/// The holding has the Jack, or the Ten and the Nine.
fn has_mid_values(h: &Vec<Denomination>) -> (b: bool)
    ensures
        b == mid_values(h@),
{
    holds(h, Denomination::Jack) || (holds(h, Denomination::Ten) && holds(h, Denomination::Nine))
}

/// The holding starts with the three denominations.
fn starts_with3(h: &Vec<Denomination>, a: Denomination, b: Denomination, c: Denomination) -> (r: bool)
    ensures
        r == starts3(h@, a, b, c),
{
    h.len() >= 3 && h[0] == a && h[1] == b && h[2] == c
}

impl ForumDPlus2015Evaluator {
    /// The high card points of a card: Ace 4, King 3, Queen 2, Jack 1.
    pub fn card_value(card: &Card) -> (v: u8)
        ensures
            v == card_points(*card),
    {
        match card.denomination {
            Denomination::Ace => 4,
            Denomination::King => 3,
            Denomination::Queen => 2,
            Denomination::Jack => 1,
            _ => 0,
        }
    }

    /// The denominations the hand holds in a suit, highest first.
    pub fn holding(hand: &Hand, suit: Suit) -> (h: Vec<Denomination>)
        ensures
            h@ == holding(hand@, suit),
            h@.len() == count_suit(hand@, suit),
            h@.len() <= 13,
    {
        let cards = hand.cards_in_rev(suit);
        let mut h: Vec<Denomination> = Vec::new();
        let mut i: usize = 0;
        while i < cards.len()
            invariant
                0 <= i <= cards@.len(),
                cards@ == cards_of_suit(hand@, suit).reverse(),
                h@ == cards@.take(i as int).map_values(|c: Card| c.denomination),
            decreases cards@.len() - i,
        {
            h.push(cards[i].denomination);
            i = i + 1;
            assert(h@ =~= cards@.take(i as int).map_values(|c: Card| c.denomination));
        }
        assert(cards@.take(cards@.len() as int) =~= cards@);
        proof {
            use_type_invariant(hand);
            hand.lemma_well_formed();
            lemma_count_suit_bound(hand@, suit);
        }
        h
    }

    /// The high card points of the hand.
    pub fn hcp(hand: &Hand) -> (p: u8)
        ensures
            p == points(hand@),
    {
        hand.high_card_points()
    }

    /// The high card points the hand holds in a suit.
    pub fn hcp_in(hand: &Hand, suit: Suit) -> (p: u8)
        ensures
            p == points(cards_of_suit(hand@, suit)),
    {
        let cards = hand.cards_in(suit);
        let mut acc: u8 = 0;
        let mut i: usize = 0;
        proof {
            use_type_invariant(hand);
            hand.lemma_well_formed();
            lemma_count_suit_bound(hand@, suit);
        }
        while i < cards.len()
            invariant
                0 <= i <= cards@.len(),
                cards@.len() <= 13,
                acc == points(cards@.take(i as int)),
                acc <= 4 * i,
            decreases cards@.len() - i,
        {
            assert(cards@.take(i + 1).drop_last() =~= cards@.take(i as int));
            acc = acc + Self::card_value(&cards[i]);
            i = i + 1;
        }
        assert(cards@.take(cards@.len() as int) =~= cards@);
        acc
    }

    /// The quality of a suit of the hand.
    pub fn suit_quality(hand: &Hand, suit: Suit) -> (q: SuitQuality)
        ensures
            q == quality(hand@, suit),
    {
        let h = Self::holding(hand, suit);
        let n = h.len();
        let akq = starts_with3(&h, Denomination::Ace, Denomination::King, Denomination::Queen);
        // standing suit
        if (n >= 7 && akq) || (n >= 4 && akq && h[3] == Denomination::Jack) {
            return SuitQuality::Standing;
        }
        let top3 = has_count(&h, Denomination::Ace) + has_count(&h, Denomination::King)
            + has_count(&h, Denomination::Queen);
        let top5 = top3 + has_count(&h, Denomination::Jack) + has_count(&h, Denomination::Ten);
        // almost standing suit
        if top5 >= 4 || (n >= 6 && akq) || (n >= 7 && starts_with3(
            &h,
            Denomination::King,
            Denomination::Queen,
            Denomination::Jack,
        )) {
            return SuitQuality::AlmostStanding;
        }
        let mid = has_mid_values(&h);
        // very good suit: two of the top three honors with mid-values or length
        if (top3 >= 2 && (mid || n >= 7)) || akq {
            return SuitQuality::VeryGood;
        }
        // good suit
        if ((holds(&h, Denomination::Ace) || holds(&h, Denomination::King)) && mid) || top3 >= 2
            || starts_with3(&h, Denomination::Queen, Denomination::Jack, Denomination::Ten) {
            return SuitQuality::Good;
        }
        if Self::hcp_in(hand, suit) >= 3 {
            return SuitQuality::Acceptable;
        }
        SuitQuality::Weak
    }

    /// The adjustment for aces and tens, in half points: -1 without any ace or ten, -0.5
    /// with exactly one of them, +1 with three tens or with four or more together.
    pub fn adjustment_aces_and_tens_halves(hand: &Hand) -> (a: i8)
        ensures
            a == aces_and_tens_halves(hand@),
    {
        let cards = hand.cards();
        proof {
            use_type_invariant(hand);
            hand.lemma_well_formed();
        }
        let mut tens: u8 = 0;
        let mut aces: u8 = 0;
        let mut i: usize = 0;
        while i < cards.len()
            invariant
                0 <= i <= cards@.len(),
                cards@ == hand@,
                cards@.len() == 13,
                tens == count_denomination(cards@.take(i as int), Denomination::Ten),
                aces == count_denomination(cards@.take(i as int), Denomination::Ace),
                tens <= i,
                aces <= i,
            decreases cards@.len() - i,
        {
            assert(cards@.take(i + 1).drop_last() =~= cards@.take(i as int));
            if cards[i].denomination == Denomination::Ten {
                tens = tens + 1;
            } else if cards[i].denomination == Denomination::Ace {
                aces = aces + 1;
            }
            i = i + 1;
        }
        assert(cards@.take(13) =~= cards@);
        if tens == 0 && aces == 0 {
            -2
        } else if (tens == 0 && aces == 1) || (tens == 1 && aces == 0) {
            -1
        } else if tens == 3 {
            2
        } else if tens + aces >= 4 {
            2
        } else {
            0
        }
    }

    /// The adjustment for unguarded honors: one point less for each suit that is a singleton
    /// honor (Jack or higher) or a doubleton of two honors.
    pub fn adjustment_unguarded_honors(hand: &Hand) -> (a: i8)
        ensures
            a == unguarded_in(hand@, Suit::Clubs) + unguarded_in(hand@, Suit::Diamonds)
                + unguarded_in(hand@, Suit::Hearts) + unguarded_in(hand@, Suit::Spades),
    {
        Self::unguarded(hand, Suit::Clubs) + Self::unguarded(hand, Suit::Diamonds)
            + Self::unguarded(hand, Suit::Hearts) + Self::unguarded(hand, Suit::Spades)
    }

    fn unguarded(hand: &Hand, suit: Suit) -> (a: i8)
        ensures
            a == unguarded_in(hand@, suit),
            -1 <= a <= 0,
    {
        let h = Self::holding(hand, suit);
        if h.len() == 1 && h[0].index() >= 9 {
            -1
        } else if h.len() == 2 && h[1].index() >= 9 {
            -1
        } else {
            0
        }
    }

    /// The length points of the hand: in each suit with at least 3 high card points that is
    /// not trumps and not shown long by the opponents, one point for each card past the fourth.
    pub fn length_points(
        hand: &Hand,
        trump_suit: Option<Suit>,
        long_suits_shown_by_opponents: &[Suit],
    ) -> (p: u8)
        ensures
            p == length_points_in(hand@, Suit::Clubs, trump_suit, long_suits_shown_by_opponents@)
                + length_points_in(hand@, Suit::Diamonds, trump_suit, long_suits_shown_by_opponents@)
                + length_points_in(hand@, Suit::Hearts, trump_suit, long_suits_shown_by_opponents@)
                + length_points_in(hand@, Suit::Spades, trump_suit, long_suits_shown_by_opponents@),
    {
        let c = Self::length_points_in(hand, Suit::Clubs, trump_suit, long_suits_shown_by_opponents);
        let d = Self::length_points_in(
            hand,
            Suit::Diamonds,
            trump_suit,
            long_suits_shown_by_opponents,
        );
        let h = Self::length_points_in(hand, Suit::Hearts, trump_suit, long_suits_shown_by_opponents);
        let s = Self::length_points_in(hand, Suit::Spades, trump_suit, long_suits_shown_by_opponents);
        proof {
            use_type_invariant(hand);
            hand.lemma_well_formed();
            crate::hand::lemma_suit_counts_sum(hand@);
        }
        c + d + h + s
    }

    fn length_points_in(hand: &Hand, suit: Suit, trump_suit: Option<Suit>, shown: &[Suit]) -> (p: u8)
        ensures
            p == length_points_in(hand@, suit, trump_suit, shown@),
            p <= count_suit(hand@, suit),
    {
        if trump_suit == Some(suit) || suit_listed(shown, suit) {
            return 0;
        }
        let len = hand.length_in(suit);
        if Self::hcp_in(hand, suit) >= 3 && len > 4 {
            len - 4
        } else {
            0
        }
    }

    /// The distribution points of the side suits: 3 for a void, 2 for a singleton, 1 for a
    /// doubleton.
    pub fn side_suit_distribution_points(hand: &Hand, trump_suit: Suit) -> (p: u8)
        ensures
            p == shortness_points(hand@, Suit::Clubs, trump_suit) + shortness_points(
                hand@,
                Suit::Diamonds,
                trump_suit,
            ) + shortness_points(hand@, Suit::Hearts, trump_suit) + shortness_points(
                hand@,
                Suit::Spades,
                trump_suit,
            ),
    {
        Self::shortness(hand, Suit::Clubs, trump_suit) + Self::shortness(
            hand,
            Suit::Diamonds,
            trump_suit,
        ) + Self::shortness(hand, Suit::Hearts, trump_suit) + Self::shortness(
            hand,
            Suit::Spades,
            trump_suit,
        )
    }

    fn shortness(hand: &Hand, suit: Suit, trump_suit: Suit) -> (p: u8)
        ensures
            p == shortness_points(hand@, suit, trump_suit),
            p <= 3,
    {
        if suit == trump_suit {
            return 0;
        }
        match hand.length_in(suit) {
            0 => 3,
            1 => 2,
            2 => 1,
            _ => 0,
        }
    }

    /// The trump distribution points: 2 for the ninth trump card and 1 for each further one,
    /// each card counted once between the partners. The partners' promised counts must not
    /// exceed the trumps held together.
    pub fn trump_distribution_points(
        hand: &Hand,
        trump_suit: Suit,
        partner_promised: u8,
        promised_to_partner: u8,
    ) -> (p: u8)
        requires
            count_suit(hand@, trump_suit) + partner_promised <= 255,
            promised_to_partner + partner_promised <= count_suit(hand@, trump_suit)
                + partner_promised,
        ensures
            p == trump_points(
                count_suit(hand@, trump_suit) + partner_promised,
                promised_to_partner + partner_promised,
            ),
    {
        let total_length = hand.length_in(trump_suit) + partner_promised;
        let partners_count = promised_to_partner + partner_promised;
        if partners_count < 9 && total_length == 9 {
            2
        } else if partners_count < 9 && total_length > 9 {
            total_length - 7
        } else if partners_count >= 9 && total_length > 9 {
            total_length - partners_count
        } else {
            0
        }
    }

    /// The playing trick count of the hand, in half tricks.
    pub fn playing_trick_count_halves(hand: &Hand) -> (t: u8)
        ensures
            t == suit_playing_tricks(holding(hand@, Suit::Clubs)) + suit_playing_tricks(
                holding(hand@, Suit::Diamonds),
            ) + suit_playing_tricks(holding(hand@, Suit::Hearts)) + suit_playing_tricks(
                holding(hand@, Suit::Spades),
            ),
    {
        proof {
            use_type_invariant(hand);
            hand.lemma_well_formed();
            crate::hand::lemma_suit_counts_sum(hand@);
        }
        Self::playing_tricks_in(hand, Suit::Clubs) + Self::playing_tricks_in(hand, Suit::Diamonds)
            + Self::playing_tricks_in(hand, Suit::Hearts) + Self::playing_tricks_in(hand, Suit::Spades)
    }

    fn playing_tricks_in(hand: &Hand, suit: Suit) -> (t: u8)
        ensures
            t == suit_playing_tricks(holding(hand@, suit)),
            t <= 2 * count_suit(hand@, suit),
    {
        let h = Self::holding(hand, suit);
        let l = h.len() as u8;
        if l == 0 {
            0
        } else if l == 1 || (11 <= l && l <= 12) {
            if h[0] == Denomination::Ace {
                2 * l
            } else {
                2 * l - 2
            }
        } else if l == 2 || (9 <= l && l <= 10) {
            2 * l - 4 + two_card_trick_table(h[0], h[1])
        } else if l == 3 || (7 <= l && l <= 8) {
            2 * l - 6 + three_card_trick_table(h[0], h[1], h[2])
        } else if 4 <= l && l <= 6 {
            2 * l - 7 + three_card_trick_table(h[0], h[1], h[2])
        } else {
            26
        }
    }

    /// The losing trick count of the hand, in half losers.
    pub fn losing_trick_count_halves(hand: &Hand) -> (t: u8)
        ensures
            t == suit_losers(holding(hand@, Suit::Clubs)) + suit_losers(
                holding(hand@, Suit::Diamonds),
            ) + suit_losers(holding(hand@, Suit::Hearts)) + suit_losers(
                holding(hand@, Suit::Spades),
            ),
    {
        Self::losers_in(hand, Suit::Clubs) + Self::losers_in(hand, Suit::Diamonds)
            + Self::losers_in(hand, Suit::Hearts) + Self::losers_in(hand, Suit::Spades)
    }

    fn losers_in(hand: &Hand, suit: Suit) -> (t: u8)
        ensures
            t == suit_losers(holding(hand@, suit)),
            t <= 7,
    {
        let h = Self::holding(hand, suit);
        let l = h.len();
        if l == 1 || (11 <= l && l <= 12) {
            if h[0] == Denomination::Ace {
                0
            } else {
                2
            }
        } else if l == 2 || (9 <= l && l <= 10) {
            if h[0] == Denomination::Ace && h[1] == Denomination::King {
                0
            } else if h[0] == Denomination::Ace || h[0] == Denomination::King {
                2
            } else {
                4
            }
        } else if l == 3 || (7 <= l && l <= 8) {
            let top3 = has_count(&h, Denomination::Ace) + has_count(&h, Denomination::King)
                + has_count(&h, Denomination::Queen);
            6 - 2 * top3
        } else if 4 <= l && l <= 6 {
            let top3 = has_count(&h, Denomination::Ace) + has_count(&h, Denomination::King)
                + has_count(&h, Denomination::Queen);
            6 - 2 * top3 + Self::losers_for_midvalues_halves(&h)
        } else {
            0
        }
    }

    /// Half a loser for a holding without the Jack and without both Ten and Nine.
    pub fn losers_for_midvalues_halves(den: &Vec<Denomination>) -> (l: u8)
        ensures
            l == (if mid_values(den@) {
                0int
            } else {
                1
            }),
    {
        if has_mid_values(den) {
            0
        } else {
            1
        }
    }

    /// A first round control: the Ace, or in a suit contract a void with trumps left.
    pub fn first_round_control_in(hand: &Hand, suit: Suit, trump: Option<Suit>) -> (b: bool)
        ensures
            b == (holding(hand@, suit).contains(Denomination::Ace) || (match trump {
                Some(t) => holding(hand@, suit).len() == 0 && count_suit(hand@, t) > 0,
                None => false,
            })),
    {
        let h = Self::holding(hand, suit);
        if holds(&h, Denomination::Ace) {
            return true;
        }
        match trump {
            // in a suit contract voids also act as first round controls
            Some(t) => h.len() == 0 && hand.length_in(t) > 0,
            None => false,
        }
    }

    /// A second round control: the King with at least one more card, or in a suit contract
    /// a singleton with a trump left or a void with two trumps left.
    pub fn second_round_control_in(hand: &Hand, suit: Suit, trump: Option<Suit>) -> (b: bool)
        ensures
            b == ((holding(hand@, suit).len() >= 2 && holding(hand@, suit).contains(
                Denomination::King,
            )) || (match trump {
                Some(t) => (holding(hand@, suit).len() == 0 && count_suit(hand@, t) > 1) || (
                holding(hand@, suit).len() == 1 && count_suit(hand@, t) > 0),
                None => false,
            })),
    {
        let h = Self::holding(hand, suit);
        if h.len() >= 2 && holds(&h, Denomination::King) {
            return true;
        }
        match trump {
            Some(t) => {
                if h.len() == 0 {
                    hand.length_in(t) > 1
                } else if h.len() == 1 {
                    hand.length_in(t) > 0
                } else {
                    false
                }
            },
            None => false,
        }
    }

    /// Whether the hand holds one of the five honors (Ace to Ten) in the suit.
    pub fn honor_in(hand: &Hand, suit: Suit) -> (b: bool)
        ensures
            b == (top_five(holding(hand@, suit)) >= 1),
    {
        let h = Self::holding(hand, suit);
        let n = has_count(&h, Denomination::Ace) + has_count(&h, Denomination::King) + has_count(
            &h,
            Denomination::Queen,
        ) + has_count(&h, Denomination::Jack) + has_count(&h, Denomination::Ten);
        n >= 1
    }

    /// The stoppers the hand holds in a suit it holds cards in, in half stoppers.
    pub fn stoppers_in_halves(hand: &Hand, suit: Suit) -> (s: u8)
        requires
            count_suit(hand@, suit) > 0,
        ensures
            s == suit_stoppers(holding(hand@, suit)),
    {
        let h = Self::holding(hand, suit);
        if h.len() == 1 {
            if holds(&h, Denomination::Ace) {
                2
            } else {
                0
            }
        } else if h.len() == 2 {
            two_card_stopper_table(h[0], h[1])
        } else if h.len() == 3 {
            three_card_stopper_table(h[0], h[1], h[2])
        } else {
            four_card_stopper_table(h[0], h[1], h[2], h[3])
        }
    }

    /// The rule of twenty: the two longest suits and the high card points make 20 or more.
    pub fn rule_of_twenty(hand: &Hand) -> (b: bool)
        ensures
            b == (two_longest(
                count_suit(hand@, Suit::Spades) as int,
                count_suit(hand@, Suit::Hearts) as int,
                count_suit(hand@, Suit::Diamonds) as int,
                count_suit(hand@, Suit::Clubs) as int,
            ) + points(hand@) >= 20),
    {
        let a = hand.length_in(Suit::Spades);
        let b = hand.length_in(Suit::Hearts);
        let c = hand.length_in(Suit::Diamonds);
        let d = hand.length_in(Suit::Clubs);
        let m1 = if a + b >= a + c { a + b } else { a + c };
        let m2 = if m1 >= a + d { m1 } else { a + d };
        let m3 = if m2 >= b + c { m2 } else { b + c };
        let m4 = if m3 >= b + d { m3 } else { b + d };
        let longest_two = if m4 >= c + d { m4 } else { c + d };
        proof {
            let l = seq![a as int, b as int, c as int, d as int];
            assert(forall|i: int, j: int| 0 <= i < j < 4 ==> l[i] + l[j] <= longest_two) by {
                assert(l[0] == a && l[1] == b && l[2] == c && l[3] == d);
            }
            assert(exists|i: int, j: int| 0 <= i < j < 4 && longest_two == l[i] + l[j]) by {
                assert(l[0] == a && l[1] == b && l[2] == c && l[3] == d);
                if longest_two == a + b {
                    assert(longest_two == l[0] + l[1]);
                } else if longest_two == a + c {
                    assert(longest_two == l[0] + l[2]);
                } else if longest_two == a + d {
                    assert(longest_two == l[0] + l[3]);
                } else if longest_two == b + c {
                    assert(longest_two == l[1] + l[2]);
                } else if longest_two == b + d {
                    assert(longest_two == l[1] + l[3]);
                } else {
                    assert(longest_two == l[2] + l[3]);
                }
            }
            lemma_two_longest_is(a as int, b as int, c as int, d as int, longest_two as int);
        }
        longest_two as u16 + Self::hcp(hand) as u16 >= 20
    }

    /// The rule of fifteen: the spades and the high card points make 15 or more.
    pub fn rule_of_fifteen(hand: &Hand) -> (b: bool)
        ensures
            b == (count_suit(hand@, Suit::Spades) + points(hand@) >= 15),
    {
        hand.length_in(Suit::Spades) as u16 + Self::hcp(hand) as u16 >= 15
    }
}

/// Whether the suit is in the list.
fn suit_listed(suits: &[Suit], suit: Suit) -> (b: bool)
    ensures
        b == suits@.contains(suit),
{
    let mut i: usize = 0;
    while i < suits.len()
        invariant
            0 <= i <= suits@.len(),
            forall|j: int| 0 <= j < i ==> suits@[j] != suit,
        decreases suits@.len() - i,
    {
        if suits[i] == suit {
            assert(suits@[i as int] == suit);
            return true;
        }
        i = i + 1;
    }
    false
}

fn two_card_trick_table(a: Denomination, b: Denomination) -> (t: u8)
    ensures
        t == two_card_tricks(a, b),
{
    match (a, b) {
        (Denomination::Ace, Denomination::King) => 4,
        (Denomination::Ace, Denomination::Queen) => 3,
        (Denomination::Ace, Denomination::Jack) => 3,  // this is probably debatable
        (Denomination::Ace, _) => 2,
        (Denomination::King, Denomination::Queen) => 2,
        (Denomination::King, Denomination::Jack) => 2,  // this is probably debatable
        (Denomination::King, _) => 1,
        _ => 0,
    }
}

fn three_card_trick_table(a: Denomination, b: Denomination, c: Denomination) -> (t: u8)
    ensures
        t == three_card_tricks(a, b, c),
{
    match (a, b, c) {
        // headed by the ace: three tricks at most, half a trick less for each hole
        (Denomination::Ace, Denomination::King, Denomination::Queen) => 6,
        (Denomination::Ace, Denomination::King, Denomination::Jack) => 5,
        (Denomination::Ace, Denomination::King, _) => 4,
        (Denomination::Ace, Denomination::Queen, Denomination::Jack) => 5,
        (Denomination::Ace, Denomination::Queen, Denomination::Ten) => 4,
        (Denomination::Ace, Denomination::Queen, _) => 3,
        (Denomination::Ace, Denomination::Jack, Denomination::Ten) => 3,
        (Denomination::Ace, _, _) => 2,
        // headed by the king: two tricks at most
        (Denomination::King, Denomination::Queen, Denomination::Jack) => 4,
        (Denomination::King, Denomination::Queen, _) => 3,
        (Denomination::King, Denomination::Jack, Denomination::Ten) => 3,
        (Denomination::King, Denomination::Jack, _) => 2,
        (Denomination::King, _, _) => 1,
        // headed by the queen: one trick at most
        (Denomination::Queen, Denomination::Jack, Denomination::Ten) => 2,
        (Denomination::Queen, Denomination::Jack, _) => 1,
        _ => 0,
    }
}

fn two_card_stopper_table(a: Denomination, b: Denomination) -> (t: u8)
    ensures
        t == two_card_stoppers(a, b),
{
    match (a, b) {
        (Denomination::Ace, Denomination::King) => 4,
        (Denomination::Ace, _) => 2,
        (Denomination::King, Denomination::Queen) => 2,
        (Denomination::King, _) => 1,
        _ => 0,
    }
}

fn three_card_stopper_table(a: Denomination, b: Denomination, c: Denomination) -> (t: u8)
    ensures
        t == three_card_stoppers(a, b, c),
{
    match (a, b, c) {
        (Denomination::Ace, Denomination::King, Denomination::Queen) => 6,
        (Denomination::Ace, Denomination::King, _) => 4,
        (Denomination::Ace, Denomination::Queen, Denomination::Jack) => 4,
        (Denomination::Ace, Denomination::Queen, _) => 3,
        (Denomination::Ace, Denomination::Jack, Denomination::Ten) => 3,
        (Denomination::Ace, _, _) => 2,
        (Denomination::King, Denomination::Queen, Denomination::Jack) => 4,
        (Denomination::King, Denomination::Queen, _) => 2,
        (Denomination::King, Denomination::Jack, Denomination::Ten) => 2,
        (Denomination::King, _, _) => 1,
        (Denomination::Queen, Denomination::Jack, Denomination::Ten) => 2,
        (Denomination::Queen, Denomination::Jack, _) => 1,
        _ => 0,
    }
}

fn four_card_stopper_table(a: Denomination, b: Denomination, c: Denomination, d: Denomination) -> (t: u8)
    ensures
        t == four_card_stoppers(a, b, c, d),
{
    match (a, b, c, d) {
        (Denomination::Ace, Denomination::King, Denomination::Queen, Denomination::Jack) => 8,
        (Denomination::Ace, Denomination::King, Denomination::Queen, _) => 6,
        (Denomination::Ace, Denomination::King, Denomination::Jack, Denomination::Ten) => 6,
        (Denomination::Ace, Denomination::King, _, _) => 4,
        (Denomination::Ace, Denomination::Queen, Denomination::Jack, Denomination::Ten) => 6,
        (Denomination::Ace, Denomination::Queen, Denomination::Jack, _) => 4,
        (Denomination::Ace, Denomination::Queen, _, _) => 3,
        (Denomination::Ace, Denomination::Jack, Denomination::Ten, Denomination::Nine) => 3,
        (Denomination::Ace, _, _, _) => 2,
        (Denomination::King, Denomination::Queen, Denomination::Jack, Denomination::Ten) => 6,
        (Denomination::King, Denomination::Queen, Denomination::Jack, _) => 4,
        (Denomination::King, Denomination::Queen, Denomination::Ten, _) => 3,
        (Denomination::King, Denomination::Queen, _, _) => 2,
        (Denomination::King, Denomination::Jack, Denomination::Ten, _) => 2,
        (Denomination::King, _, _, _) => 1,
        (Denomination::Queen, Denomination::Jack, Denomination::Ten, Denomination::Nine) => 4,
        (Denomination::Queen, Denomination::Jack, Denomination::Ten, _) => 2,
        (Denomination::Queen, Denomination::Jack, Denomination::Nine, _) => 1,
        _ => 0,
    }
}

/// The denominations of the holding run strictly downwards, as in every hand's holding.
pub open spec fn descending(h: Seq<Denomination>) -> bool {
    forall|i: int, j: int| 0 <= i < j < h.len() ==> #[trigger] h[i].rank() > #[trigger] h[j].rank()
}

/// The first `k` cards of the holding are the Ace, the King, the Queen, ... in an unbroken
/// run: they are `k` sure winners.
pub open spec fn headed_by_top(h: Seq<Denomination>, k: int) -> bool {
    &&& 0 <= k <= h.len()
    &&& forall|i: int| 0 <= i < k ==> #[trigger] h[i].rank() == 12 - i
}

/// A descending holding has the Ace only at its head, and the King only at its head or right
/// after the Ace.
proof fn lemma_descending_heads(h: Seq<Denomination>)
    requires
        descending(h),
    ensures
        h.contains(Denomination::Ace) ==> h[0] == Denomination::Ace,
        h.contains(Denomination::King) ==> h[0] == Denomination::King || (h.len() >= 2
            && h[0] == Denomination::Ace && h[1] == Denomination::King),
        h.contains(Denomination::Queen) && h.len() >= 1 && h[0] != Denomination::Ace && h[0]
            != Denomination::King ==> h[0] == Denomination::Queen,
        h.len() >= 2 ==> h[1] != Denomination::Ace,
        h.len() >= 3 ==> h[2] != Denomination::Ace && h[2] != Denomination::King,
{
    if h.contains(Denomination::Ace) {
        let j = choose|j: int| 0 <= j < h.len() && h[j] == Denomination::Ace;
        if j > 0 {
            assert(h[0].rank() > h[j].rank());
        }
        crate::card::lemma_denomination_rank_bijection(h[0], 12);
    }
    if h.contains(Denomination::King) {
        let j = choose|j: int| 0 <= j < h.len() && h[j] == Denomination::King;
        if j > 1 {
            assert(h[0].rank() > h[1].rank());
            assert(h[1].rank() > h[j].rank());
        }
        if j == 1 {
            assert(h[0].rank() > h[1].rank());
        }
        crate::card::lemma_denomination_rank_bijection(h[0], 12);
    }
    if h.contains(Denomination::Queen) && h.len() >= 1 && h[0] != Denomination::Ace && h[0]
        != Denomination::King {
        let j = choose|j: int| 0 <= j < h.len() && h[j] == Denomination::Queen;
        if j > 0 {
            assert(h[0].rank() > h[j].rank());
        }
        crate::card::lemma_denomination_rank_bijection(h[0], 12);
    }
    if h.len() >= 2 {
        assert(h[0].rank() > h[1].rank());
    }
    if h.len() >= 3 {
        assert(h[0].rank() > h[1].rank());
        assert(h[1].rank() > h[2].rank());
    }
}

/// Losing tricks of short suits: a suit of one, two or three cards has as many losers as
/// cards, less one for each of the Ace, the King (from two cards on) and the Queen (from three
/// cards on) it holds; in half losers. So Ax and Kx are one loser, AK none, xx two.
pub proof fn lemma_short_suit_losers(h: Seq<Denomination>)
    requires
        descending(h),
        1 <= h.len() <= 3,
    ensures
        suit_losers(h) == 2 * (h.len() - has(h, Denomination::Ace) - (if h.len() >= 2 {
            has(h, Denomination::King)
        } else {
            0
        }) - (if h.len() >= 3 {
            has(h, Denomination::Queen)
        } else {
            0
        })),
{
    lemma_descending_heads(h);
    if h.len() == 1 {
        if h[0] == Denomination::Ace {
            assert(h.contains(Denomination::Ace));
        }
    } else if h.len() == 2 {
        if h[0] == Denomination::Ace {
            assert(h.contains(Denomination::Ace));
        }
        if h[0] == Denomination::King || h[1] == Denomination::King {
            assert(h.contains(Denomination::King));
        }
        if h.contains(Denomination::King) && h[0] == Denomination::Ace {
            assert(h[1] == Denomination::King);
        }
    }
}

/// Losing tricks of long suits: with nine or ten cards only the Ace and the King can save a
/// loser (two at most), with eleven or twelve only the Ace (one at most); in half losers.
pub proof fn lemma_long_suit_losers(h: Seq<Denomination>)
    requires
        descending(h),
        9 <= h.len() <= 12,
    ensures
        h.len() <= 10 ==> suit_losers(h) == 4 - 2 * has(h, Denomination::Ace) - 2 * has(
            h,
            Denomination::King,
        ),
        h.len() >= 11 ==> suit_losers(h) == 2 - 2 * has(h, Denomination::Ace),
{
    lemma_descending_heads(h);
    if h[0] == Denomination::Ace {
        assert(h.contains(Denomination::Ace));
    }
    if h[0] == Denomination::King || h[1] == Denomination::King {
        assert(h.contains(Denomination::King));
    }
}

/// A suit never has more than three losers, and no fewer than none; in half losers, half a
/// loser more for a four- to six-card suit without mid-values.
pub proof fn lemma_suit_losers_bounds(h: Seq<Denomination>)
    requires
        descending(h),
    ensures
        0 <= suit_losers(h) <= 7,
        h.len() <= 3 ==> suit_losers(h) <= 2 * h.len(),
{
    lemma_descending_heads(h);
}

/// The playing tricks of a suit count its sure winners: a holding headed by `k` top cards in
/// a row from the Ace (up to three) makes at least `k` tricks; and no suit makes more tricks
/// than it has cards. In half tricks.
pub proof fn lemma_playing_tricks_count_winners(h: Seq<Denomination>, k: int)
    requires
        descending(h),
        0 <= k <= 3,
        headed_by_top(h, k),
    ensures
        2 * k <= suit_playing_tricks(h) <= 2 * h.len(),
{
    lemma_descending_heads(h);
    if k >= 1 {
        assert(h[0].rank() == 12);
        crate::card::lemma_denomination_rank_bijection(h[0], 12);
    }
    if k >= 2 {
        assert(h[1].rank() == 11);
        crate::card::lemma_denomination_rank_bijection(h[1], 11);
    }
    if k >= 3 {
        assert(h[2].rank() == 10);
        crate::card::lemma_denomination_rank_bijection(h[2], 10);
    }
}

/// The stoppers of a suit count its sure winners: a holding headed by `k` top cards in a row
/// from the Ace (up to four) has at least `k` stoppers; and no suit has more stoppers than it
/// has cards, nor more than four. In half stoppers.
pub proof fn lemma_stoppers_count_winners(h: Seq<Denomination>, k: int)
    requires
        descending(h),
        h.len() >= 1,
        0 <= k <= 4,
        headed_by_top(h, k),
    ensures
        2 * k <= suit_stoppers(h),
        suit_stoppers(h) <= 2 * h.len(),
        suit_stoppers(h) <= 8,
{
    lemma_descending_heads(h);
    if k >= 1 {
        assert(h[0].rank() == 12);
        crate::card::lemma_denomination_rank_bijection(h[0], 12);
    }
    if k >= 2 {
        assert(h[1].rank() == 11);
        crate::card::lemma_denomination_rank_bijection(h[1], 11);
    }
    if k >= 3 {
        assert(h[2].rank() == 10);
        crate::card::lemma_denomination_rank_bijection(h[2], 10);
    }
    if k >= 4 {
        assert(h[3].rank() == 9);
        crate::card::lemma_denomination_rank_bijection(h[3], 9);
    }
    if h.len() == 1 && h.contains(Denomination::Ace) {
        assert(h[0] == Denomination::Ace);
    }
    if h.len() == 1 && h[0] == Denomination::Ace {
        assert(h.contains(Denomination::Ace));
    }
}

/// A suit headed by the Queen, the Jack and the Ten (so without Ace or King) is a good suit.
pub proof fn lemma_queen_jack_ten_is_good(s: Seq<Card>, suit: Suit)
    requires
        descending(holding(s, suit)),
        starts3(holding(s, suit), Denomination::Queen, Denomination::Jack, Denomination::Ten),
    ensures
        quality(s, suit) == SuitQuality::Good,
{
    let h = holding(s, suit);
    lemma_descending_heads(h);
    assert(!h.contains(Denomination::Ace));
    assert(!h.contains(Denomination::King));
    assert(h.contains(Denomination::Queen));
    assert(h.contains(Denomination::Jack));
    assert(h.contains(Denomination::Ten));
}

/// The cards of one suit of a hand in strictly ascending order are themselves in strictly
/// ascending order, each of that suit and each a card of the hand.
proof fn lemma_cards_of_suit_ascending(s: Seq<Card>, suit: Suit)
    requires
        crate::hand::strictly_ascending(s),
    ensures
        crate::hand::strictly_ascending(cards_of_suit(s, suit)),
        forall|i: int| 0 <= i < cards_of_suit(s, suit).len() ==> (#[trigger] cards_of_suit(s, suit)[i]).suit == suit,
        forall|i: int| 0 <= i < cards_of_suit(s, suit).len() ==> exists|j: int| 0 <= j < s.len() && s[j] == #[trigger] cards_of_suit(s, suit)[i],
    decreases s.len(),
{
    if s.len() > 0 {
        let t = s.drop_last();
        assert(crate::hand::strictly_ascending(t)) by {
            assert forall|i: int, j: int| 0 <= i < j < t.len() implies #[trigger] t[i].order() < #[trigger] t[j].order() by {
                assert(t[i] == s[i] && t[j] == s[j]);
            }
        }
        lemma_cards_of_suit_ascending(t, suit);
        let rest = cards_of_suit(t, suit);
        if s.last().suit == suit {
            let c = rest.push(s.last());
            assert forall|i: int| 0 <= i < rest.len() implies #[trigger] rest[i].order() < s.last().order() by {
                let j = choose|j: int| 0 <= j < t.len() && t[j] == rest[i];
                assert(s[j] == t[j]);
                assert(s[j].order() < s[s.len() - 1].order());
            }
            assert forall|i: int, j: int| 0 <= i < j < c.len() implies #[trigger] c[i].order() < #[trigger] c[j].order() by {
                if j < rest.len() {
                    assert(c[i] == rest[i] && c[j] == rest[j]);
                } else {
                    assert(c[i] == rest[i]);
                }
            }
            assert forall|i: int| 0 <= i < c.len() implies exists|j: int| 0 <= j < s.len() && s[j] == #[trigger] c[i] by {
                if i < rest.len() {
                    let j = choose|j: int| 0 <= j < t.len() && t[j] == rest[i];
                    assert(s[j] == t[j]);
                } else {
                    assert(s[s.len() - 1] == c[i]);
                }
            }
        } else {
            assert forall|i: int| 0 <= i < rest.len() implies exists|j: int| 0 <= j < s.len() && s[j] == #[trigger] rest[i] by {
                let j = choose|j: int| 0 <= j < t.len() && t[j] == rest[i];
                assert(s[j] == t[j]);
            }
        }
    }
}

/// Every holding of a hand in strictly ascending order runs strictly downwards, so the laws
/// on descending holdings hold of every hand.
pub proof fn lemma_holding_descending(s: Seq<Card>, suit: Suit)
    requires
        crate::hand::strictly_ascending(s),
    ensures
        descending(holding(s, suit)),
{
    lemma_cards_of_suit_ascending(s, suit);
    let c = cards_of_suit(s, suit);
    let h = holding(s, suit);
    let n = c.len() as int;
    assert forall|i: int, j: int| 0 <= i < j < h.len() implies #[trigger] h[i].rank() > #[trigger] h[j].rank() by {
        assert(h[i] == c[n - 1 - i].denomination);
        assert(h[j] == c[n - 1 - j].denomination);
        assert(c[n - 1 - j].order() < c[n - 1 - i].order());
        assert(c[n - 1 - j].suit == suit && c[n - 1 - i].suit == suit);
    }
}

/// The losers of a suit of three to eight cards, in half losers: three, one less for each of
/// the Ace, the King and the Queen it holds, and half a loser more for a four- to six-card
/// suit without the Jack or the Ten and Nine.
pub proof fn lemma_middle_suit_losers(h: Seq<Denomination>)
    requires
        3 <= h.len() <= 8,
    ensures
        suit_losers(h) == 2 * (3 - has(h, Denomination::Ace) - has(h, Denomination::King) - has(
            h,
            Denomination::Queen,
        )) + (if 4 <= h.len() <= 6 && !h.contains(Denomination::Jack) && !(h.contains(
            Denomination::Ten,
        ) && h.contains(Denomination::Nine)) {
            1int
        } else {
            0
        }),
{
}

/// The place of a suit quality in the order from weak (0) to standing (5).
pub open spec fn quality_level(q: SuitQuality) -> int {
    match q {
        SuitQuality::Weak => 0,
        SuitQuality::Acceptable => 1,
        SuitQuality::Good => 2,
        SuitQuality::VeryGood => 3,
        SuitQuality::AlmostStanding => 4,
        SuitQuality::Standing => 5,
    }
}

/// What each quality asks of a suit is enough for it: the Ace, King, Queen and Jack on top,
/// or the Ace, King and Queen on top of seven cards, make a standing suit; four of the five
/// honors, or the Ace, King and Queen on top of six cards, or the King, Queen and Jack on top
/// of seven, at least an almost standing one; two of the Ace, King and Queen with the Jack or
/// the Ten and Nine, or with seven cards, or the three of them, at least a very good one; the
/// Ace or King with the Jack or the Ten and Nine, or two of the Ace, King and Queen, or the
/// Queen, Jack and Ten on top, at least a good one; three high card points at least an
/// acceptable one.
pub proof fn lemma_quality_thresholds(s: Seq<Card>, suit: Suit)
    ensures
        ({
            let h = holding(s, suit);
            let q = quality_level(quality(s, suit));
            let akq = h.len() >= 3 && h[0] == Denomination::Ace && h[1] == Denomination::King
                && h[2] == Denomination::Queen;
            let honors = has(h, Denomination::Ace) + has(h, Denomination::King) + has(
                h,
                Denomination::Queen,
            );
            let mid = h.contains(Denomination::Jack) || (h.contains(Denomination::Ten)
                && h.contains(Denomination::Nine));
            &&& (akq && (h.len() >= 7 || (h.len() >= 4 && h[3] == Denomination::Jack))) ==> q == 5
            &&& (honors + has(h, Denomination::Jack) + has(h, Denomination::Ten) >= 4 || (akq
                && h.len() >= 6) || (h.len() >= 7 && h[0] == Denomination::King && h[1]
                == Denomination::Queen && h[2] == Denomination::Jack)) ==> q >= 4
            &&& ((honors >= 2 && (mid || h.len() >= 7)) || akq) ==> q >= 3
            &&& (((h.contains(Denomination::Ace) || h.contains(Denomination::King)) && mid)
                || honors >= 2 || (h.len() >= 3 && h[0] == Denomination::Queen && h[1]
                == Denomination::Jack && h[2] == Denomination::Ten)) ==> q >= 2
            &&& points(cards_of_suit(s, suit)) >= 3 ==> q >= 1
        }),
{
}

/// Higher cards never make fewer tricks or stoppers: of two doubletons, the one whose cards
/// are each at least as high is worth at least as much. In half tricks and half stoppers.
pub proof fn lemma_two_card_values_monotone(a: Denomination, b: Denomination, c: Denomination, d: Denomination)
    requires
        a.rank() > b.rank(),
        c.rank() > d.rank(),
        a.rank() >= c.rank(),
        b.rank() >= d.rank(),
    ensures
        two_card_tricks(a, b) >= two_card_tricks(c, d),
        two_card_stoppers(a, b) >= two_card_stoppers(c, d),
{
}

/// Of two three-card holdings, the one whose cards are each at least as high is worth at
/// least as many tricks and stoppers. In half tricks and half stoppers.
pub proof fn lemma_three_card_values_monotone(
    a: Denomination,
    b: Denomination,
    c: Denomination,
    d: Denomination,
    e: Denomination,
    f: Denomination,
)
    requires
        a.rank() > b.rank() > c.rank(),
        d.rank() > e.rank() > f.rank(),
        a.rank() >= d.rank(),
        b.rank() >= e.rank(),
        c.rank() >= f.rank(),
    ensures
        three_card_tricks(a, b, c) >= three_card_tricks(d, e, f),
        three_card_stoppers(a, b, c) >= three_card_stoppers(d, e, f),
{
}

} // verus!
