//! A deal: the board number, the vulnerability it brings, and the four hands.
use crate::card::Card;
use crate::deck::{lemma_ordered_deck_holds_each_card_once, ordered_cards, shuffle_cards};
use crate::hand::{distinct_cards, first_thirteen, Hand};
use vstd::prelude::*;

verus! {

/// A deal of the 52 cards into four hands of thirteen.
pub struct Deal {
    deal_number: u8,
    vulnerable: Vulnerable,
    cards: [Hand; 4],
}

/// Which sides are vulnerable on a board.
#[derive(Clone, Copy, Debug, PartialEq, Eq, Structural)]
pub enum Vulnerable {
    Neither,
    NorthSouth,
    EastWest,
    All,
}

/// The four seats at the table, in the order of play.
#[derive(Clone, Copy, Debug, PartialEq, Eq, Structural, PartialOrd, Ord, Hash)]
pub enum PlayerPosition {
    North,
    East,
    South,
    West,
}

impl PlayerPosition {
    /// Position of the seat in the order North (0), East, South, West (3).
    pub open spec fn rank(self) -> u8 {
        match self {
            PlayerPosition::North => 0,
            PlayerPosition::East => 1,
            PlayerPosition::South => 2,
            PlayerPosition::West => 3,
        }
    }

    /// The seat at position `i` of the order North (0) .. West (3).
    pub open spec fn of_rank(i: u8) -> PlayerPosition {
        if i == 0 {
            PlayerPosition::North
        } else if i == 1 {
            PlayerPosition::East
        } else if i == 2 {
            PlayerPosition::South
        } else {
            PlayerPosition::West
        }
    }

    /// Position of the seat in the order North (0), East, South, West (3).
    pub fn index(&self) -> (r: u8)
        ensures
            r == self.rank(),
            r < 4,
    {
        match self {
            PlayerPosition::North => 0,
            PlayerPosition::East => 1,
            PlayerPosition::South => 2,
            PlayerPosition::West => 3,
        }
    }

    /// The seat at position `i` of the order North (0) .. West (3).
    pub fn from_index(i: u8) -> (p: PlayerPosition)
        requires
            i < 4,
        ensures
            p == PlayerPosition::of_rank(i),
            p.rank() == i,
    {
        if i == 0 {
            PlayerPosition::North
        } else if i == 1 {
            PlayerPosition::East
        } else if i == 2 {
            PlayerPosition::South
        } else {
            PlayerPosition::West
        }
    }

    /// The seat `steps` places further round the table (clockwise).
    pub open spec fn turned(self, steps: int) -> PlayerPosition {
        PlayerPosition::of_rank(((self.rank() + steps) % 4) as u8)
    }

    /// The seat `steps` places further round the table (clockwise).
    pub fn after(&self, steps: u8) -> (p: PlayerPosition)
        ensures
            p == self.turned(steps as int),
    {
        PlayerPosition::from_index(((self.index() as u16 + steps as u16) % 4) as u8)
    }

    /// The partner of the seat: the seat across the table.
    pub fn partner(&self) -> (p: PlayerPosition)
        ensures
            p == self.turned(2),
    {
        self.after(2)
    }

    /// Whether two seats are partners or the same seat.
    pub open spec fn same_side(self, other: PlayerPosition) -> bool {
        self.rank() % 2 == other.rank() % 2
    }

    /// Whether two seats are partners or the same seat.
    pub fn same_axis(&self, other: &PlayerPosition) -> (b: bool)
        ensures
            b == self.same_side(*other),
    {
        self.index() % 2 == other.index() % 2
    }
}

/// The vulnerability of a board, by the pattern that repeats every sixteen boards:
/// None, North-South, East-West, All, shifted by one place every four boards.
pub open spec fn vulnerability(deal_number: u8) -> Vulnerable {
    let v = deal_number - 1;
    let vul = v + v / 4;
    if vul % 4 == 0 {
        Vulnerable::Neither
    } else if vul % 4 == 1 {
        Vulnerable::NorthSouth
    } else if vul % 4 == 2 {
        Vulnerable::EastWest
    } else {
        Vulnerable::All
    }
}

/// The vulnerability repeats every sixteen boards.
pub proof fn lemma_vulnerability_period(deal_number: u8)
    requires
        1 <= deal_number,
        deal_number + 16 <= 205,
    ensures
        vulnerability((deal_number + 16) as u8) == vulnerability(deal_number),
{
}

/// Draws a random byte (rand's `random::<u8>()` on the thread's generator). Nothing is
/// stated of the result: any byte can come.
#[verifier::external_body]
fn random_byte() -> u8 {
    rand::random::<u8>()
}

/// Some hand of the four holds the card.
pub open spec fn held_by_some_hand(hands: Seq<Hand>, c: Card) -> bool {
    exists|p: int| 0 <= p < 4 && #[trigger] hands[p]@.contains(c)
}

/// Every card lies in exactly one of the four hands.
pub open spec fn partitions_all_cards(hands: Seq<Hand>) -> bool {
    &&& hands.len() == 4
    &&& forall|c: Card| #[trigger] held_by_some_hand(hands, c)
    &&& forall|c: Card, p: int, q: int|
        0 <= p < q < 4 && #[trigger] hands[p]@.contains(c) ==> !#[trigger] hands[q]@.contains(c)
}

/// Where in the shuffled deck the hand of the seat at position `p` starts: North gets the
/// last thirteen cards, then East, South and West.
pub open spec fn dealt_from(p: int) -> int {
    39 - 13 * p
}

/// Thirteen consecutive cards of a shuffled deck, as a hand.
fn hand_from(cards: &Vec<Card>, lo: usize) -> (hand: Hand)
    requires
        cards@.len() == 52,
        lo + 13 <= 52,
        cards@.no_duplicates(),
    ensures
        hand@.to_set() == cards@.subrange(lo as int, lo + 13).to_set(),
{
    let mut part: Vec<Card> = Vec::new();
    let mut i: usize = lo;
    while i < lo + 13
        invariant
            lo <= i <= lo + 13 <= 52,
            cards@.len() == 52,
            part@ == cards@.subrange(lo as int, i as int),
        decreases lo + 13 - i,
    {
        part.push(cards[i]);
        i = i + 1;
        assert(part@ =~= cards@.subrange(lo as int, i as int));
    }
    let arr = first_thirteen(&part);
    assert forall|a: int, b: int| 0 <= a < b < 13 implies #[trigger] arr@[a] != #[trigger] arr@[b] by {
        assert(arr@[a] == cards@[lo + a]);
        assert(arr@[b] == cards@[lo + b]);
    }
    Hand::new(arr)
}

impl Deal {
    /// The number of the board.
    pub closed spec fn number(&self) -> u8 {
        self.deal_number
    }

    /// The vulnerability of the board.
    pub closed spec fn vulnerable_sides(&self) -> Vulnerable {
        self.vulnerable
    }

    /// The hands, North, East, South, West.
    pub closed spec fn view(&self) -> Seq<Hand> {
        self.cards@
    }

    /// A random deal: a random board number from 1 to 32 and randomly dealt cards.
    pub fn new() -> (deal: Deal)
        ensures
            1 <= deal.number() <= 32,
            deal.vulnerable_sides() == vulnerability(deal.number()),
            partitions_all_cards(deal@),
    {
        let deal_number = (random_byte() % 32) + 1;
        Self::new_from_number(deal_number)
    }

    /// A deal of the given board number, its cards dealt at random: North gets the last
    /// thirteen cards of the shuffled deck, then East, South and West.
    pub fn new_from_number(deal_number: u8) -> (deal: Deal)
        requires
            1 <= deal_number <= 205,
        ensures
            deal.number() == deal_number,
            deal.vulnerable_sides() == vulnerability(deal_number),
            partitions_all_cards(deal@),
    {
        let mut cards_vec = ordered_cards();
        let ghost ordered = cards_vec@;
        shuffle_cards(&mut cards_vec);
        proof {
            lemma_ordered_deck_holds_each_card_once(ordered);
            ordered.lemma_multiset_has_no_duplicates();
            cards_vec@.lemma_multiset_has_no_duplicates_conv();
            ordered.to_multiset_ensures();
            cards_vec@.to_multiset_ensures();
            assert forall|c: Card| #[trigger] cards_vec@.contains(c) by {
                assert(ordered.contains(c));
                assert(ordered.to_multiset().count(c) > 0);
                assert(cards_vec@.to_multiset().count(c) > 0);
            }
            cards_vec@.to_multiset_ensures();
            ordered.to_multiset_ensures();
        }
        let deal = Self::deal_out(deal_number, &cards_vec);
        proof {
            let s = cards_vec@;
            assert forall|c: Card| #[trigger] held_by_some_hand(deal@, c) by {
                assert(s.contains(c));
                let i = choose|i: int| 0 <= i < 52 && s[i] == c;
                let p = if i >= 39 {
                    0
                } else if i >= 26 {
                    1
                } else if i >= 13 {
                    2
                } else {
                    3
                };
                assert(dealt_from(p) <= i < dealt_from(p) + 13);
                assert(deal@[p]@.contains(c));
            }
            assert forall|c: Card, p: int, q: int|
                0 <= p < q < 4 && #[trigger] deal@[p]@.contains(c) implies !#[trigger] deal@[q]@.contains(
                c,
            ) by {
                let i = choose|i: int| dealt_from(p) <= i < dealt_from(p) + 13 && s[i] == c;
                if deal@[q]@.contains(c) {
                    let j = choose|j: int| dealt_from(q) <= j < dealt_from(q) + 13 && s[j] == c;
                    assert(s[i] == s[j]);
                }
            }
        }
        deal
    }

    /// The deal of the given board number from a shuffled deck of 52 cards: North gets the
    /// last thirteen cards (positions 39 to 51), East positions 26 to 38, South 13 to 25 and
    /// West the first thirteen.
    pub fn deal_out(deal_number: u8, cards_vec: &Vec<Card>) -> (deal: Deal)
        requires
            1 <= deal_number <= 205,
            cards_vec@.len() == 52,
            cards_vec@.no_duplicates(),
        ensures
            deal.number() == deal_number,
            deal.vulnerable_sides() == vulnerability(deal_number),
            deal@.len() == 4,
            forall|p: int| 0 <= p < 4 ==> #[trigger] deal@[p]@.to_set() == cards_vec@.subrange(
                dealt_from(p),
                dealt_from(p) + 13,
            ).to_set(),
            forall|p: int, c: Card| 0 <= p < 4 ==> (#[trigger] deal@[p]@.contains(c) <==> (exists|
                i: int,
            | dealt_from(p) <= i < dealt_from(p) + 13 && cards_vec@[i] == c)),
    {
        let vulnerable = Self::calculate_vulnerability(deal_number);
        let north = hand_from(cards_vec, 39);
        let east = hand_from(cards_vec, 26);
        let south = hand_from(cards_vec, 13);
        let west = hand_from(cards_vec, 0);
        let cards = [north, east, south, west];
        let deal = Deal { deal_number, vulnerable, cards };
        proof {
            let s = cards_vec@;
            assert forall|p: int, c: Card| 0 <= p < 4 implies (deal@[p]@.contains(c) <==> (exists|
                i: int,
            | dealt_from(p) <= i < dealt_from(p) + 13 && s[i] == c)) by {
                assert(deal@[p]@.to_set() == s.subrange(dealt_from(p), dealt_from(p) + 13).to_set());
                assert(deal@[p]@.to_set().contains(c) == deal@[p]@.contains(c));
                if deal@[p]@.contains(c) {
                    assert(s.subrange(dealt_from(p), dealt_from(p) + 13).contains(c));
                    let sub = s.subrange(dealt_from(p), dealt_from(p) + 13);
                    let k = choose|k: int| 0 <= k < 13 && #[trigger] sub[k] == c;
                    assert(s[dealt_from(p) + k] == c);
                }
                if exists|i: int| dealt_from(p) <= i < dealt_from(p) + 13 && s[i] == c {
                    let i = choose|i: int| dealt_from(p) <= i < dealt_from(p) + 13 && s[i] == c;
                    assert(s.subrange(dealt_from(p), dealt_from(p) + 13)[i - dealt_from(p)] == c);
                    assert(s.subrange(dealt_from(p), dealt_from(p) + 13).to_set().contains(c));
                }
            }
        }
        deal
    }

    /// The vulnerability of a board number (board numbers start at 1; from 206 on the
    /// computation overflows a byte).
    pub fn calculate_vulnerability(deal_number: u8) -> (v: Vulnerable)
        requires
            1 <= deal_number <= 205,
        ensures
            v == vulnerability(deal_number),
    {
        let v = deal_number - 1;
        let vul = v + v / 4;
        match vul % 4 {
            0 => Vulnerable::Neither,
            1 => Vulnerable::NorthSouth,
            2 => Vulnerable::EastWest,
            _ => Vulnerable::All,
        }
    }

    /// The number of the board.
    pub fn deal_number(&self) -> (n: u8)
        ensures
            n == self.number(),
    {
        self.deal_number
    }

    /// The vulnerability of the board.
    pub fn vulnerable(&self) -> (v: Vulnerable)
        ensures
            v == self.vulnerable_sides(),
    {
        self.vulnerable
    }

    /// The hand of a seat.
    pub fn hand_of(&self, position: PlayerPosition) -> (h: Hand)
        ensures
            h == self@[position.rank() as int],
    {
        self.cards[position.index() as usize]
    }

    /// The four hands: North, East, South, West.
    pub fn hands(&self) -> (h: [Hand; 4])
        ensures
            h@ == self@,
    {
        self.cards
    }
}

} // verus!
