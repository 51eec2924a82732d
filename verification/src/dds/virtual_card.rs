//! Relative ("virtual") ranks: the rank of a card among the cards of its suit still in play.
//! The highest card still in play is the virtual Ace, the next the virtual King, and so on.
use crate::card::{Denomination, Suit};
use vstd::prelude::*;
use vstd::string::StrSliceExecFns;

verus! {

/// A rank among the cards of a suit still in play, from lowest to highest.
#[derive(Clone, Copy, Debug, PartialEq, Eq, Structural, PartialOrd, Ord, Hash)]
pub enum VirtualRank {
    Two,
    Three,
    Four,
    Five,
    Six,
    Seven,
    Eight,
    Nine,
    Ten,
    Jack,
    Queen,
    King,
    Ace,
}

/// The virtual ranks from lowest to highest.
pub const VIRTUAL_RANKS: [VirtualRank; 13] = [
    VirtualRank::Two,
    VirtualRank::Three,
    VirtualRank::Four,
    VirtualRank::Five,
    VirtualRank::Six,
    VirtualRank::Seven,
    VirtualRank::Eight,
    VirtualRank::Nine,
    VirtualRank::Ten,
    VirtualRank::Jack,
    VirtualRank::Queen,
    VirtualRank::King,
    VirtualRank::Ace,
];

impl VirtualRank {
    /// Position of the rank in the order Two (0) .. Ace (12).
    pub open spec fn rank(self) -> u8 {
        match self {
            VirtualRank::Two => 0,
            VirtualRank::Three => 1,
            VirtualRank::Four => 2,
            VirtualRank::Five => 3,
            VirtualRank::Six => 4,
            VirtualRank::Seven => 5,
            VirtualRank::Eight => 6,
            VirtualRank::Nine => 7,
            VirtualRank::Ten => 8,
            VirtualRank::Jack => 9,
            VirtualRank::Queen => 10,
            VirtualRank::King => 11,
            VirtualRank::Ace => 12,
        }
    }

    /// The rank at position `i` of the order Two (0) .. Ace (12).
    pub open spec fn of_rank(i: u8) -> VirtualRank {
        if i == 0 {
            VirtualRank::Two
        } else if i == 1 {
            VirtualRank::Three
        } else if i == 2 {
            VirtualRank::Four
        } else if i == 3 {
            VirtualRank::Five
        } else if i == 4 {
            VirtualRank::Six
        } else if i == 5 {
            VirtualRank::Seven
        } else if i == 6 {
            VirtualRank::Eight
        } else if i == 7 {
            VirtualRank::Nine
        } else if i == 8 {
            VirtualRank::Ten
        } else if i == 9 {
            VirtualRank::Jack
        } else if i == 10 {
            VirtualRank::Queen
        } else if i == 11 {
            VirtualRank::King
        } else {
            VirtualRank::Ace
        }
    }

    /// Position of the rank in the order Two (0) .. Ace (12).
    pub fn index(&self) -> (r: u8)
        ensures
            r == self.rank(),
            r < 13,
    {
        match self {
            VirtualRank::Two => 0,
            VirtualRank::Three => 1,
            VirtualRank::Four => 2,
            VirtualRank::Five => 3,
            VirtualRank::Six => 4,
            VirtualRank::Seven => 5,
            VirtualRank::Eight => 6,
            VirtualRank::Nine => 7,
            VirtualRank::Ten => 8,
            VirtualRank::Jack => 9,
            VirtualRank::Queen => 10,
            VirtualRank::King => 11,
            VirtualRank::Ace => 12,
        }
    }

    /// The rank at position `i` of the order Two (0) .. Ace (12).
    pub fn from_index(i: u8) -> (r: VirtualRank)
        requires
            i < 13,
        ensures
            r == VirtualRank::of_rank(i),
            r.rank() == i,
    {
        VIRTUAL_RANKS[i as usize]
    }

    /// The rank a character stands for ('A', 'K', 'Q', 'J', 'T', '9' .. '2'), if any.
    pub open spec fn parse(c: char) -> Option<VirtualRank> {
        match Denomination::parse(c) {
            Some(d) => Some(VirtualRank::of_rank(d.rank())),
            None => None,
        }
    }

    /// Parses the character that stands for a rank ('A', 'K', 'Q', 'J', 'T', '9' .. '2').
    pub fn from_char(char: &char) -> (r: Result<VirtualRank, ()>)
        ensures
            r == (match VirtualRank::parse(*char) {
                Some(v) => Ok(v),
                None => Err(()),
            }),
    {
        match Denomination::from_char(char) {
            Ok(d) => Ok(VirtualRank::from_index(d.index())),
            Err(e) => Err(e),
        }
    }

    /// Whether two ranks are next to each other.
    pub fn touches(&self, other: &VirtualRank) -> (b: bool)
        ensures
            b == (self.rank() + 1 == other.rank() || other.rank() + 1 == self.rank()),
    {
        let a = self.index();
        let b = other.index();
        a + 1 == b || b + 1 == a
    }
}

/// A card given by its suit and its virtual rank.
#[derive(Copy, Clone, Eq, PartialOrd, PartialEq, Ord, Debug, Structural)]
pub struct VirtualCard {
    pub suit: Suit,
    pub rank: VirtualRank,
}

impl VirtualCard {
    /// Whether the two cards are of the same suit and next to each other in it: holding both
    /// is as good as holding either.
    pub fn touches(&self, other: &Self) -> (b: bool)
        ensures
            b == (self.suit == other.suit && (self.rank.rank() + 1 == other.rank.rank()
                || other.rank.rank() + 1 == self.rank.rank())),
    {
        if self.suit == other.suit {
            self.rank.touches(&other.rank)
        } else {
            false
        }
    }

    /// The card written as two characters, its suit then its rank ("CA", "♠T"), if they name one.
    pub open spec fn parse(s: Seq<char>) -> Result<VirtualCard, ()> {
        if s.len() != 2 {
            Err(())
        } else {
            match Suit::parse(s[0]) {
                None => Err(()),
                Some(suit) => match VirtualRank::parse(s[1]) {
                    None => Err(()),
                    Some(rank) => Ok(VirtualCard { suit, rank }),
                },
            }
        }
    }

    fn split_string(string: &str) -> (r: Result<[char; 2], ()>)
        ensures
            match r {
                Ok(chars) => string@.len() == 2 && chars@ == string@,
                Err(_) => string@.len() != 2,
            },
    {
        if string.unicode_len() != 2 {
            return Err(());
        }
        let chars = [string.get_char(0), string.get_char(1)];
        proof {
            assert(chars@ =~= string@);
        }
        Ok(chars)
    }

    /// Parses a card written as its suit then its rank ("CA", "♠T").
    pub fn from_str(string: &str) -> (r: Result<VirtualCard, ()>)
        ensures
            r == VirtualCard::parse(string@),
    {
        let chars = match Self::split_string(string) {
            Ok(chars) => chars,
            Err(e) => return Err(e),
        };
        let suit = match Suit::from_char(&chars[0]) {
            Ok(suit) => suit,
            Err(e) => return Err(e),
        };
        let rank = match VirtualRank::from_char(&chars[1]) {
            Ok(rank) => rank,
            Err(e) => return Err(e),
        };
        Ok(VirtualCard { suit, rank })
    }

    /// Position of the card in the order of suits, then ranks.
    pub open spec fn order(self) -> int {
        self.suit.rank() * 13 + self.rank.rank()
    }
}

/// The virtual rank with the same position as a denomination.
pub open spec fn virtual_of(d: Denomination) -> VirtualRank {
    VirtualRank::of_rank(d.rank())
}

} // verus!
