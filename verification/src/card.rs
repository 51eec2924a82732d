//! Playing cards: suits, denominations (ranks) and cards.
use vstd::prelude::*;
use vstd::string::StrSliceExecFns;
use vstd::string::StringExecFns;

verus! {

/// A playing card. Cards are ordered by suit first, then by denomination.
#[derive(Clone, Copy, Debug, PartialEq, Eq, Structural, PartialOrd, Ord, Hash)]
pub struct Card {
    pub suit: Suit,
    pub denomination: Denomination,
}

/// The thirteen denominations, from lowest to highest.
#[derive(Clone, Copy, Debug, PartialEq, Eq, Structural, PartialOrd, Ord, Hash)]
pub enum Denomination {
    Two,
    Three,
    Four,
    Five,
    Six,
    Seven,
    Eight,
    Nine,
    Ten,
    Jack,
    Queen,
    King,
    Ace,
}

/// The four suits, from lowest to highest.
#[derive(Clone, Copy, Debug, PartialEq, Eq, Structural, PartialOrd, Ord, Hash)]
pub enum Suit {
    Clubs,
    Diamonds,
    Hearts,
    Spades,
}

/// The number of denominations in a suit.
pub const N_RANKS: u8 = 13;

/// The denominations from lowest to highest, as their position in the order.
pub const DENOMINATIONS: [Denomination; 13] = [
    Denomination::Two,
    Denomination::Three,
    Denomination::Four,
    Denomination::Five,
    Denomination::Six,
    Denomination::Seven,
    Denomination::Eight,
    Denomination::Nine,
    Denomination::Ten,
    Denomination::Jack,
    Denomination::Queen,
    Denomination::King,
    Denomination::Ace,
];

/// The suits from lowest to highest.
pub const SUITS: [Suit; 4] = [Suit::Clubs, Suit::Diamonds, Suit::Hearts, Suit::Spades];

impl Denomination {
    /// Position of the denomination in the order Two (0) .. Ace (12).
    pub open spec fn rank(self) -> u8 {
        match self {
            Denomination::Two => 0,
            Denomination::Three => 1,
            Denomination::Four => 2,
            Denomination::Five => 3,
            Denomination::Six => 4,
            Denomination::Seven => 5,
            Denomination::Eight => 6,
            Denomination::Nine => 7,
            Denomination::Ten => 8,
            Denomination::Jack => 9,
            Denomination::Queen => 10,
            Denomination::King => 11,
            Denomination::Ace => 12,
        }
    }

    /// The denomination at position `i` of the order Two (0) .. Ace (12).
    pub open spec fn of_rank(i: u8) -> Denomination {
        if i == 0 {
            Denomination::Two
        } else if i == 1 {
            Denomination::Three
        } else if i == 2 {
            Denomination::Four
        } else if i == 3 {
            Denomination::Five
        } else if i == 4 {
            Denomination::Six
        } else if i == 5 {
            Denomination::Seven
        } else if i == 6 {
            Denomination::Eight
        } else if i == 7 {
            Denomination::Nine
        } else if i == 8 {
            Denomination::Ten
        } else if i == 9 {
            Denomination::Jack
        } else if i == 10 {
            Denomination::Queen
        } else if i == 11 {
            Denomination::King
        } else {
            Denomination::Ace
        }
    }

    /// The character that stands for the denomination.
    pub open spec fn symbol(self) -> char {
        match self {
            Denomination::Ace => 'A',
            Denomination::King => 'K',
            Denomination::Queen => 'Q',
            Denomination::Jack => 'J',
            Denomination::Ten => 'T',
            Denomination::Nine => '9',
            Denomination::Eight => '8',
            Denomination::Seven => '7',
            Denomination::Six => '6',
            Denomination::Five => '5',
            Denomination::Four => '4',
            Denomination::Three => '3',
            Denomination::Two => '2',
        }
    }

    /// The denomination a character stands for, if any.
    pub open spec fn parse(c: char) -> Option<Denomination> {
        if c == 'A' {
            Some(Denomination::Ace)
        } else if c == 'K' {
            Some(Denomination::King)
        } else if c == 'Q' {
            Some(Denomination::Queen)
        } else if c == 'J' {
            Some(Denomination::Jack)
        } else if c == 'T' {
            Some(Denomination::Ten)
        } else if c == '9' {
            Some(Denomination::Nine)
        } else if c == '8' {
            Some(Denomination::Eight)
        } else if c == '7' {
            Some(Denomination::Seven)
        } else if c == '6' {
            Some(Denomination::Six)
        } else if c == '5' {
            Some(Denomination::Five)
        } else if c == '4' {
            Some(Denomination::Four)
        } else if c == '3' {
            Some(Denomination::Three)
        } else if c == '2' {
            Some(Denomination::Two)
        } else {
            None
        }
    }

    /// Position of the denomination in the order Two (0) .. Ace (12).
    pub fn index(&self) -> (r: u8)
        ensures
            r == self.rank(),
            r < 13,
    {
        match self {
            Denomination::Two => 0,
            Denomination::Three => 1,
            Denomination::Four => 2,
            Denomination::Five => 3,
            Denomination::Six => 4,
            Denomination::Seven => 5,
            Denomination::Eight => 6,
            Denomination::Nine => 7,
            Denomination::Ten => 8,
            Denomination::Jack => 9,
            Denomination::Queen => 10,
            Denomination::King => 11,
            Denomination::Ace => 12,
        }
    }

    /// The denomination at position `i` of the order Two (0) .. Ace (12).
    pub fn from_index(i: u8) -> (d: Denomination)
        requires
            i < 13,
        ensures
            d == Denomination::of_rank(i),
            d.rank() == i,
    {
        DENOMINATIONS[i as usize]
    }

    /// Parses the character that stands for a denomination ('A', 'K', 'Q', 'J', 'T', '9' .. '2').
    pub fn from_char(char: &char) -> (r: Result<Denomination, ()>)
        ensures
            r == (match Denomination::parse(*char) {
                Some(d) => Ok(d),
                None => Err(()),
            }),
    {
        match *char {
            'A' => Ok(Denomination::Ace),
            'K' => Ok(Denomination::King),
            'Q' => Ok(Denomination::Queen),
            'J' => Ok(Denomination::Jack),
            'T' => Ok(Denomination::Ten),
            '9' => Ok(Denomination::Nine),
            '8' => Ok(Denomination::Eight),
            '7' => Ok(Denomination::Seven),
            '6' => Ok(Denomination::Six),
            '5' => Ok(Denomination::Five),
            '4' => Ok(Denomination::Four),
            '3' => Ok(Denomination::Three),
            '2' => Ok(Denomination::Two),
            _ => Err(()),
        }
    }

    /// The character that stands for the denomination.
    pub fn to_char(&self) -> (c: char)
        ensures
            c == self.symbol(),
    {
        match self {
            Denomination::Ace => 'A',
            Denomination::King => 'K',
            Denomination::Queen => 'Q',
            Denomination::Jack => 'J',
            Denomination::Ten => 'T',
            Denomination::Nine => '9',
            Denomination::Eight => '8',
            Denomination::Seven => '7',
            Denomination::Six => '6',
            Denomination::Five => '5',
            Denomination::Four => '4',
            Denomination::Three => '3',
            Denomination::Two => '2',
        }
    }

    /// The denomination written as text, as in "A" or "9".
    pub fn to_string(&self) -> (s: String)
        ensures
            s@ == seq![self.symbol()],
    {
        let s = match self {
            Denomination::Ace => "A",
            Denomination::King => "K",
            Denomination::Queen => "Q",
            Denomination::Jack => "J",
            Denomination::Ten => "T",
            Denomination::Nine => "9",
            Denomination::Eight => "8",
            Denomination::Seven => "7",
            Denomination::Six => "6",
            Denomination::Five => "5",
            Denomination::Four => "4",
            Denomination::Three => "3",
            Denomination::Two => "2",
        };
        proof {
            reveal_strlit("A");
            reveal_strlit("K");
            reveal_strlit("Q");
            reveal_strlit("J");
            reveal_strlit("T");
            reveal_strlit("9");
            reveal_strlit("8");
            reveal_strlit("7");
            reveal_strlit("6");
            reveal_strlit("5");
            reveal_strlit("4");
            reveal_strlit("3");
            reveal_strlit("2");
        }
        String::from_str(s)
    }
}

impl Suit {
    /// Position of the suit in the order Clubs (0) .. Spades (3).
    pub open spec fn rank(self) -> u8 {
        match self {
            Suit::Clubs => 0,
            Suit::Diamonds => 1,
            Suit::Hearts => 2,
            Suit::Spades => 3,
        }
    }

    /// The suit at position `i` of the order Clubs (0) .. Spades (3).
    pub open spec fn of_rank(i: u8) -> Suit {
        if i == 0 {
            Suit::Clubs
        } else if i == 1 {
            Suit::Diamonds
        } else if i == 2 {
            Suit::Hearts
        } else {
            Suit::Spades
        }
    }

    /// The symbol the suit is displayed with.
    pub open spec fn symbol(self) -> char {
        match self {
            Suit::Spades => '♠',
            Suit::Hearts => '♥',
            Suit::Diamonds => '♦',
            Suit::Clubs => '♣',
        }
    }

    /// The letter that stands for the suit.
    pub open spec fn letter(self) -> char {
        match self {
            Suit::Spades => 'S',
            Suit::Hearts => 'H',
            Suit::Diamonds => 'D',
            Suit::Clubs => 'C',
        }
    }

    /// The suit a character stands for (its letter or its symbol), if any.
    pub open spec fn parse(c: char) -> Option<Suit> {
        if c == 'S' || c == '♠' {
            Some(Suit::Spades)
        } else if c == 'H' || c == '♥' {
            Some(Suit::Hearts)
        } else if c == 'D' || c == '♦' {
            Some(Suit::Diamonds)
        } else if c == 'C' || c == '♣' {
            Some(Suit::Clubs)
        } else {
            None
        }
    }

    /// Position of the suit in the order Clubs (0) .. Spades (3).
    pub fn index(&self) -> (r: u8)
        ensures
            r == self.rank(),
            r < 4,
    {
        match self {
            Suit::Clubs => 0,
            Suit::Diamonds => 1,
            Suit::Hearts => 2,
            Suit::Spades => 3,
        }
    }

    /// The suit at position `i` of the order Clubs (0) .. Spades (3).
    pub fn from_index(i: u8) -> (s: Suit)
        requires
            i < 4,
        ensures
            s == Suit::of_rank(i),
            s.rank() == i,
    {
        SUITS[i as usize]
    }

    /// Parses a suit from its letter ('S', 'H', 'D', 'C') or its symbol ('♠', '♥', '♦', '♣').
    pub fn from_char(char: &char) -> (r: Result<Suit, ()>)
        ensures
            r == (match Suit::parse(*char) {
                Some(s) => Ok(s),
                None => Err(()),
            }),
    {
        match *char {
            'S' => Ok(Suit::Spades),
            '♠' => Ok(Suit::Spades),
            'H' => Ok(Suit::Hearts),
            '♥' => Ok(Suit::Hearts),
            'D' => Ok(Suit::Diamonds),
            '♦' => Ok(Suit::Diamonds),
            'C' => Ok(Suit::Clubs),
            '♣' => Ok(Suit::Clubs),
            _ => Err(()),
        }
    }

    /// The suit written as its symbol, as in "♠".
    pub fn to_string(&self) -> (s: String)
        ensures
            s@ == seq![self.symbol()],
    {
        let s = match self {
            Suit::Spades => "♠",
            Suit::Hearts => "♥",
            Suit::Diamonds => "♦",
            Suit::Clubs => "♣",
        };
        proof {
            reveal_strlit("♠");
            reveal_strlit("♥");
            reveal_strlit("♦");
            reveal_strlit("♣");
        }
        String::from_str(s)
    }
}

impl Card {
    /// Position of the card in the order of all 52 cards: suit first, then denomination.
    pub open spec fn order(self) -> int {
        self.suit.rank() * 13 + self.denomination.rank()
    }

    /// The card a two-character text stands for: a denomination followed by a suit, as in
    /// "AS"; a text that is not two bytes long, or not two characters long, stands for none.
    pub open spec fn parse(s: Seq<char>, byte_len: usize) -> Result<Card, ()> {
        if byte_len != 2 || s.len() != 2 {
            Err(())
        } else {
            match Denomination::parse(s[0]) {
                None => Err(()),
                Some(d) => match Suit::parse(s[1]) {
                    None => Err(()),
                    Some(suit) => Ok(Card { suit, denomination: d }),
                },
            }
        }
    }

    /// Position of the card in the order of all 52 cards.
    pub fn index(&self) -> (r: u8)
        ensures
            r == self.order(),
            r < 52,
    {
        self.suit.index() * 13 + self.denomination.index()
    }

    /// Parses a card from a denomination character followed by a suit character, as in "9C".
    /// A text that is not two bytes and two characters long is an error.
    pub fn from_str(string: &str) -> (r: Result<Card, ()>)
        ensures
            r == Card::parse(string@, string.len()),
    {
        if string.len() != 2 {
            return Err(());
        }
        if string.unicode_len() != 2 {
            return Err(());
        }
        match Denomination::from_char(&string.get_char(0)) {
            Ok(d) => match Suit::from_char(&string.get_char(1)) {
                Ok(s) => Ok(Card { denomination: d, suit: s }),
                Err(e) => Err(e),
            },
            Err(e) => Err(e),
        }
    }

    /// The card written as its suit symbol followed by its denomination, as in "♣9".
    pub fn to_string(&self) -> (s: String)
        ensures
            s@ == seq![self.suit.symbol(), self.denomination.symbol()],
    {
        let s = self.suit.to_string();
        let d = self.denomination.to_string();
        s.concat(d.as_str())
    }
}

/// Reading a denomination's symbol gives the denomination back.
pub proof fn lemma_denomination_symbol_roundtrip(d: Denomination)
    ensures
        Denomination::parse(d.symbol()) == Some(d),
{
}

/// Reading a suit's symbol, or its letter, gives the suit back.
pub proof fn lemma_suit_symbol_roundtrip(s: Suit)
    ensures
        Suit::parse(s.symbol()) == Some(s),
        Suit::parse(s.letter()) == Some(s),
{
}

/// The denominations' positions are 0 .. 12, one each, and `of_rank` inverts `rank`.
pub proof fn lemma_denomination_rank_bijection(d: Denomination, i: u8)
    ensures
        d.rank() < 13,
        Denomination::of_rank(d.rank()) == d,
        i < 13 ==> Denomination::of_rank(i).rank() == i,
{
}

/// The suits' positions are 0 .. 3, one each, and `of_rank` inverts `rank`.
pub proof fn lemma_suit_rank_bijection(s: Suit, i: u8)
    ensures
        s.rank() < 4,
        Suit::of_rank(s.rank()) == s,
        i < 4 ==> Suit::of_rank(i).rank() == i,
{
}

/// Two cards are equal exactly when their positions in the order of the 52 cards are equal.
pub proof fn lemma_card_order_injective(a: Card, b: Card)
    ensures
        0 <= a.order() < 52,
        a.order() == b.order() <==> a == b,
{
}

} // verus!
