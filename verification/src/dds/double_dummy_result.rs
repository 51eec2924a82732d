//! The table of tricks each seat makes as declarer in each strain.
use crate::card::Suit;
use crate::deal::PlayerPosition;
use vstd::prelude::*;
use vstd::string::StringExecFns;

verus! {

/// What a contract is played in: a trump suit or no trumps.
#[derive(Clone, Copy, Debug, PartialEq, Eq, Structural, Hash)]
pub enum Strain {
    Trump(Suit),
    NoTrump,
}

impl Strain {
    /// Column of the strain in the table: Clubs 0 to Spades 3, no trumps 4.
    pub open spec fn column(self) -> int {
        match self {
            Strain::Trump(s) => s.rank() as int,
            Strain::NoTrump => 4,
        }
    }
}

/// The position in the table of a declarer and a strain: five entries per seat, North first.
pub open spec fn entry_of(declarer: PlayerPosition, strain: Strain) -> int {
    5 * declarer.rank() + strain.column()
}

/// The decimal digits of a number, most significant first.
pub open spec fn decimal(n: nat) -> Seq<char>
    decreases n,
{
    if n < 10 {
        seq![digit_char(n)]
    } else {
        decimal(n / 10).push(digit_char(n % 10))
    }
}

/// The character of a decimal digit.
pub open spec fn digit_char(d: nat) -> char {
    if d == 0 {
        '0'
    } else if d == 1 {
        '1'
    } else if d == 2 {
        '2'
    } else if d == 3 {
        '3'
    } else if d == 4 {
        '4'
    } else if d == 5 {
        '5'
    } else if d == 6 {
        '6'
    } else if d == 7 {
        '7'
    } else if d == 8 {
        '8'
    } else {
        '9'
    }
}

/// A number right-aligned in two columns, then a space.
#[verifier::opaque]
pub open spec fn cell(n: nat) -> Seq<char> {
    let digits = decimal(n);
    (if digits.len() < 2 {
        seq![' '] + digits
    } else {
        digits
    }) + seq![' ']
}

/// The letter of a seat.
pub open spec fn seat_letter(p: PlayerPosition) -> char {
    match p {
        PlayerPosition::North => 'N',
        PlayerPosition::East => 'E',
        PlayerPosition::South => 'S',
        PlayerPosition::West => 'W',
    }
}

/// The most tricks each seat makes as declarer in each strain.
pub struct DoubleDummyResult {
    pub max_tricks: [usize; 20],
}

/// The line of a seat: its letter, then its tricks in no trumps, Spades, Hearts, Diamonds and
/// Clubs.
pub open spec fn seat_line(tricks: Seq<usize>, p: PlayerPosition) -> Seq<char> {
    let base = 5 * p.rank();
    seq![seat_letter(p), ' '] + cell(tricks[base + 4] as nat) + cell(tricks[base + 3] as nat)
        + cell(tricks[base + 2] as nat) + cell(tricks[base + 1] as nat) + cell(tricks[base] as nat)
        + seq!['\n']
}

/// The heading of the table.
pub open spec fn heading() -> Seq<char> {
    seq![' ', ' ', 'N', 'T', ' ', '♠', 'S', ' ', '♥', 'H', ' ', '♦', 'D', ' ', '♣', 'C', '\n']
}

/// The whole table: the heading, then one line per seat, North to West.
pub open spec fn table_text(tricks: Seq<usize>) -> Seq<char> {
    heading() + seat_line(tricks, PlayerPosition::North) + seat_line(tricks, PlayerPosition::East)
        + seat_line(tricks, PlayerPosition::South) + seat_line(tricks, PlayerPosition::West)
}

/// Different declarers or strains have different entries.
pub proof fn lemma_entries_distinct(d1: PlayerPosition, s1: Strain, d2: PlayerPosition, s2: Strain)
    ensures
        0 <= entry_of(d1, s1) < 20,
        entry_of(d1, s1) == entry_of(d2, s2) ==> d1 == d2 && s1 == s2,
{
    match s1 {
        Strain::Trump(a) => match s2 {
            Strain::Trump(b) => {
                if entry_of(d1, s1) == entry_of(d2, s2) {
                    crate::card::lemma_suit_rank_bijection(a, a.rank());
                    crate::card::lemma_suit_rank_bijection(b, b.rank());
                }
            },
            Strain::NoTrump => {},
        },
        Strain::NoTrump => {},
    }
}

/// Reading an entry after setting it gives the value set; every other entry keeps its value.
pub proof fn lemma_get_after_set(
    before: Seq<usize>,
    tricks: usize,
    declarer: PlayerPosition,
    strain: Strain,
    other_declarer: PlayerPosition,
    other_strain: Strain,
)
    requires
        before.len() == 20,
    ensures
        before.update(entry_of(declarer, strain), tricks)[entry_of(declarer, strain)] == tricks,
        (other_declarer != declarer || other_strain != strain) ==> before.update(
            entry_of(declarer, strain),
            tricks,
        )[entry_of(other_declarer, other_strain)] == before[entry_of(other_declarer, other_strain)],
{
    lemma_entries_distinct(declarer, strain, other_declarer, other_strain);
    lemma_entries_distinct(other_declarer, other_strain, declarer, strain);
}

fn entry_index(declarer: PlayerPosition, strain: Strain) -> (i: usize)
    ensures
        i == entry_of(declarer, strain),
        i < 20,
{
    let i: usize = match declarer {
        PlayerPosition::North => 0,
        PlayerPosition::East => 1,
        PlayerPosition::South => 2,
        PlayerPosition::West => 3,
    };
    let j: usize = match strain {
        Strain::Trump(Suit::Clubs) => 0,
        Strain::Trump(Suit::Diamonds) => 1,
        Strain::Trump(Suit::Hearts) => 2,
        Strain::Trump(Suit::Spades) => 3,
        Strain::NoTrump => 4,
    };
    5 * i + j
}

/// The decimal digits of a number.
fn decimal_text(n: usize) -> (text: String)
    ensures
        text@ == decimal(n as nat),
{
    let mut digits: Vec<u8> = Vec::new();
    let mut rest = n;
    loop
        invariant_except_break
            decimal(n as nat) == decimal(rest as nat) + digits@.reverse().map_values(
                |d: u8| digit_char(d as nat),
            ),
        invariant
            forall|k: int| 0 <= k < digits@.len() ==> #[trigger] digits@[k] < 10,
        ensures
            decimal(n as nat) == digits@.reverse().map_values(|d: u8| digit_char(d as nat)),
        decreases rest,
    {
        let d = (rest % 10) as u8;
        let ghost old_digits = digits@;
        digits.push(d);
        proof {
            assert(digits@.reverse().map_values(|d: u8| digit_char(d as nat)) =~= seq![
                digit_char(d as nat),
            ] + old_digits.reverse().map_values(|d: u8| digit_char(d as nat)));
        }
        if rest < 10 {
            proof {
                assert(decimal(rest as nat) =~= seq![digit_char(d as nat)]);
            }
            break;
        }
        proof {
            assert(decimal(rest as nat) =~= decimal((rest / 10) as nat).push(digit_char(d as nat)));
        }
        rest = rest / 10;
    }
    let ghost all = digits@.reverse().map_values(|d: u8| digit_char(d as nat));
    let mut text = String::new();
    let mut i = digits.len();
    proof {
        assert(text@ =~= Seq::<char>::empty());
    }
    while i > 0
        invariant
            0 <= i <= digits@.len(),
            forall|k: int| 0 <= k < digits@.len() ==> #[trigger] digits@[k] < 10,
            all == digits@.reverse().map_values(|d: u8| digit_char(d as nat)),
            text@ == all.take((digits@.len() - i) as int),
        decreases i,
    {
        i = i - 1;
        text.append(digit_str(digits[i]));
        proof {
            assert(all[(digits@.len() - i - 1) as int] == digit_char(digits@[i as int] as nat));
            assert(text@ =~= all.take((digits@.len() - i) as int));
        }
    }
    proof {
        assert(all.take(digits@.len() as int) =~= all);
    }
    text
}

fn digit_str(d: u8) -> (s: &'static str)
    requires
        d < 10,
    ensures
        s@ == seq![digit_char(d as nat)],
{
    proof {
        reveal_strlit("0");
        reveal_strlit("1");
        reveal_strlit("2");
        reveal_strlit("3");
        reveal_strlit("4");
        reveal_strlit("5");
        reveal_strlit("6");
        reveal_strlit("7");
        reveal_strlit("8");
        reveal_strlit("9");
    }
    if d == 0 {
        "0"
    } else if d == 1 {
        "1"
    } else if d == 2 {
        "2"
    } else if d == 3 {
        "3"
    } else if d == 4 {
        "4"
    } else if d == 5 {
        "5"
    } else if d == 6 {
        "6"
    } else if d == 7 {
        "7"
    } else if d == 8 {
        "8"
    } else {
        "9"
    }
}

impl DoubleDummyResult {
    /// The table with no tricks anywhere.
    pub fn new() -> (r: Self)
        ensures
            forall|i: int| 0 <= i < 20 ==> #[trigger] r.max_tricks@[i] == 0,
    {
        Self { max_tricks: [0; 20] }
    }

    /// The tricks the declarer makes in the strain.
    pub fn get_tricks_for_declarer_in_strain(&self, declarer: PlayerPosition, strain: Strain) -> (n:
        usize)
        ensures
            n == self.max_tricks@[entry_of(declarer, strain)],
    {
        self.max_tricks[entry_index(declarer, strain)]
    }

    /// Records the tricks the declarer makes in the strain.
    pub fn set_tricks_for_declarer_in_strain(
        &mut self,
        tricks: usize,
        declarer: PlayerPosition,
        strain: Strain,
    )
        ensures
            final(self).max_tricks@ == old(self).max_tricks@.update(entry_of(declarer, strain), tricks),
    {
        let index = entry_index(declarer, strain);
        self.max_tricks[index] = tricks;
    }

    /// The table as text: a heading, then per seat (North to West) its letter and its tricks in
    /// no trumps, Spades, Hearts, Diamonds and Clubs, each right-aligned in two columns.
    pub fn to_string(&self) -> (text: String)
        ensures
            text@ == table_text(self.max_tricks@),
    {
        let mut text = String::new();
        proof {
            reveal_strlit("  NT ♠S ♥H ♦D ♣C\n");
        }
        text.append("  NT ♠S ♥H ♦D ♣C\n");
        self.append_seat_line(&mut text, PlayerPosition::North);
        self.append_seat_line(&mut text, PlayerPosition::East);
        self.append_seat_line(&mut text, PlayerPosition::South);
        self.append_seat_line(&mut text, PlayerPosition::West);
        proof {
            assert(text@ =~= table_text(self.max_tricks@));
        }
        text
    }

    fn append_seat_line(&self, text: &mut String, seat: PlayerPosition)
        ensures
            final(text)@ == old(text)@ + seat_line(self.max_tricks@, seat),
    {
        proof {
            reveal_strlit("N ");
            reveal_strlit("E ");
            reveal_strlit("S ");
            reveal_strlit("W ");
            reveal_strlit("\n");
        }
        let letter = match seat {
            PlayerPosition::North => "N ",
            PlayerPosition::East => "E ",
            PlayerPosition::South => "S ",
            PlayerPosition::West => "W ",
        };
        text.append(letter);
        let ghost t0 = text@;
        assert(t0 == old(text)@ + seq![seat_letter(seat), ' ']);
        let base = 5 * (seat.index() as usize);
        let tricks = self.max_tricks;
        append_cell(text, tricks[base + 4]);
        append_cell(text, tricks[base + 3]);
        append_cell(text, tricks[base + 2]);
        append_cell(text, tricks[base + 1]);
        append_cell(text, tricks[base]);
        text.append("\n");
        proof {
            let t = tricks@;
            let b = base as int;
            assert(text@ =~= t0 + cell(t[b + 4] as nat) + cell(t[b + 3] as nat) + cell(
                t[b + 2] as nat,
            ) + cell(t[b + 1] as nat) + cell(t[b] as nat) + seq!['\n']);
            assert(text@ =~= old(text)@ + seat_line(self.max_tricks@, seat));
        }
    }
}

fn append_cell(text: &mut String, n: usize)
    ensures
        final(text)@ == old(text)@ + cell(n as nat),
{
    proof {
        reveal_strlit(" ");
        reveal(cell);
    }
    let digits = decimal_text(n);
    if digits.as_str().unicode_len() < 2 {
        text.append(" ");
    }
    text.append(digits.as_str());
    text.append(" ");
    proof {
        assert(final(text)@ =~= old(text)@ + cell(n as nat));
    }
}

impl Default for DoubleDummyResult {
    fn default() -> (r: Self)
        ensures
            forall|i: int| 0 <= i < 20 ==> #[trigger] r.max_tricks@[i] == 0,
    {
        Self::new()
    }
}

} // verus!
