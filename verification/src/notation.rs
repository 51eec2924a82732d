//! The text notation of a hand, as in "S:AKQ,H:T9,D:8765,C:432": pieces separated by
//! ',' or a line break, each a suit, ':' and the denominations held in that suit.
use crate::card::{Card, Denomination, Suit};
use vstd::prelude::*;

verus! {

/// Whether `c` is white space (the Unicode White_Space property), as trimming understands it.
pub open spec fn is_white_space(c: char) -> bool {
    c == '\t' || c == '\n' || c == '\u{0B}' || c == '\u{0C}' || c == '\r' || c == ' ' || c
        == '\u{85}' || c == '\u{A0}' || c == '\u{1680}' || ('\u{2000}' <= c && c <= '\u{200A}')
        || c == '\u{2028}' || c == '\u{2029}' || c == '\u{202F}' || c == '\u{205F}' || c
        == '\u{3000}'
}

/// Whether `c` separates the pieces of a hand's notation.
pub open spec fn is_separator(c: char) -> bool {
    c == '\n' || c == ','
}

/// The end of the piece that starts at `i`: the first separator at or after `i`, or the end.
pub open spec fn piece_end(s: Seq<char>, i: int) -> int
    decreases s.len() - i,
{
    if 0 <= i < s.len() && !is_separator(s[i]) {
        piece_end(s, i + 1)
    } else {
        i
    }
}

/// The first ':' in `s[i..hi]`, or `hi` if there is none.
pub open spec fn colon_at(s: Seq<char>, i: int, hi: int) -> int
    decreases hi - i,
{
    if i < hi && s[i] != ':' {
        colon_at(s, i + 1, hi)
    } else {
        i
    }
}

/// Where `s[i..hi]` starts once leading white space is dropped.
pub open spec fn trim_start(s: Seq<char>, i: int, hi: int) -> int
    decreases hi - i,
{
    if i < hi && is_white_space(s[i]) {
        trim_start(s, i + 1, hi)
    } else {
        i
    }
}

/// Where `s[lo..j]` ends once trailing white space is dropped.
pub open spec fn trim_end(s: Seq<char>, lo: int, j: int) -> int
    decreases j - lo,
{
    if lo < j && is_white_space(s[j - 1]) {
        trim_end(s, lo, j - 1)
    } else {
        j
    }
}

/// Reads one piece `s[lo..hi]`: `None` where reading it fails outright (a denomination
/// follows an empty suit), `Some(Err(()))` where it is malformed, else the cards it names.
pub open spec fn read_piece(s: Seq<char>, lo: int, hi: int) -> Option<Result<Seq<Card>, ()>> {
    let colon = colon_at(s, lo, hi);
    if colon >= hi {
        Some(Err(()))
    } else {
        let suit_lo = trim_start(s, lo, colon);
        let suit_hi = trim_end(s, suit_lo, colon);
        let den_lo = trim_start(s, colon + 1, hi);
        let den_hi = trim_end(s, den_lo, hi);
        if den_lo >= den_hi {
            Some(Ok(Seq::empty()))
        } else if Denomination::parse(s[den_lo]) is None {
            Some(Err(()))
        } else if suit_lo >= suit_hi {
            None
        } else if Suit::parse(s[suit_lo]) is None {
            Some(Err(()))
        } else if exists|j: int| den_lo <= j < den_hi && #[trigger] Denomination::parse(s[j]) is None {
            Some(Err(()))
        } else {
            let suit = Suit::parse(s[suit_lo]).unwrap();
            Some(
                Ok(
                    Seq::new(
                        (den_hi - den_lo) as nat,
                        |j: int|
                            Card { suit, denomination: Denomination::parse(s[den_lo + j]).unwrap() },
                    ),
                ),
            )
        }
    }
}

/// Reads the pieces from the one that starts at `start` to the end of the text.
pub open spec fn read_pieces(s: Seq<char>, start: int) -> Option<Result<Seq<Card>, ()>>
    decreases s.len() - start,
{
    if start < 0 || start > s.len() {
        Some(Err(()))
    } else {
        let end = piece_end(s, start);
        proof {
            lemma_piece_end_bounds(s, start);
        }
        match read_piece(s, start, end) {
            None => None,
            Some(Err(())) => Some(Err(())),
            Some(Ok(cards)) => if end >= s.len() {
                Some(Ok(cards))
            } else {
                match read_pieces(s, end + 1) {
                    Some(Ok(rest)) => Some(Ok(cards + rest)),
                    other => other,
                }
            },
        }
    }
}

/// Reads a hand's notation: `None` where reading fails outright, `Some(Err(()))` where the
/// text is malformed, else the cards it names in the order they are written.
pub open spec fn read_hand(s: Seq<char>) -> Option<Result<Seq<Card>, ()>> {
    read_pieces(s, 0)
}

/// A piece ends at a separator or at the end of the text, never before it starts.
pub proof fn lemma_piece_end_bounds(s: Seq<char>, i: int)
    requires
        0 <= i <= s.len(),
    ensures
        i <= piece_end(s, i) <= s.len(),
        piece_end(s, i) < s.len() ==> is_separator(s[piece_end(s, i)]),
    decreases s.len() - i,
{
    if i < s.len() && !is_separator(s[i]) {
        lemma_piece_end_bounds(s, i + 1);
    }
}

/// Whether `c` is white space.
pub fn white_space(c: char) -> (b: bool)
    ensures
        b == is_white_space(c),
{
    c == '\t' || c == '\n' || c == '\u{0B}' || c == '\u{0C}' || c == '\r' || c == ' ' || c
        == '\u{85}' || c == '\u{A0}' || c == '\u{1680}' || ('\u{2000}' <= c && c <= '\u{200A}')
        || c == '\u{2028}' || c == '\u{2029}' || c == '\u{202F}' || c == '\u{205F}' || c
        == '\u{3000}'
}

/// Reads one piece `v[lo..hi]` and appends the cards it names to `out`.
#[verifier::loop_isolation(false)]
fn read_piece_into(v: &Vec<char>, lo: usize, hi: usize, out: &mut Vec<Card>) -> (r: Result<(), ()>)
    requires
        lo <= hi <= v@.len(),
        read_piece(v@, lo as int, hi as int) is Some,
    ensures
        r is Ok <==> read_piece(v@, lo as int, hi as int) is Some && read_piece(
            v@,
            lo as int,
            hi as int,
        ).unwrap() is Ok,
        r is Ok ==> final(out)@ == old(out)@ + read_piece(v@, lo as int, hi as int).unwrap()->Ok_0,
{
    let mut colon = lo;
    while colon < hi && v[colon] != ':'
        invariant
            lo <= colon <= hi <= v@.len(),
            colon_at(v@, colon as int, hi as int) == colon_at(v@, lo as int, hi as int),
        decreases hi - colon,
    {
        colon = colon + 1;
    }
    if colon >= hi {
        return Err(());
    }
    let suit_lo = skip_leading(v, lo, colon);
    let suit_hi = skip_trailing(v, suit_lo, colon);
    let den_lo = skip_leading(v, colon + 1, hi);
    let den_hi = skip_trailing(v, den_lo, hi);
    if den_lo >= den_hi {
        assert(out@ + Seq::<Card>::empty() =~= out@);
        return Ok(());
    }
    let first = Denomination::from_char(&v[den_lo]);
    if first.is_err() {
        return Err(());
    }
    // the piece reads (a precondition), so the suit part is not empty
    let suit = match Suit::from_char(&v[suit_lo]) {
        Ok(s) => s,
        Err(_) => {
            return Err(());
        },
    };
    let ghost start = out@;
    let mut j = den_lo;
    while j < den_hi
        invariant
            den_lo <= j <= den_hi <= hi <= v@.len(),
            suit == Suit::parse(v@[suit_lo as int]).unwrap(),
            Suit::parse(v@[suit_lo as int]) is Some,
            forall|k: int| den_lo <= k < j ==> #[trigger] Denomination::parse(v@[k]) is Some,
            out@ == start + Seq::new(
                (j - den_lo) as nat,
                |k: int| Card { suit, denomination: Denomination::parse(v@[den_lo + k]).unwrap() },
            ),
        decreases den_hi - j,
    {
        match Denomination::from_char(&v[j]) {
            Ok(d) => {
                out.push(Card { suit, denomination: d });
            },
            Err(_) => {
                return Err(());
            },
        }
        j = j + 1;
        assert(out@ =~= start + Seq::new(
            (j - den_lo) as nat,
            |k: int| Card { suit, denomination: Denomination::parse(v@[den_lo + k]).unwrap() },
        ));
    }
    Ok(())
}

/// Skips the white space at the start of `v[i..hi]`.
fn skip_leading(v: &Vec<char>, i: usize, hi: usize) -> (r: usize)
    requires
        i <= hi <= v@.len(),
    ensures
        r == trim_start(v@, i as int, hi as int),
        i <= r <= hi,
{
    let mut k = i;
    while k < hi && white_space(v[k])
        invariant
            i <= k <= hi <= v@.len(),
            trim_start(v@, k as int, hi as int) == trim_start(v@, i as int, hi as int),
        decreases hi - k,
    {
        k = k + 1;
    }
    k
}

/// Skips the white space at the end of `v[lo..j]`.
fn skip_trailing(v: &Vec<char>, lo: usize, j: usize) -> (r: usize)
    requires
        lo <= j <= v@.len(),
    ensures
        r == trim_end(v@, lo as int, j as int),
        lo <= r <= j,
{
    let mut k = j;
    while k > lo && white_space(v[k - 1])
        invariant
            lo <= k <= j <= v@.len(),
            trim_end(v@, lo as int, k as int) == trim_end(v@, lo as int, j as int),
        decreases k - lo,
    {
        k = k - 1;
    }
    k
}

/// Reads a hand's notation into the cards it names, in the order they are written, or an
/// error where the text is malformed. The text must not hold a denomination after an empty
/// suit (reading such a text fails outright).
#[verifier::loop_isolation(false)]
pub fn read_hand_cards(text: &Vec<char>) -> (r: Result<Vec<Card>, ()>)
    requires
        read_hand(text@) is Some,
    ensures
        r is Ok <==> read_hand(text@).unwrap() is Ok,
        r is Ok ==> r.unwrap()@ == read_hand(text@).unwrap()->Ok_0,
{
    let mut out: Vec<Card> = Vec::new();
    let mut start: usize = 0;
    let n = text.len();
    loop
        invariant
            n == text@.len(),
            start <= n,
            read_hand(text@) == (match read_pieces(text@, start as int) {
                Some(Ok(rest)) => Some(Ok(out@ + rest)),
                other => other,
            }),
        decreases n - start,
    {
        let mut end = start;
        while end < n && text[end] != '\n' && text[end] != ','
            invariant
                start <= end <= n,
                n == text@.len(),
                piece_end(text@, end as int) == piece_end(text@, start as int),
            decreases n - end,
        {
            end = end + 1;
        }
        proof {
            lemma_piece_end_bounds(text@, start as int);
            assert(piece_end(text@, end as int) == end);
            assert(piece_end(text@, start as int) == end);
        }
        let ghost before = out@;
        let r = read_piece_into(text, start, end, &mut out);
        if r.is_err() {
            return Err(());
        }
        if end >= n {
            assert(out@ + Seq::<Card>::empty() =~= out@);
            return Ok(out);
        }
        proof {
            let piece = read_piece(text@, start as int, end as int).unwrap()->Ok_0;
            match read_pieces(text@, end + 1) {
                Some(Ok(rest)) => {
                    assert(before + (piece + rest) =~= out@ + rest);
                },
                _ => {},
            }
        }
        start = end + 1;
    }
}

} // verus!
