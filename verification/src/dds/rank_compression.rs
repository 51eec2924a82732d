//! Moving the cards of a deal up to the top ranks of their suits, keeping their order, so that
//! a deal of fewer than thirteen cards a hand plays like one whose cards in play are the
//! highest of each suit.
use crate::card::{Card, Denomination, Suit};
use crate::dds::card_tracker::CardTracker;
use crate::dds::double_dummy_result::Strain;
use crate::dds::double_dummy_runner::{deal_start, valid_hands};
use crate::dds::double_dummy_state::{hand_size, lemma_hand_size_is_len};
use crate::dds::perfect_play::{corresponds, lemma_card_at_order, lemma_relative_order, value};
use crate::deal::PlayerPosition;
use vstd::prelude::*;

verus! {

/// Some seat holds the card.
pub open spec fn dealt(hands: [CardTracker; 4], c: Card) -> bool {
    exists|i: int| 0 <= i < 4 && #[trigger] hands@[i]@.contains(c)
}

/// The card of the suit at rank `r`.
pub open spec fn card_of_rank(s: Suit, r: int) -> Card {
    Card { suit: s, denomination: Denomination::of_rank(r as u8) }
}

/// How many ranks from `lo` up to `hi` (excluded) the seats hold cards of the suit at.
pub open spec fn dealt_between(hands: [CardTracker; 4], s: Suit, lo: int, hi: int) -> int
    decreases hi - lo,
{
    if lo >= hi {
        0
    } else {
        dealt_between(hands, s, lo, hi - 1) + if dealt(hands, card_of_rank(s, hi - 1)) {
            1int
        } else {
            0
        }
    }
}

/// The card a card becomes when the cards held of its suit move up to the top ranks in their
/// order: below the Ace by as many ranks as cards held of the suit rank above it.
pub open spec fn moved_up(hands: [CardTracker; 4], c: Card) -> Card {
    Card {
        suit: c.suit,
        denomination: Denomination::of_rank(
            (12 - dealt_between(hands, c.suit, c.denomination.rank() + 1, 13)) as u8,
        ),
    }
}

/// The count over a range lies between none and all of its ranks.
proof fn lemma_between_bounds(hands: [CardTracker; 4], s: Suit, lo: int, hi: int)
    requires
        lo <= hi,
    ensures
        0 <= dealt_between(hands, s, lo, hi) <= hi - lo,
    decreases hi - lo,
{
    if lo < hi {
        lemma_between_bounds(hands, s, lo, hi - 1);
    }
}

/// Counting over a range is counting over its two parts.
proof fn lemma_between_split(hands: [CardTracker; 4], s: Suit, lo: int, m: int, hi: int)
    requires
        lo <= m <= hi,
    ensures
        dealt_between(hands, s, lo, hi) == dealt_between(hands, s, lo, m) + dealt_between(
            hands,
            s,
            m,
            hi,
        ),
    decreases hi - m,
{
    if m < hi {
        lemma_between_split(hands, s, lo, m, hi - 1);
    }
}

/// A card keeps its suit, and moves to a rank at least its own and at most the Ace.
proof fn lemma_moved_up_rank(hands: [CardTracker; 4], c: Card)
    ensures
        moved_up(hands, c).suit == c.suit,
        c.denomination.rank() <= moved_up(hands, c).denomination.rank() < 13,
        moved_up(hands, c).denomination.rank() == 12 - dealt_between(
            hands,
            c.suit,
            c.denomination.rank() + 1,
            13,
        ),
{
    crate::card::lemma_denomination_rank_bijection(c.denomination, 0);
    let r = c.denomination.rank() as int;
    lemma_between_bounds(hands, c.suit, r + 1, 13);
    let m = 12 - dealt_between(hands, c.suit, r + 1, 13);
    crate::card::lemma_denomination_rank_bijection(c.denomination, m as u8);
}

/// Of two held cards of a suit, the lower moves to the lower rank.
proof fn lemma_moved_up_order(hands: [CardTracker; 4], a: Card, b: Card)
    requires
        dealt(hands, b),
        a.suit == b.suit,
        a.denomination.rank() < b.denomination.rank(),
    ensures
        moved_up(hands, a).denomination.rank() < moved_up(hands, b).denomination.rank(),
{
    let s = a.suit;
    let ra = a.denomination.rank() as int;
    let rb = b.denomination.rank() as int;
    crate::card::lemma_denomination_rank_bijection(b.denomination, 0);
    crate::card::lemma_denomination_rank_bijection(a.denomination, 0);
    lemma_moved_up_rank(hands, a);
    lemma_moved_up_rank(hands, b);
    lemma_between_split(hands, s, ra + 1, rb, 13);
    lemma_between_split(hands, s, rb, rb + 1, 13);
    lemma_between_bounds(hands, s, ra + 1, rb);
    assert(card_of_rank(s, rb) == b) by {
        crate::card::lemma_denomination_rank_bijection(b.denomination, rb as u8);
    }
    assert(dealt_between(hands, s, rb, rb + 1) == 1) by {
        reveal_with_fuel(dealt_between, 2);
    }
}

/// Held cards move to distinct cards.
proof fn lemma_moved_up_injective(hands: [CardTracker; 4], a: Card, b: Card)
    requires
        dealt(hands, a),
        dealt(hands, b),
        moved_up(hands, a) == moved_up(hands, b),
    ensures
        a == b,
{
    lemma_moved_up_rank(hands, a);
    lemma_moved_up_rank(hands, b);
    if a.denomination.rank() < b.denomination.rank() {
        lemma_moved_up_order(hands, a, b);
    } else if b.denomination.rank() < a.denomination.rank() {
        lemma_moved_up_order(hands, b, a);
    } else {
        crate::card::lemma_denomination_rank_bijection(a.denomination, 0);
        crate::card::lemma_denomination_rank_bijection(b.denomination, 0);
    }
}

/// Whether some seat holds the card.
fn is_dealt(hands: &[CardTracker; 4], c: &Card) -> (b: bool)
    ensures
        b == dealt(*hands, *c),
{
    let b = hands[0].contains(c) || hands[1].contains(c) || hands[2].contains(c) || hands[3].contains(
        c,
    );
    proof {
        if dealt(*hands, *c) {
            let i = choose|i: int| 0 <= i < 4 && #[trigger] hands@[i]@.contains(*c);
            assert(i == 0 || i == 1 || i == 2 || i == 3);
        }
        if b {
            if hands@[0]@.contains(*c) {
                assert(hands@[0]@.contains(*c));
            } else if hands@[1]@.contains(*c) {
                assert(hands@[1]@.contains(*c));
            } else if hands@[2]@.contains(*c) {
                assert(hands@[2]@.contains(*c));
            } else {
                assert(hands@[3]@.contains(*c));
            }
        }
    }
    b
}

/// The card a card becomes when the held cards of its suit move up to the top ranks.
fn move_up(hands: &[CardTracker; 4], c: Card) -> (d: Card)
    ensures
        d == moved_up(*hands, c),
{
    let s = c.suit;
    let start = c.denomination.index() + 1;
    let mut r: u8 = start;
    let mut above: u8 = 0;
    proof {
        crate::card::lemma_denomination_rank_bijection(c.denomination, 0);
    }
    while r < 13
        invariant
            start == c.denomination.rank() + 1,
            start <= r <= 13,
            above as int == dealt_between(*hands, s, start as int, r as int),
            above <= r - start,
        decreases 13 - r,
    {
        let card = Card { suit: s, denomination: Denomination::from_index(r) };
        if is_dealt(hands, &card) {
            above = above + 1;
        }
        r = r + 1;
    }
    proof {
        lemma_moved_up_rank(*hands, c);
    }
    Card { suit: s, denomination: Denomination::from_index(12 - above) }
}

/// The cards of a set whose place in the order of the 52 cards is below `k`.
pub open spec fn below(t: Set<Card>, k: int) -> Set<Card> {
    t.filter(|c: Card| c.order() < k)
}

/// Moves the cards of every seat up to the top ranks of their suits, keeping their order: a
/// deal of thirteen cards a hand stays as it is.
pub fn move_up_ranks(hands: &[CardTracker; 4]) -> (moved: [CardTracker; 4])
    requires
        forall|i: int| 0 <= i < 4 ==> (#[trigger] hands@[i]).within_ranks(),
    ensures
        forall|i: int| 0 <= i < 4 ==> (#[trigger] moved@[i]).within_ranks(),
        forall|i: int|
            0 <= i < 4 ==> (#[trigger] moved@[i])@ == hands@[i]@.map(
                |c: Card| moved_up(*hands, c),
            ),
{
    let ghost f = |c: Card| moved_up(*hands, c);
    let mut moved = [CardTracker::empty(), CardTracker::empty(), CardTracker::empty(), CardTracker::empty()];
    let mut i: usize = 0;
    while i < 4
        invariant
            0 <= i <= 4,
            f == (|c: Card| moved_up(*hands, c)),
            forall|j: int| 0 <= j < 4 ==> (#[trigger] moved@[j]).within_ranks(),
            forall|j: int| 0 <= j < i ==> (#[trigger] moved@[j])@ == hands@[j]@.map(f),
        decreases 4 - i,
    {
        let mut t = CardTracker::empty();
        let mut k: u8 = 0;
        proof {
            assert(t@ =~= below(hands@[i as int]@, 0).map(f));
        }
        while k < 52
            invariant
                0 <= k <= 52,
                i < 4,
                f == (|c: Card| moved_up(*hands, c)),
                t.within_ranks(),
                t@ == below(hands@[i as int]@, k as int).map(f),
            decreases 52 - k,
        {
            let c = Card { suit: Suit::from_index(k / 13), denomination: Denomination::from_index(k % 13) };
            let ghost before = t@;
            proof {
                assert(c.order() == k);
            }
            if hands[i].contains(&c) {
                let d = move_up(hands, c);
                t.add_card(d);
                proof {
                    let h = hands@[i as int]@;
                    let k1: int = k + 1;
                    let k0: int = k as int;
                    assert forall|y: Card| #[trigger] t@.contains(y) == below(h, k1).map(f).contains(y) by {
                        if t@.contains(y) {
                            if y == d {
                                assert(below(h, k1).contains(c));
                                assert(f(c) == d);
                                assert(below(h, k1).map(f).contains(y));
                            } else {
                                assert(before.contains(y));
                                assert(below(h, k0).map(f).contains(y));
                                let x = choose|x: Card| below(h, k0).contains(x) && y == f(x);
                                assert(below(h, k1).contains(x));
                                assert(below(h, k1).map(f).contains(y));
                            }
                        }
                        if below(h, k1).map(f).contains(y) {
                            let x = choose|x: Card| below(h, k1).contains(x) && y == f(x);
                            lemma_card_at_order(x);
                            lemma_card_at_order(c);
                            if x.order() < k {
                                assert(below(h, k0).contains(x));
                                assert(below(h, k0).map(f).contains(y));
                                assert(before.contains(y));
                            } else {
                                assert(x.order() == c.order());
                                assert(x == c);
                                assert(f(c) == d);
                            }
                            assert(t@.contains(y));
                        }
                    }
                    assert(t@ =~= below(h, k1).map(f));
                }
            } else {
                proof {
                    let h = hands@[i as int]@;
                    let k1: int = k + 1;
                    let k0: int = k as int;
                    assert forall|y: Card| #[trigger] t@.contains(y) == below(h, k1).map(f).contains(y) by {
                        if t@.contains(y) {
                            assert(below(h, k0).map(f).contains(y));
                            let x = choose|x: Card| below(h, k0).contains(x) && y == f(x);
                            assert(below(h, k1).contains(x));
                            assert(below(h, k1).map(f).contains(y));
                        }
                        if below(h, k1).map(f).contains(y) {
                            let x = choose|x: Card| below(h, k1).contains(x) && y == f(x);
                            lemma_card_at_order(x);
                            lemma_card_at_order(c);
                            assert(h.contains(x));
                            if x.order() < k {
                                assert(below(h, k0).contains(x));
                                assert(below(h, k0).map(f).contains(y));
                            } else {
                                assert(x.order() == c.order());
                                assert(x == c);
                                assert(false);
                            }
                        }
                    }
                    assert(t@ =~= below(h, k1).map(f));
                }
            }
            k = k + 1;
        }
        proof {
            assert forall|x: Card| hands@[i as int]@.contains(x) implies x.order() < 52 by {
                lemma_card_at_order(x);
            }
            assert(below(hands@[i as int]@, 52) =~= hands@[i as int]@);
        }
        moved[i] = t;
        i = i + 1;
    }
    moved
}

/// Moving the held cards up to the top ranks of their suits changes no one's tricks: the moved
/// hands form a deal of as many cards a hand, and the side on lead takes as many tricks with
/// best play.
pub proof fn lemma_moved_up_same_value(
    hands: [CardTracker; 4],
    moved: [CardTracker; 4],
    strain: Strain,
    opening_leader: PlayerPosition,
)
    requires
        valid_hands(hands, hand_size(hands@[0])),
        forall|i: int| 0 <= i < 4 ==> (#[trigger] moved@[i]).within_ranks(),
        forall|i: int|
            0 <= i < 4 ==> (#[trigger] moved@[i])@ == hands@[i]@.map(
                |c: Card| moved_up(hands, c),
            ),
    ensures
        hand_size(moved@[0]) == hand_size(hands@[0]),
        valid_hands(moved, hand_size(hands@[0])),
        value(deal_start(moved, strain, opening_leader)) == value(
            deal_start(hands, strain, opening_leader),
        ),
{
    let f = |c: Card| moved_up(hands, c);
    let n = hand_size(hands@[0]);
    assert forall|i: int| 0 <= i < 4 implies #[trigger] hand_size(moved@[i]) == n && moved@[i]@.len()
        == n && moved@[i]@.finite() by {
        lemma_hand_size_is_len(hands@[i]);
        lemma_hand_size_is_len(moved@[i]);
        assert(vstd::relations::injective_on(f, hands@[i]@)) by {
            assert forall|a: Card, b: Card|
                hands@[i]@.contains(a) && hands@[i]@.contains(b) && #[trigger] f(a) == #[trigger] f(b)
                implies a == b by {
                assert(dealt(hands, a));
                assert(dealt(hands, b));
                lemma_moved_up_injective(hands, a, b);
            }
        }
        vstd::set_lib::lemma_map_size(hands@[i]@, moved@[i]@, f);
    }
    assert forall|i: int, j: int, d: Card|
        #![trigger moved@[i]@.contains(d), moved@[j]@.contains(d)]
        0 <= i < 4 && 0 <= j < 4 && moved@[i]@.contains(d) && moved@[j]@.contains(d) implies i == j by {
        let a = choose|a: Card| hands@[i]@.contains(a) && d == f(a);
        let b = choose|b: Card| hands@[j]@.contains(b) && d == f(b);
        assert(dealt(hands, a));
        assert(dealt(hands, b));
        lemma_moved_up_injective(hands, a, b);
    }
    let p = deal_start(hands, strain, opening_leader);
    let q = deal_start(moved, strain, opening_leader);
    assert(p.completed() == 0);
    assert(q.completed() == 0);
    assert(p.in_trick() == 0);
    assert(q.in_trick() == 0);
    assert forall|s: PlayerPosition| #[trigger] p.hand(s).finite() && p.hand(s).len() == n by {
        lemma_hand_size_is_len(hands@[s.rank() as int]);
    }
    assert forall|s: PlayerPosition| #[trigger] q.hand(s).finite() && q.hand(s).len() == n by {
        assert(hand_size(moved@[s.rank() as int]) == n);
    }
    assert(p.hands.len() == 4);
    assert(q.hands.len() == 4);
    assert(p.n == n && q.n == n);
    assert(p.leader() == opening_leader);
    assert(q.leader() == opening_leader);
    assert forall|s: PlayerPosition| #[trigger] p.hand(s).len() + (if crate::dds::double_dummy_state::seat_offset(s, p.leader()) < p.in_trick() {
        1int
    } else {
        0
    }) == p.n - p.completed() by {
        lemma_hand_size_is_len(hands@[s.rank() as int]);
        assert(p.hand(s) == hands@[s.rank() as int]@);
    }
    assert forall|s: PlayerPosition| #[trigger] q.hand(s).len() + (if crate::dds::double_dummy_state::seat_offset(s, q.leader()) < q.in_trick() {
        1int
    } else {
        0
    }) == q.n - q.completed() by {
        lemma_hand_size_is_len(moved@[s.rank() as int]);
        assert(hand_size(moved@[s.rank() as int]) == n);
        assert(q.hand(s) == moved@[s.rank() as int]@);
    }
    assert(p.valid());
    assert(q.valid());
    assert forall|s: PlayerPosition, c: Card| #[trigger] p.hand(s).contains(c) implies q.hand(s).contains(
        f(c),
    ) by {
        assert(hands@[s.rank() as int]@.map(f).contains(f(c)));
    }
    assert forall|s: PlayerPosition, d: Card| #[trigger] q.hand(s).contains(d) implies exists|c: Card|
        #[trigger] p.hand(s).contains(c) && f(c) == d by {
        let c = choose|c: Card| hands@[s.rank() as int]@.contains(c) && d == f(c);
        assert(p.hand(s).contains(c));
    }
    assert forall|a: Card, b: Card|
        #![trigger p.in_play(a), p.in_play(b)]
        p.in_play(a) && p.in_play(b) implies f(a).suit == a.suit && (a.suit == b.suit ==> (
        a.denomination.rank() < b.denomination.rank() <==> f(a).denomination.rank() < f(
            b,
        ).denomination.rank())) by {
        assert(p.current() =~= Seq::<Card>::empty());
        let sa = choose|s: PlayerPosition| #[trigger] p.hand(s).contains(a);
        let sb = choose|s: PlayerPosition| #[trigger] p.hand(s).contains(b);
        assert(hands@[sa.rank() as int]@.contains(a));
        assert(hands@[sb.rank() as int]@.contains(b));
        assert(dealt(hands, a));
        assert(dealt(hands, b));
        lemma_moved_up_rank(hands, a);
        lemma_moved_up_rank(hands, b);
        if a.suit == b.suit {
            if a.denomination.rank() < b.denomination.rank() {
                lemma_moved_up_order(hands, a, b);
            } else if b.denomination.rank() < a.denomination.rank() {
                lemma_moved_up_order(hands, b, a);
            }
        }
    }
    assert(corresponds(p, q, f));
    lemma_relative_order(p, q, f);
}

} // verus!
