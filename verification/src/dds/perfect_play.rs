//! What the search is meant to find: the tricks a side ends with when every seat, seeing all
//! the cards, plays as well as it can; and why trying one card of a run of touching cards is
//! enough.
use crate::card::{Card, Denomination, Suit};
use crate::dds::double_dummy_state::seat_offset;
use crate::dds::trick_manager::{
    card_beats, leader_of, lemma_same_side_counts, lemma_same_tricks, lemma_tricks_won_sum,
    trick_cards, tricks_won_by, winning_index,
};
use crate::deal::PlayerPosition;
use vstd::prelude::*;

verus! {

/// A position of the play: the cards each seat holds (North to West), the cards played since
/// the opening lead, the seat that led to the first trick, the trumps and the number of tricks.
pub struct Position {
    pub hands: Seq<Set<Card>>,
    pub played: Seq<Card>,
    pub opening: PlayerPosition,
    pub trumps: Option<Suit>,
    pub n: nat,
}

/// The card at position `i` of the order of the 52 cards: suit first, then denomination.
pub open spec fn card_at(i: int) -> Card {
    Card {
        suit: Suit::of_rank((i / 13) as u8),
        denomination: Denomination::of_rank((i % 13) as u8),
    }
}

/// Every card is at its own position of the order.
pub proof fn lemma_card_at_order(c: Card)
    ensures
        0 <= c.order() < 52,
        card_at(c.order()) == c,
{
    crate::card::lemma_suit_rank_bijection(c.suit, 0);
    crate::card::lemma_denomination_rank_bijection(c.denomination, 0);
}

impl Position {
    /// The number of finished tricks.
    pub open spec fn completed(self) -> int {
        (self.played.len() / 4) as int
    }

    /// The number of cards played to the current trick.
    pub open spec fn in_trick(self) -> int {
        (self.played.len() % 4) as int
    }

    /// The seat on lead to the current trick.
    pub open spec fn leader(self) -> PlayerPosition {
        leader_of(self.opening, self.trumps, self.played, self.completed())
    }

    /// The seat to play.
    pub open spec fn next(self) -> PlayerPosition {
        self.leader().turned(self.in_trick())
    }

    /// The tricks the side of a seat has won.
    pub open spec fn won(self, p: PlayerPosition) -> nat {
        tricks_won_by(self.opening, self.trumps, self.played, self.completed(), p)
    }

    /// The cards a seat holds.
    pub open spec fn hand(self, p: PlayerPosition) -> Set<Card> {
        self.hands[p.rank() as int]
    }

    /// The suit led to the current trick, if a card has been led.
    pub open spec fn lead_suit(self) -> Option<Suit> {
        if self.in_trick() == 0 {
            None
        } else {
            Some(self.played[4 * self.completed()].suit)
        }
    }

    /// Whether the seat to play holds a card of the suit.
    pub open spec fn holds_suit(self, s: Suit) -> bool {
        exists|d: Card| #[trigger] self.hand(self.next()).contains(d) && d.suit == s
    }

    /// Whether the seat to play may play the card: it holds it, and follows suit if it can.
    pub open spec fn legal(self, c: Card) -> bool {
        &&& self.hand(self.next()).contains(c)
        &&& match self.lead_suit() {
            None => true,
            Some(l) => c.suit == l || !self.holds_suit(l),
        }
    }

    /// The position once the seat to play has played the card.
    pub open spec fn after(self, c: Card) -> Position {
        Position {
            hands: self.hands.update(self.next().rank() as int, self.hand(self.next()).remove(c)),
            played: self.played.push(c),
            ..self
        }
    }

    /// Whether every trick has been played.
    pub open spec fn finished(self) -> bool {
        self.played.len() >= 4 * self.n
    }

    /// A position reached by play: four finite hands, no more cards played than the deal has,
    /// and each seat holding one card per trick left, less the one it has played to the
    /// current trick.
    pub open spec fn valid(self) -> bool {
        &&& self.hands.len() == 4
        &&& self.played.len() <= 4 * self.n
        &&& forall|p: PlayerPosition| #[trigger] self.hand(p).finite()
        &&& forall|p: PlayerPosition| #[trigger]
            self.hand(p).len() + (if seat_offset(p, self.leader()) < self.in_trick() {
                1int
            } else {
                0
            }) == self.n - self.completed()
    }

    /// The cards played to the current trick.
    pub open spec fn current(self) -> Seq<Card> {
        self.played.subrange(4 * self.completed(), self.played.len() as int)
    }

    /// Whether a card is still in play: held by a seat or played to the current trick.
    pub open spec fn in_play(self, c: Card) -> bool {
        (exists|s: PlayerPosition| #[trigger] self.hand(s).contains(c)) || self.current().contains(c)
    }
}

/// The tricks the side of `p` ends with when every seat plays as well as it can.
pub open spec fn value_for(pos: Position, p: PlayerPosition) -> int {
    if pos.next().same_side(p) {
        value(pos)
    } else {
        pos.n - value(pos)
    }
}

/// The tricks the side of the seat to play ends with when every seat plays as well as it can:
/// the tricks won once the play is over; before that, the best outcome of a card the seat may
/// play (or -1 if it may play none).
pub open spec fn value(pos: Position) -> int
    decreases 4 * pos.n - pos.played.len(), 53int,
{
    if pos.finished() {
        pos.won(pos.next()) as int
    } else {
        best_of(pos, 52)
    }
}

/// The best outcome for the seat to play among the cards at the first `k` positions of the
/// order that it may play, or -1 if it may play none of them.
pub open spec fn best_of(pos: Position, k: int) -> int
    decreases 4 * pos.n - pos.played.len(), k,
{
    if pos.finished() || k <= 0 {
        -1
    } else {
        let rest = best_of(pos, k - 1);
        let c = card_at(k - 1);
        if pos.legal(c) && outcome(pos, c) > rest {
            outcome(pos, c)
        } else {
            rest
        }
    }
}

/// The tricks the side of the seat to play ends with after playing the card, every seat then
/// playing as well as it can.
pub open spec fn outcome(pos: Position, c: Card) -> int
    decreases 4 * pos.n - pos.played.len(), 0int,
{
    if pos.finished() {
        -1
    } else {
        let next = pos.after(c);
        if next.next().same_side(pos.next()) {
            value(next)
        } else {
            pos.n - value(next)
        }
    }
}

/// The best outcome is that of a card the seat may play, and no card it may play does better.
pub proof fn lemma_best_of(pos: Position, k: int)
    requires
        !pos.finished(),
        0 <= k <= 52,
    ensures
        best_of(pos, k) >= -1,
        forall|i: int|
            0 <= i < k && pos.legal(#[trigger] card_at(i)) ==> outcome(pos, card_at(i)) <= best_of(
                pos,
                k,
            ),
        best_of(pos, k) == -1 || exists|i: int|
            0 <= i < k && pos.legal(#[trigger] card_at(i)) && outcome(pos, card_at(i)) == best_of(
                pos,
                k,
            ),
    decreases k,
{
    if k > 0 {
        lemma_best_of(pos, k - 1);
    }
}

/// The value of a position that is not over is the best outcome of the cards the seat to play
/// may play.
pub proof fn lemma_value_is_best(pos: Position)
    requires
        !pos.finished(),
    ensures
        value(pos) >= -1,
        forall|c: Card| pos.legal(c) ==> #[trigger] outcome(pos, c) <= value(pos),
        value(pos) == -1 || exists|c: Card| pos.legal(c) && #[trigger] outcome(pos, c) == value(
            pos,
        ),
{
    lemma_best_of(pos, 52);
    assert forall|c: Card| pos.legal(c) implies #[trigger] outcome(pos, c) <= value(pos) by {
        lemma_card_at_order(c);
        assert(pos.legal(card_at(c.order())));
    }
    if value(pos) != -1 {
        let i = choose|i: int|
            0 <= i < 52 && pos.legal(#[trigger] card_at(i)) && outcome(pos, card_at(i)) == best_of(
                pos,
                52,
            );
        assert(pos.legal(card_at(i)) && outcome(pos, card_at(i)) == value(pos));
    }
}

/// A position not over in which no card the seat may play brings more than `h` is worth at
/// most `h`.
pub proof fn lemma_value_at_most(pos: Position, h: int)
    requires
        !pos.finished(),
        -1 <= h,
        forall|c: Card| #![trigger pos.legal(c)] pos.legal(c) ==> outcome(pos, c) <= h,
    ensures
        value(pos) <= h,
{
    lemma_value_is_best(pos);
    if value(pos) != -1 {
        let c = choose|c: Card| pos.legal(c) && #[trigger] outcome(pos, c) == value(pos);
    }
}

/// The card with `a` and `b` exchanged.
pub open spec fn swapped(c: Card, a: Card, b: Card) -> Card {
    if c == a {
        b
    } else if c == b {
        a
    } else {
        c
    }
}

/// The cards with `a` and `b` exchanged.
pub open spec fn swap_seq(s: Seq<Card>, a: Card, b: Card) -> Seq<Card> {
    s.map_values(|c: Card| swapped(c, a, b))
}

/// The set of cards with `a` and `b` exchanged.
pub open spec fn swap_set(s: Set<Card>, a: Card, b: Card) -> Set<Card> {
    Set::new(|c: Card| s.contains(swapped(c, a, b)))
}

/// The position with `a` and `b` exchanged wherever they are.
pub open spec fn swap_position(pos: Position, a: Card, b: Card) -> Position {
    Position {
        hands: pos.hands.map_values(|h: Set<Card>| swap_set(h, a, b)),
        played: swap_seq(pos.played, a, b),
        ..pos
    }
}

/// `x` is a card of the suit of `a` and `b` ranking strictly between them.
pub open spec fn between(x: Card, a: Card, b: Card) -> bool {
    &&& x.suit == a.suit
    &&& (a.denomination.rank() < x.denomination.rank() < b.denomination.rank() || b.denomination.rank()
        < x.denomination.rank() < a.denomination.rank())
}

/// Exchanging `a` and `b` leaves the winner of the trick where it was: the trick does not hold
/// both, and if it holds one, none of its cards ranks between them.
pub open spec fn safe_trick(trick: Seq<Card>, a: Card, b: Card) -> bool {
    &&& !(trick.contains(a) && trick.contains(b))
    &&& (trick.contains(a) || trick.contains(b)) ==> forall|k: int|
        0 <= k < trick.len() ==> !between(#[trigger] trick[k], a, b)
}

/// Whether `a` beats `b` is unchanged when a card next to another in its suit takes its place.
proof fn lemma_beats_swapped(x: Card, y: Card, a: Card, b: Card, trumps: Option<Suit>)
    requires
        a != b,
        a.suit == b.suit,
        !((x == a || x == b) && (y == a || y == b) && x != y),
        (x == a || x == b) ==> !between(y, a, b),
        (y == a || y == b) ==> !between(x, a, b),
    ensures
        card_beats(swapped(x, a, b), swapped(y, a, b), trumps) == card_beats(x, y, trumps),
{
    crate::card::lemma_denomination_rank_bijection(a.denomination, 0);
    crate::card::lemma_denomination_rank_bijection(b.denomination, 0);
    crate::card::lemma_denomination_rank_bijection(x.denomination, 0);
    crate::card::lemma_denomination_rank_bijection(y.denomination, 0);
    if x.suit == a.suit && x != a && x != b {
        assert(x.denomination != a.denomination);
        assert(x.denomination != b.denomination);
    }
    if y.suit == a.suit && y != a && y != b {
        assert(y.denomination != a.denomination);
        assert(y.denomination != b.denomination);
    }
}

/// The winner of a trick that is safe for the exchange keeps its place.
pub proof fn lemma_winning_index_swapped(trick: Seq<Card>, a: Card, b: Card, trumps: Option<Suit>)
    requires
        a != b,
        a.suit == b.suit,
        safe_trick(trick, a, b),
    ensures
        winning_index(swap_seq(trick, a, b), trumps) == winning_index(trick, trumps),
    decreases trick.len(),
{
    if trick.len() > 1 {
        let front = trick.drop_last();
        assert(swap_seq(trick, a, b).drop_last() =~= swap_seq(front, a, b));
        assert(safe_trick(front, a, b)) by {
            if front.contains(a) {
                let k = choose|k: int| 0 <= k < front.len() && front[k] == a;
                assert(trick[k] == a);
            }
            if front.contains(b) {
                let k = choose|k: int| 0 <= k < front.len() && front[k] == b;
                assert(trick[k] == b);
            }
            assert forall|k: int| 0 <= k < front.len() implies front[k] == trick[k] by {}
        }
        lemma_winning_index_swapped(front, a, b, trumps);
        crate::dds::trick_manager::lemma_winning_index_bound(front, trumps);
        let w = winning_index(front, trumps);
        let x = trick.last();
        let y = trick[w];
        assert(front[w] == y);
        assert(trick[trick.len() - 1] == x);
        assert(x == a || x == b ==> trick.contains(x));
        assert(y == a || y == b ==> trick.contains(y));
        lemma_beats_swapped(x, y, a, b, trumps);
    }
}


/// The cards of trick `t` played so far: all four for a finished trick, those of the current
/// trick for the trick being played.
pub open spec fn trick_of(played: Seq<Card>, t: int) -> Seq<Card> {
    played.subrange(
        4 * t,
        if 4 * t + 4 <= played.len() {
            4 * t + 4
        } else {
            played.len() as int
        },
    )
}

/// `a` and `b` can be exchanged without changing the play from the position: of the same suit;
/// no card held, nor played to the current trick, ranks between them; held by one seat if held
/// at all; every finished trick safe for the exchange; and once one of them is in the current
/// trick, no seat still to play to it holds the other.
pub open spec fn exchangeable(pos: Position, a: Card, b: Card) -> bool {
    &&& a != b
    &&& a.suit == b.suit
    &&& pos.hands.len() == 4
    &&& forall|p: PlayerPosition, x: Card| #[trigger] pos.hand(p).contains(x) ==> !between(x, a, b)
    &&& forall|p: PlayerPosition, q: PlayerPosition|
        pos.hand(p).contains(a) && pos.hand(q).contains(b) ==> p == q
    &&& forall|t: int| 0 <= t < pos.completed() ==> safe_trick(#[trigger] trick_of(pos.played, t), a, b)
    &&& forall|k: int|
        4 * pos.completed() <= k < pos.played.len() ==> !between(#[trigger] pos.played[k], a, b)
    &&& !(trick_of(pos.played, pos.completed()).contains(a) && trick_of(
        pos.played,
        pos.completed(),
    ).contains(b))
    &&& trick_of(pos.played, pos.completed()).contains(a) ==> forall|p: PlayerPosition|
        crate::dds::double_dummy_state::seat_offset(p, pos.leader()) >= pos.in_trick()
            ==> !(#[trigger] pos.hand(p)).contains(b)
    &&& trick_of(pos.played, pos.completed()).contains(b) ==> forall|p: PlayerPosition|
        crate::dds::double_dummy_state::seat_offset(p, pos.leader()) >= pos.in_trick()
            ==> !(#[trigger] pos.hand(p)).contains(a)
}

/// Exchanging twice gives the card back.
pub proof fn lemma_swapped_twice(c: Card, a: Card, b: Card)
    ensures
        swapped(swapped(c, a, b), a, b) == c,
{
}

/// The tricks of the played cards with `a` and `b` exchanged are those tricks exchanged.
proof fn lemma_trick_cards_swapped(played: Seq<Card>, t: int, a: Card, b: Card)
    requires
        0 <= t,
        4 * t + 4 <= played.len(),
    ensures
        trick_cards(swap_seq(played, a, b), t) == swap_seq(trick_cards(played, t), a, b),
{
    assert(trick_cards(swap_seq(played, a, b), t) =~= swap_seq(trick_cards(played, t), a, b));
}

/// Leaders and tricks won stay the same when the exchanged tricks are safe.
pub proof fn lemma_tricks_swapped(
    opening: PlayerPosition,
    trumps: Option<Suit>,
    played: Seq<Card>,
    t: int,
    a: Card,
    b: Card,
)
    requires
        0 <= t,
        4 * t <= played.len(),
        a != b,
        a.suit == b.suit,
        forall|u: int| 0 <= u < t ==> safe_trick(#[trigger] trick_of(played, u), a, b),
    ensures
        leader_of(opening, trumps, swap_seq(played, a, b), t) == leader_of(opening, trumps, played, t),
        forall|p: PlayerPosition| #[trigger]
            tricks_won_by(opening, trumps, swap_seq(played, a, b), t, p) == tricks_won_by(
                opening,
                trumps,
                played,
                t,
                p,
            ),
    decreases t,
{
    if t > 0 {
        lemma_tricks_swapped(opening, trumps, played, t - 1, a, b);
        lemma_trick_cards_swapped(played, t - 1, a, b);
        assert(trick_of(played, t - 1) == trick_cards(played, t - 1));
        lemma_winning_index_swapped(trick_cards(played, t - 1), a, b, trumps);
        assert forall|p: PlayerPosition| #[trigger]
            tricks_won_by(opening, trumps, swap_seq(played, a, b), t, p) == tricks_won_by(
                opening,
                trumps,
                played,
                t,
                p,
            ) by {
            assert(tricks_won_by(opening, trumps, swap_seq(played, a, b), t - 1, p)
                == tricks_won_by(opening, trumps, played, t - 1, p));
        }
    }
}

/// The seat to play, the suit led and the tricks won are those of the position before the
/// exchange.
pub proof fn lemma_position_swapped(pos: Position, a: Card, b: Card)
    requires
        exchangeable(pos, a, b),
    ensures
        swap_position(pos, a, b).completed() == pos.completed(),
        swap_position(pos, a, b).in_trick() == pos.in_trick(),
        swap_position(pos, a, b).leader() == pos.leader(),
        swap_position(pos, a, b).next() == pos.next(),
        swap_position(pos, a, b).lead_suit() == pos.lead_suit(),
        forall|p: PlayerPosition| #[trigger] swap_position(pos, a, b).won(p) == pos.won(p),
        forall|p: PlayerPosition| #[trigger]
            swap_position(pos, a, b).hand(p) == swap_set(pos.hand(p), a, b),
        swap_position(pos, a, b).finished() == pos.finished(),
{
    let q = swap_position(pos, a, b);
    lemma_tricks_swapped(pos.opening, pos.trumps, pos.played, pos.completed(), a, b);
    assert forall|p: PlayerPosition| #[trigger] q.won(p) == pos.won(p) by {
        assert(tricks_won_by(pos.opening, pos.trumps, swap_seq(pos.played, a, b), pos.completed(), p)
            == tricks_won_by(pos.opening, pos.trumps, pos.played, pos.completed(), p));
    }
}

/// The seat to play may play the exchanged card in the exchanged position exactly when it may
/// play the card.
proof fn lemma_legal_swapped(pos: Position, a: Card, b: Card, c: Card)
    requires
        exchangeable(pos, a, b),
    ensures
        swap_position(pos, a, b).legal(swapped(c, a, b)) == pos.legal(c),
{
    let q = swap_position(pos, a, b);
    lemma_position_swapped(pos, a, b);
    lemma_swapped_twice(c, a, b);
    let h = pos.hand(pos.next());
    assert(q.hand(q.next()) == swap_set(h, a, b));
    if let Some(l) = pos.lead_suit() {
        if pos.holds_suit(l) {
            let d = choose|d: Card| #[trigger] h.contains(d) && d.suit == l;
            lemma_swapped_twice(d, a, b);
            assert(q.hand(q.next()).contains(swapped(d, a, b)));
        }
        if q.holds_suit(l) {
            let d = choose|d: Card| #[trigger] q.hand(q.next()).contains(d) && d.suit == l;
            assert(h.contains(swapped(d, a, b)));
        }
    }
}

/// Playing the exchanged card in the exchanged position gives the exchanged position after
/// playing the card.
proof fn lemma_after_swapped(pos: Position, a: Card, b: Card, c: Card)
    requires
        exchangeable(pos, a, b),
    ensures
        swap_position(pos, a, b).after(swapped(c, a, b)) == swap_position(pos.after(c), a, b),
{
    let q = swap_position(pos, a, b);
    lemma_position_swapped(pos, a, b);
    let left = q.after(swapped(c, a, b));
    let right = swap_position(pos.after(c), a, b);
    let i = pos.next().rank() as int;
    assert forall|j: int| 0 <= j < 4 implies left.hands[j] =~= right.hands[j] by {
        if j == i {
            assert forall|x: Card| left.hands[j].contains(x) == right.hands[j].contains(x) by {
                lemma_swapped_twice(x, a, b);
                lemma_swapped_twice(c, a, b);
            }
        }
    }
    assert(left.hands =~= right.hands);
    assert(left.played =~= right.played);
}

/// Playing a card the seat to play may play keeps `a` and `b` exchangeable.
#[verifier::spinoff_prover]
#[verifier::rlimit(50)]
pub proof fn lemma_exchangeable_after(pos: Position, a: Card, b: Card, c: Card)
    requires
        exchangeable(pos, a, b),
        pos.legal(c),
        !pos.finished(),
    ensures
        exchangeable(pos.after(c), a, b),
{
    let q = pos.after(c);
    let me = pos.next();
    let c0 = pos.completed();
    assert(!between(c, a, b));
    assert(forall|k: int| 0 <= k < pos.played.len() ==> q.played[k] == pos.played[k]);
    assert(q.played[pos.played.len() as int] == c);
    assert forall|t: int| 0 <= t < c0 implies #[trigger] trick_of(q.played, t) == trick_of(pos.played, t) by {
        assert(trick_of(q.played, t) =~= trick_of(pos.played, t));
    }
    let cur = trick_of(pos.played, c0);
    let new_cur = cur.push(c);
    assert(trick_of(q.played, c0) =~= new_cur);
    // the current trick with the card added is safe
    if c == a {
        assert(!cur.contains(b)) by {
            if cur.contains(b) {
                assert(crate::dds::double_dummy_state::seat_offset(me, pos.leader()) == pos.in_trick());
                assert(pos.hand(me).contains(a));
            }
        }
    }
    if c == b {
        assert(!cur.contains(a)) by {
            if cur.contains(a) {
                assert(crate::dds::double_dummy_state::seat_offset(me, pos.leader()) == pos.in_trick());
                assert(pos.hand(me).contains(b));
            }
        }
    }
    assert forall|k: int| 0 <= k < new_cur.len() implies !between(#[trigger] new_cur[k], a, b) by {
        if k < cur.len() {
            assert(new_cur[k] == pos.played[4 * c0 + k]);
        }
    }
    vstd::seq_lib::lemma_seq_contains_after_push(cur, c, a);
    vstd::seq_lib::lemma_seq_contains_after_push(cur, c, b);
    assert(safe_trick(new_cur, a, b));
    assert forall|p: PlayerPosition, x: Card| #[trigger] q.hand(p).contains(x) implies !between(
        x,
        a,
        b,
    ) by {
        assert(pos.hand(p).contains(x));
    }
    assert forall|p: PlayerPosition, r: PlayerPosition|
        q.hand(p).contains(a) && q.hand(r).contains(b) implies p == r by {
        assert(pos.hand(p).contains(a) && pos.hand(r).contains(b));
    }
    if pos.in_trick() < 3 {
        assert(q.completed() == c0);
        assert(q.in_trick() == pos.in_trick() + 1);
        assert(q.played.subrange(0, 4 * c0) =~= pos.played.subrange(0, 4 * c0));
        crate::dds::trick_manager::lemma_same_tricks(pos.opening, pos.trumps, q.played, pos.played, c0);
        assert(q.leader() == pos.leader());
        assert forall|k: int| 4 * q.completed() <= k < q.played.len() implies !between(
            #[trigger] q.played[k],
            a,
            b,
        ) by {
            assert(q.played[k] == new_cur[k - 4 * c0]);
        }
        if new_cur.contains(a) {
            assert forall|p: PlayerPosition|
                crate::dds::double_dummy_state::seat_offset(p, q.leader()) >= q.in_trick()
                    implies !(#[trigger] q.hand(p)).contains(b) by {
                if c == a {
                    if q.hand(p).contains(b) {
                        assert(pos.hand(me).contains(a));
                        assert(pos.hand(p).contains(b));
                    }
                } else {
                    assert(pos.hand(p).contains(b) ==> false);
                }
            }
        }
        if new_cur.contains(b) {
            assert forall|p: PlayerPosition|
                crate::dds::double_dummy_state::seat_offset(p, q.leader()) >= q.in_trick()
                    implies !(#[trigger] q.hand(p)).contains(a) by {
                if c == b {
                    if q.hand(p).contains(a) {
                        assert(pos.hand(me).contains(b));
                        assert(pos.hand(p).contains(a));
                    }
                } else {
                    assert(pos.hand(p).contains(a) ==> false);
                }
            }
        }
    } else {
        assert(q.completed() == c0 + 1);
        assert(q.in_trick() == 0);
        assert forall|t: int| 0 <= t < q.completed() implies safe_trick(
            #[trigger] trick_of(q.played, t),
            a,
            b,
        ) by {
            if t < c0 {
                assert(trick_of(q.played, t) == trick_of(pos.played, t));
            }
        }
        assert(trick_of(q.played, q.completed()) =~= Seq::<Card>::empty());
    }
}

/// The value of a position does not change when two exchangeable cards are exchanged.
pub proof fn lemma_value_swapped(pos: Position, a: Card, b: Card)
    requires
        exchangeable(pos, a, b),
    ensures
        value(swap_position(pos, a, b)) == value(pos),
    decreases 4 * pos.n - pos.played.len(),
{
    let q = swap_position(pos, a, b);
    lemma_position_swapped(pos, a, b);
    if !pos.finished() {
        lemma_value_is_best(pos);
        lemma_value_is_best(q);
        assert forall|c: Card| pos.legal(c) implies #[trigger] outcome(q, swapped(c, a, b)) == outcome(
            pos,
            c,
        ) by {
            lemma_exchangeable_after(pos, a, b, c);
            lemma_after_swapped(pos, a, b, c);
            lemma_value_swapped(pos.after(c), a, b);
            lemma_position_swapped(pos.after(c), a, b);
        }
        assert forall|c: Card| pos.legal(c) implies #[trigger] outcome(pos, c) <= value(q) by {
            lemma_legal_swapped(pos, a, b, c);
            assert(q.legal(swapped(c, a, b)));
            assert(outcome(q, swapped(c, a, b)) <= value(q));
        }
        assert forall|c: Card| q.legal(c) implies #[trigger] outcome(q, c) <= value(pos) by {
            let d = swapped(c, a, b);
            lemma_swapped_twice(c, a, b);
            lemma_legal_swapped(pos, a, b, d);
            assert(pos.legal(d));
            assert(outcome(q, swapped(d, a, b)) == outcome(pos, d));
        }
        if value(pos) != -1 {
            let c = choose|c: Card| pos.legal(c) && #[trigger] outcome(pos, c) == value(pos);
            assert(outcome(pos, c) <= value(q));
        }
        if value(q) != -1 {
            let c = choose|c: Card| q.legal(c) && #[trigger] outcome(q, c) == value(q);
            assert(outcome(q, c) <= value(pos));
        }
    }
}

/// Two cards of one suit held by the seat to play, with no card ranking between them held by any
/// seat or played to the current trick, and neither played before, bring the same outcome: it is
/// enough to try one card of a run of touching cards.
pub proof fn lemma_touching_cards_equal(pos: Position, a: Card, b: Card)
    requires
        pos.hands.len() == 4,
        !pos.finished(),
        a != b,
        a.suit == b.suit,
        pos.legal(a),
        pos.legal(b),
        !pos.played.contains(a),
        !pos.played.contains(b),
        forall|p: PlayerPosition| p != pos.next() ==> !(#[trigger] pos.hand(p)).contains(a) && !pos.hand(p).contains(b),
        forall|p: PlayerPosition, x: Card| #[trigger] pos.hand(p).contains(x) ==> !between(x, a, b),
        forall|k: int|
            4 * pos.completed() <= k < pos.played.len() ==> !between(#[trigger] pos.played[k], a, b),
    ensures
        outcome(pos, a) == outcome(pos, b),
{
    let c0 = pos.completed();
    assert forall|t: int, x: Card| 0 <= t <= c0 && #[trigger] trick_of(pos.played, t).contains(x)
        implies pos.played.contains(x) by {
        let tr = trick_of(pos.played, t);
        let i = choose|i: int| 0 <= i < tr.len() && tr[i] == x;
        assert(pos.played[4 * t + i] == x);
    }
    assert(exchangeable(pos, a, b));
    let q = pos.after(a);
    let r = pos.after(b);
    lemma_exchangeable_after(pos, a, b, a);
    lemma_value_swapped(q, a, b);
    lemma_position_swapped(q, a, b);
    let sq = swap_position(q, a, b);
    assert(sq.played =~= r.played) by {
        assert forall|k: int| 0 <= k < pos.played.len() implies sq.played[k] == r.played[k] by {
            assert(pos.played[k] != a && pos.played[k] != b);
        }
    }
    let me = pos.next().rank() as int;
    assert forall|j: int| 0 <= j < 4 implies sq.hands[j] =~= r.hands[j] by {
        if j != me {
            let p = PlayerPosition::of_rank(j as u8);
            assert(p.rank() == j);
            assert(pos.hands[j] == pos.hand(p));
        }
    }
    assert(sq.hands =~= r.hands);
    assert(sq == r);
}

/// The seat `k` places after the leader is the one seat at that offset from it.
pub proof fn lemma_seat_offset(l: PlayerPosition, k: int)
    requires
        0 <= k < 4,
    ensures
        forall|p: PlayerPosition| #[trigger] seat_offset(p, l) == k <==> p == l.turned(k),
        forall|p: PlayerPosition| 0 <= #[trigger] seat_offset(p, l) < 4,
{
}

/// The tricks won by partners are the same, and those of the two sides add up to the finished
/// tricks.
pub proof fn lemma_position_won(pos: Position, p: PlayerPosition, q: PlayerPosition)
    ensures
        p.same_side(q) ==> pos.won(p) == pos.won(q),
        !p.same_side(q) ==> pos.won(p) + pos.won(q) == pos.completed(),
{
    let t = pos.completed();
    if p.same_side(q) {
        lemma_same_side_counts(pos.opening, pos.trumps, pos.played, t, p, q);
    } else {
        lemma_tricks_won_sum(pos.opening, pos.trumps, pos.played, t, p);
        lemma_same_side_counts(pos.opening, pos.trumps, pos.played, t, q, p.turned(1));
    }
}

/// Playing a card: within a trick, the leader and the tricks won stay; the fourth card
/// finishes the trick, which its winner leads to next and whose side it counts for.
pub proof fn lemma_position_step(pos: Position, c: Card, p: PlayerPosition)
    ensures
        pos.in_trick() < 3 ==> pos.after(c).completed() == pos.completed() && pos.after(c).in_trick()
            == pos.in_trick() + 1 && pos.after(c).leader() == pos.leader() && pos.after(c).won(p)
            == pos.won(p),
        pos.in_trick() == 3 ==> pos.after(c).completed() == pos.completed() + 1
            && pos.after(c).in_trick() == 0 && pos.after(c).won(p) == pos.won(p) + if pos.after(
            c,
        ).leader().same_side(p) {
            1nat
        } else {
            0
        },
{
    let q = pos.after(c);
    let t = pos.completed();
    assert(q.played.subrange(0, 4 * t) =~= pos.played.subrange(0, 4 * t));
    lemma_same_tricks(pos.opening, pos.trumps, q.played, pos.played, t);
    if pos.in_trick() == 3 {
        assert(q.completed() == t + 1);
        assert(tricks_won_by(q.opening, q.trumps, q.played, t + 1, p) == tricks_won_by(
            q.opening,
            q.trumps,
            q.played,
            t,
            p,
        ) + if leader_of(q.opening, q.trumps, q.played, t + 1).same_side(p) {
            1nat
        } else {
            0
        });
    }
}

/// Playing a card the seat to play holds keeps the position one reached by play.
pub proof fn lemma_valid_after(pos: Position, c: Card)
    requires
        pos.valid(),
        !pos.finished(),
        pos.hand(pos.next()).contains(c),
    ensures
        pos.after(c).valid(),
{
    let q = pos.after(c);
    let me = pos.next();
    lemma_position_step(pos, c, me);
    lemma_seat_offset(pos.leader(), pos.in_trick());
    vstd::set::axiom_set_remove_finite(pos.hand(me), c);
    vstd::set::axiom_set_remove_len(pos.hand(me), c);
    assert forall|p: PlayerPosition| #[trigger] q.hand(p).finite() by {
        if p != me {
            assert(q.hand(p) == pos.hand(p));
        }
    }
    assert forall|p: PlayerPosition| #[trigger]
        q.hand(p).len() + (if seat_offset(p, q.leader()) < q.in_trick() {
            1int
        } else {
            0
        }) == q.n - q.completed() by {
        if p != me {
            assert(q.hand(p) == pos.hand(p));
        }
    }
}

/// A position not over has a card the seat to play may play.
pub proof fn lemma_legal_exists(pos: Position)
    requires
        pos.valid(),
        !pos.finished(),
    ensures
        pos.hand(pos.next()).len() >= 1,
        exists|c: Card| pos.legal(c),
{
    let me = pos.next();
    lemma_seat_offset(pos.leader(), pos.in_trick());
    let h = pos.hand(me);
    vstd::set::axiom_set_choose_len(h);
    let c = h.choose();
    match pos.lead_suit() {
        Some(l) => {
            if pos.holds_suit(l) {
                let d = choose|d: Card| #[trigger] h.contains(d) && d.suit == l;
                assert(pos.legal(d));
            } else {
                assert(pos.legal(c));
            }
        },
        None => {
            assert(pos.legal(c));
        },
    }
}

/// The outcome of a card lies between the tricks the side to play has won and those plus the
/// tricks left, when the value after it does so for the seat that plays next.
proof fn lemma_outcome_bounds(pos: Position, c: Card)
    requires
        pos.valid(),
        !pos.finished(),
        pos.after(c).won(pos.after(c).next()) <= value(pos.after(c)) <= pos.after(c).won(
            pos.after(c).next(),
        ) + pos.n - pos.after(c).completed(),
    ensures
        pos.won(pos.next()) <= outcome(pos, c) <= pos.won(pos.next()) + pos.n - pos.completed(),
{
    let q = pos.after(c);
    let me = pos.next();
    lemma_position_step(pos, c, me);
    lemma_position_won(q, me, q.next());
    lemma_position_won(pos, me, me);
}

/// The tricks the side to play ends with lie between those it has won and those plus the
/// tricks left.
pub proof fn lemma_value_bounds(pos: Position)
    requires
        pos.valid(),
    ensures
        pos.won(pos.next()) <= value(pos) <= pos.won(pos.next()) + pos.n - pos.completed(),
    decreases 4 * pos.n - pos.played.len(),
{
    if !pos.finished() {
        let me = pos.next();
        lemma_value_is_best(pos);
        lemma_legal_exists(pos);
        assert forall|c: Card| pos.legal(c) implies pos.won(me) <= #[trigger] outcome(pos, c)
            <= pos.won(me) + pos.n - pos.completed() by {
            lemma_valid_after(pos, c);
            lemma_value_bounds(pos.after(c));
            lemma_outcome_bounds(pos, c);
        }
        let c0 = choose|c: Card| pos.legal(c);
        assert(outcome(pos, c0) <= value(pos));
    }
}

/// What a side ends with and what the other side ends with add up to all the tricks.
pub proof fn lemma_value_for_sides(pos: Position, p: PlayerPosition, q: PlayerPosition)
    ensures
        p.same_side(q) ==> value_for(pos, p) == value_for(pos, q),
        !p.same_side(q) ==> value_for(pos, p) + value_for(pos, q) == pos.n,
{
}

/// Once every trick is played, a side ends with the tricks it won.
pub proof fn lemma_finished_value_for(pos: Position, p: PlayerPosition)
    requires
        pos.valid(),
        pos.finished(),
    ensures
        value_for(pos, p) == pos.won(p),
{
    lemma_position_won(pos, pos.next(), p);
}

/// A seat holding a single card plays it: the position is worth what playing it gives.
pub proof fn lemma_forced_play(pos: Position, c: Card, p: PlayerPosition)
    requires
        pos.valid(),
        !pos.finished(),
        pos.hand(pos.next()).len() == 1,
        pos.hand(pos.next()).contains(c),
    ensures
        value(pos) == outcome(pos, c),
        value_for(pos, p) == value_for(pos.after(c), p),
{
    let me = pos.next();
    let h = pos.hand(me);
    vstd::set::axiom_set_remove_len(h, c);
    assert forall|d: Card| h.contains(d) implies d == c by {
        if d != c {
            assert(h.remove(c).contains(d));
            vstd::set::axiom_set_remove_finite(h, c);
            vstd::set::axiom_set_contains_len(h.remove(c), d);
        }
    }
    assert(pos.legal(c)) by {
        if let Some(l) = pos.lead_suit() {
            if pos.holds_suit(l) {
                let d = choose|d: Card| #[trigger] h.contains(d) && d.suit == l;
                assert(d == c);
            }
        }
    }
    lemma_value_is_best(pos);
    lemma_valid_after(pos, c);
    lemma_value_bounds(pos.after(c));
    lemma_outcome_bounds(pos, c);
    lemma_value_for_sides(pos.after(c), me, p);
}

/// `f` keeps the suit of every card in play and the order of the cards in play of each suit.
pub open spec fn keeps_order(pos: Position, f: spec_fn(Card) -> Card) -> bool {
    forall|a: Card, b: Card|
        #![trigger pos.in_play(a), pos.in_play(b)]
        pos.in_play(a) && pos.in_play(b) ==> f(a).suit == a.suit && (a.suit == b.suit ==> (
        a.denomination.rank() < b.denomination.rank() <==> f(a).denomination.rank() < f(
            b,
        ).denomination.rank()))
}

/// `q` is `p` with its cards in play renamed by `f`: the same point of a trick, the same
/// leader, trumps and tricks left; each seat holding the renamed cards of its cards; the
/// current trick holding the renamed cards; and `f` keeping suits and order.
pub open spec fn corresponds(p: Position, q: Position, f: spec_fn(Card) -> Card) -> bool {
    &&& p.valid()
    &&& q.valid()
    &&& p.n - p.completed() == q.n - q.completed()
    &&& p.in_trick() == q.in_trick()
    &&& p.trumps == q.trumps
    &&& p.leader() == q.leader()
    &&& forall|s: PlayerPosition, c: Card| #[trigger] p.hand(s).contains(c) ==> q.hand(s).contains(f(c))
    &&& forall|s: PlayerPosition, d: Card|
        #[trigger] q.hand(s).contains(d) ==> exists|c: Card| #[trigger]
            p.hand(s).contains(c) && f(c) == d
    &&& forall|k: int| 0 <= k < p.in_trick() ==> #[trigger] q.current()[k] == f(p.current()[k])
    &&& keeps_order(p, f)
}

/// Renaming keeps distinct cards in play distinct.
proof fn lemma_keeps_order_injective(pos: Position, f: spec_fn(Card) -> Card, a: Card, b: Card)
    requires
        keeps_order(pos, f),
        pos.in_play(a),
        pos.in_play(b),
        a != b,
    ensures
        f(a) != f(b),
{
    crate::card::lemma_denomination_rank_bijection(a.denomination, 0);
    crate::card::lemma_denomination_rank_bijection(b.denomination, 0);
    if a.suit == b.suit {
        assert(a.denomination != b.denomination);
        assert(pos.in_play(b) && pos.in_play(a));
    }
}

/// Whether one card beats another is unchanged by a renaming that keeps suits and order.
proof fn lemma_beats_mapped(x: Card, y: Card, fx: Card, fy: Card, trumps: Option<Suit>)
    requires
        fx.suit == x.suit,
        fy.suit == y.suit,
        x.suit == y.suit ==> (x.denomination.rank() < y.denomination.rank()
            <==> fx.denomination.rank() < fy.denomination.rank()),
        x.suit == y.suit ==> (y.denomination.rank() < x.denomination.rank()
            <==> fy.denomination.rank() < fx.denomination.rank()),
    ensures
        card_beats(fx, fy, trumps) == card_beats(x, y, trumps),
{
}

/// The winner of a trick keeps its place when its cards are renamed keeping suits and order.
pub proof fn lemma_winning_index_mapped(
    trick: Seq<Card>,
    image: Seq<Card>,
    trumps: Option<Suit>,
)
    requires
        image.len() == trick.len(),
        forall|i: int| 0 <= i < trick.len() ==> (#[trigger] image[i]).suit == trick[i].suit,
        forall|i: int, j: int|
            0 <= i < trick.len() && 0 <= j < trick.len() && trick[i].suit == trick[j].suit ==> (
            #[trigger] trick[i].denomination.rank() < #[trigger] trick[j].denomination.rank()
                <==> image[i].denomination.rank() < image[j].denomination.rank()),
    ensures
        winning_index(image, trumps) == winning_index(trick, trumps),
    decreases trick.len(),
{
    if trick.len() > 1 {
        let n = trick.len() - 1;
        lemma_winning_index_mapped(trick.drop_last(), image.drop_last(), trumps);
        crate::dds::trick_manager::lemma_winning_index_bound(trick.drop_last(), trumps);
        let w = winning_index(trick.drop_last(), trumps);
        assert(trick.drop_last()[w] == trick[w]);
        assert(image.drop_last()[w] == image[w]);
        assert(image[n].suit == trick[n].suit);
        assert(image[w].suit == trick[w].suit);
        if trick[n].suit == trick[w].suit {
            assert(trick[n].denomination.rank() < trick[w].denomination.rank()
                <==> image[n].denomination.rank() < image[w].denomination.rank());
            assert(trick[w].denomination.rank() < trick[n].denomination.rank()
                <==> image[w].denomination.rank() < image[n].denomination.rank());
        }
        lemma_beats_mapped(trick[n], trick[w], image[n], image[w], trumps);
    }
}

/// A card in a corresponding position may be played exactly when its renamed card may be
/// played in the other.
proof fn lemma_corresponds_legal(p: Position, q: Position, f: spec_fn(Card) -> Card, c: Card)
    requires
        corresponds(p, q, f),
        p.hand(p.next()).contains(c),
    ensures
        p.next() == q.next(),
        q.hand(q.next()).contains(f(c)),
        p.legal(c) == q.legal(f(c)),
{
    let me = p.next();
    assert(q.next() == me);
    assert(p.in_play(c));
    assert(f(c).suit == c.suit);
    if p.in_trick() > 0 {
        assert(p.current()[0] == p.played[4 * p.completed()]);
        assert(q.current()[0] == q.played[4 * q.completed()]);
        assert(p.current().contains(p.current()[0]));
        assert(p.in_play(p.current()[0]));
        assert(q.current()[0] == f(p.current()[0]));
        assert(p.lead_suit() == q.lead_suit());
        let l = p.lead_suit().unwrap();
        if p.holds_suit(l) {
            let d = choose|d: Card| #[trigger] p.hand(me).contains(d) && d.suit == l;
            assert(p.in_play(d));
            assert(q.hand(me).contains(f(d)));
        }
        if q.holds_suit(l) {
            let e = choose|e: Card| #[trigger] q.hand(me).contains(e) && e.suit == l;
            let d = choose|d: Card| #[trigger] p.hand(me).contains(d) && f(d) == e;
            assert(p.in_play(d));
            assert(p.hand(me).contains(d) && d.suit == l);
        }
    }
}

/// The cards of the current trick with the card added are in play, and their renamed cards
/// are those of the other current trick with the renamed card added.
proof fn lemma_trick_with_card(p: Position, q: Position, f: spec_fn(Card) -> Card, c: Card)
    requires
        corresponds(p, q, f),
        p.hand(p.next()).contains(c),
    ensures
        forall|x: Card| p.current().push(c).contains(x) ==> p.in_play(x),
        forall|i: int|
            0 <= i < p.current().push(c).len() ==> (#[trigger] q.current().push(f(c))[i]) == f(
                p.current().push(c)[i],
            ),
        q.current().push(f(c)).len() == p.current().push(c).len(),
{
    let tp_cards = p.current().push(c);
    let tq_cards = q.current().push(f(c));
    assert(p.in_play(c));
    assert forall|x: Card| tp_cards.contains(x) implies p.in_play(x) by {
        let i = choose|i: int| 0 <= i < tp_cards.len() && tp_cards[i] == x;
        if i < p.current().len() {
            assert(p.current()[i] == x);
            assert(p.current().contains(x));
        }
    }
    assert forall|i: int| 0 <= i < tp_cards.len() implies (#[trigger] tq_cards[i]) == f(tp_cards[i]) by {
        if i < p.in_trick() {
            assert(q.current()[i] == f(p.current()[i]));
        }
    }
}

/// The card that finishes a trick and its renamed card win from the same place.
#[verifier::spinoff_prover]
proof fn lemma_corresponds_winner(p: Position, q: Position, f: spec_fn(Card) -> Card, c: Card)
    requires
        corresponds(p, q, f),
        p.hand(p.next()).contains(c),
        p.in_trick() == 3,
    ensures
        winning_index(trick_cards(p.after(c).played, p.completed()), p.trumps) == winning_index(
            trick_cards(q.after(f(c)).played, q.completed()),
            q.trumps,
        ),
{
    let fc = f(c);
    let p1 = p.after(c);
    let q1 = q.after(fc);
    let tp = p.completed();
    let tq = q.completed();
    lemma_trick_with_card(p, q, f, c);
    let tp_cards = p.current().push(c);
    let tq_cards = q.current().push(fc);
    assert(tp_cards =~= trick_cards(p1.played, tp));
    assert(tq_cards =~= trick_cards(q1.played, tq));
    assert forall|i: int| 0 <= i < tp_cards.len() implies (#[trigger] tq_cards[i]).suit
        == tp_cards[i].suit by {
        assert(tp_cards.contains(tp_cards[i]));
        assert(p.in_play(tp_cards[i]));
    }
    assert forall|i: int, j: int|
        0 <= i < tp_cards.len() && 0 <= j < tp_cards.len() && tp_cards[i].suit
            == tp_cards[j].suit implies (#[trigger] tp_cards[i].denomination.rank()
        < #[trigger] tp_cards[j].denomination.rank() <==> tq_cards[i].denomination.rank()
        < tq_cards[j].denomination.rank()) by {
        assert(tp_cards.contains(tp_cards[i]));
        assert(tp_cards.contains(tp_cards[j]));
        assert(p.in_play(tp_cards[i]) && p.in_play(tp_cards[j]));
    }
    lemma_winning_index_mapped(tp_cards, tq_cards, p.trumps);
}

/// Playing a card and its renamed card: the same point of the trick, the same leader and
/// tricks left, the same tricks added to each side.
#[verifier::spinoff_prover]
proof fn lemma_corresponds_step(p: Position, q: Position, f: spec_fn(Card) -> Card, c: Card)
    requires
        corresponds(p, q, f),
        !p.finished(),
        !q.finished(),
        p.hand(p.next()).contains(c),
    ensures
        p.after(c).valid(),
        q.after(f(c)).valid(),
        p.after(c).n - p.after(c).completed() == q.after(f(c)).n - q.after(f(c)).completed(),
        p.after(c).in_trick() == q.after(f(c)).in_trick(),
        p.after(c).leader() == q.after(f(c)).leader(),
        p.after(c).next() == q.after(f(c)).next(),
        forall|s: PlayerPosition| #[trigger] p.after(c).won(s) - p.won(s) == q.after(f(c)).won(s)
            - q.won(s),
{
    let me = p.next();
    let fc = f(c);
    lemma_corresponds_legal(p, q, f, c);
    let p1 = p.after(c);
    let q1 = q.after(fc);
    lemma_valid_after(p, c);
    lemma_valid_after(q, fc);
    let tp = p.completed();
    let tq = q.completed();
    assert(p1.played.subrange(0, 4 * tp) =~= p.played.subrange(0, 4 * tp));
    assert(q1.played.subrange(0, 4 * tq) =~= q.played.subrange(0, 4 * tq));
    lemma_same_tricks(p.opening, p.trumps, p1.played, p.played, tp);
    lemma_same_tricks(q.opening, q.trumps, q1.played, q.played, tq);
    if p.in_trick() == 3 {
        lemma_corresponds_winner(p, q, f, c);
        assert(p1.completed() == tp + 1);
        assert(q1.completed() == tq + 1);
        assert(p1.leader() == leader_of(p.opening, p.trumps, p1.played, tp).turned(
            winning_index(trick_cards(p1.played, tp), p.trumps),
        ));
        assert(q1.leader() == leader_of(q.opening, q.trumps, q1.played, tq).turned(
            winning_index(trick_cards(q1.played, tq), q.trumps),
        ));
    }
    assert forall|s: PlayerPosition| #[trigger] p1.won(s) - p.won(s) == q1.won(s) - q.won(s) by {
        lemma_position_step(p, c, s);
        lemma_position_step(q, fc, s);
    }
    lemma_position_step(p, c, me);
    lemma_position_step(q, fc, me);
}

/// Playing a card and its renamed card: each seat holds the renamed cards of its cards.
#[verifier::spinoff_prover]
proof fn lemma_corresponds_hands(p: Position, q: Position, f: spec_fn(Card) -> Card, c: Card)
    requires
        corresponds(p, q, f),
        p.hand(p.next()).contains(c),
    ensures
        forall|s: PlayerPosition, x: Card| #[trigger] p.after(c).hand(s).contains(x) ==> q.after(
            f(c),
        ).hand(s).contains(f(x)),
        forall|s: PlayerPosition, d: Card|
            #[trigger] q.after(f(c)).hand(s).contains(d) ==> exists|x: Card| #[trigger]
                p.after(c).hand(s).contains(x) && f(x) == d,
{
    let me = p.next();
    let fc = f(c);
    lemma_corresponds_legal(p, q, f, c);
    let p1 = p.after(c);
    let q1 = q.after(fc);
    assert(p.in_play(c));
    assert forall|s: PlayerPosition, x: Card| #[trigger] p1.hand(s).contains(x) implies q1.hand(
        s,
    ).contains(f(x)) by {
        assert(p.hand(s).contains(x));
        if s == me {
            assert(x != c);
            assert(p.in_play(x));
            lemma_keeps_order_injective(p, f, x, c);
        }
    }
    assert forall|s: PlayerPosition, d: Card| #[trigger] q1.hand(s).contains(d) implies exists|x: Card|
        #[trigger] p1.hand(s).contains(x) && f(x) == d by {
        assert(q.hand(s).contains(d));
        let x = choose|x: Card| #[trigger] p.hand(s).contains(x) && f(x) == d;
        if s == me {
            assert(x != c);
        }
        assert(p1.hand(s).contains(x));
    }
}

/// Playing a card and its renamed card: the current tricks correspond and the renaming still
/// keeps the order of the cards in play.
#[verifier::spinoff_prover]
proof fn lemma_corresponds_trick(p: Position, q: Position, f: spec_fn(Card) -> Card, c: Card)
    requires
        corresponds(p, q, f),
        p.hand(p.next()).contains(c),
    ensures
        forall|k: int|
            0 <= k < p.after(c).in_trick() ==> #[trigger] q.after(f(c)).current()[k] == f(
                p.after(c).current()[k],
            ),
        keeps_order(p.after(c), f),
{
    let fc = f(c);
    let p1 = p.after(c);
    let q1 = q.after(fc);
    lemma_trick_with_card(p, q, f, c);
    let tp_cards = p.current().push(c);
    let tq_cards = q.current().push(fc);
    let tp = p.completed();
    let tq = q.completed();
    if p.in_trick() < 3 {
        assert(p1.completed() == tp);
        assert(q1.completed() == tq);
        assert(p1.current() =~= tp_cards);
        assert(q1.current() =~= tq_cards);
    }
    assert forall|x: Card| p1.in_play(x) implies p.in_play(x) by {
        if exists|s: PlayerPosition| #[trigger] p1.hand(s).contains(x) {
            let s = choose|s: PlayerPosition| #[trigger] p1.hand(s).contains(x);
            assert(p.hand(s).contains(x));
        } else {
            assert(p1.current().contains(x));
            if p.in_trick() == 3 {
                assert(p1.current().len() == 0);
            } else {
                assert(tp_cards.contains(x));
            }
        }
    }
    assert forall|a: Card, b: Card|
        #![trigger p1.in_play(a), p1.in_play(b)]
        p1.in_play(a) && p1.in_play(b) implies f(a).suit == a.suit && (a.suit == b.suit ==> (
        a.denomination.rank() < b.denomination.rank() <==> f(a).denomination.rank() < f(
            b,
        ).denomination.rank())) by {
        assert(p.in_play(a) && p.in_play(b));
    }
}

/// Playing a card and its renamed card keeps the positions corresponding, with the same seat
/// to play next and the same tricks added to each side.
proof fn lemma_corresponds_after(p: Position, q: Position, f: spec_fn(Card) -> Card, c: Card)
    requires
        corresponds(p, q, f),
        !p.finished(),
        !q.finished(),
        p.hand(p.next()).contains(c),
    ensures
        corresponds(p.after(c), q.after(f(c)), f),
        p.after(c).next() == q.after(f(c)).next(),
        forall|s: PlayerPosition| #[trigger] p.after(c).won(s) - p.won(s) == q.after(f(c)).won(s)
            - q.won(s),
{
    lemma_corresponds_step(p, q, f, c);
    lemma_corresponds_hands(p, q, f, c);
    lemma_corresponds_trick(p, q, f, c);
}

/// The outcome of playing a card, less the tricks won before, is the same in corresponding
/// positions when the positions after it give the same further tricks.
proof fn lemma_outcome_shift(p: Position, q: Position, c: Card, d: Card)
    requires
        p.valid(),
        q.valid(),
        !p.finished(),
        !q.finished(),
        p.next() == q.next(),
        p.after(c).next() == q.after(d).next(),
        p.after(c).n - p.after(c).completed() == q.after(d).n - q.after(d).completed(),
        forall|s: PlayerPosition| #[trigger] p.after(c).won(s) - p.won(s) == q.after(d).won(s)
            - q.won(s),
        value(p.after(c)) - p.after(c).won(p.after(c).next()) == value(q.after(d)) - q.after(
            d,
        ).won(q.after(d).next()),
    ensures
        outcome(p, c) - p.won(p.next()) == outcome(q, d) - q.won(q.next()),
{
    let me = p.next();
    let p1 = p.after(c);
    let q1 = q.after(d);
    let nx = p1.next();
    lemma_position_won(p1, me, nx);
    lemma_position_won(q1, me, nx);
    assert(p1.won(me) - p.won(me) == q1.won(me) - q.won(me));
}

/// Only the order of the cards in play counts: in corresponding positions, the side to play
/// takes the same number of further tricks. So if only the Eight, Five and Three of a suit are
/// in play, they play exactly as the Ace, King and Queen would.
pub proof fn lemma_relative_order(p: Position, q: Position, f: spec_fn(Card) -> Card)
    requires
        corresponds(p, q, f),
    ensures
        value(p) - p.won(p.next()) == value(q) - q.won(q.next()),
    decreases 4 * p.n - p.played.len(),
{
    let me = p.next();
    assert(q.next() == me);
    if p.finished() {
        assert(q.finished());
    } else {
        assert(!q.finished());
        lemma_value_is_best(p);
        lemma_value_is_best(q);
        lemma_value_bounds(p);
        lemma_value_bounds(q);
        assert forall|c: Card| p.legal(c) implies #[trigger] outcome(q, f(c)) - q.won(me) == outcome(
            p,
            c,
        ) - p.won(me) && q.legal(f(c)) by {
            lemma_corresponds_legal(p, q, f, c);
            lemma_corresponds_after(p, q, f, c);
            lemma_relative_order(p.after(c), q.after(f(c)), f);
            lemma_position_step(p, c, me);
            lemma_position_step(q, f(c), me);
            lemma_outcome_shift(p, q, c, f(c));
        }
        assert forall|d: Card| q.legal(d) implies #[trigger] outcome(q, d) - q.won(me) <= value(p)
            - p.won(me) by {
            let c = choose|c: Card| #[trigger] p.hand(me).contains(c) && f(c) == d;
            lemma_corresponds_legal(p, q, f, c);
            assert(p.legal(c));
            assert(outcome(p, c) <= value(p));
        }
        let cp = choose|c: Card| p.legal(c) && #[trigger] outcome(p, c) == value(p);
        assert(outcome(q, f(cp)) <= value(q));
        let dq = choose|d: Card| q.legal(d) && #[trigger] outcome(q, d) == value(q);
        assert(outcome(q, dq) - q.won(me) <= value(p) - p.won(me));
    }
}

} // verus!
