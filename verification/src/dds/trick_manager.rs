//! The tricks of a deal as they are played: who is on lead, who wins each trick and how many
//! tricks each side has taken.
use crate::card::{Card, Suit};
use crate::deal::PlayerPosition;
use vstd::prelude::*;

verus! {

/// Whether card `a` beats `b`, the card winning a trick so far: a higher card of the same suit,
/// or a trump over a card of another suit.
pub open spec fn card_beats(a: Card, b: Card, trumps: Option<Suit>) -> bool {
    (a.suit == b.suit && a.denomination.rank() > b.denomination.rank()) || (trumps == Some(a.suit)
        && b.suit != a.suit)
}

/// The position in a trick of the card winning it, the card led being at position 0.
pub open spec fn winning_index(trick: Seq<Card>, trumps: Option<Suit>) -> int
    decreases trick.len(),
{
    if trick.len() <= 1 {
        0
    } else {
        let w = winning_index(trick.drop_last(), trumps);
        if card_beats(trick.last(), trick[w], trumps) {
            trick.len() - 1
        } else {
            w
        }
    }
}

/// The four cards of trick `t` (counting from 0) among the cards played.
pub open spec fn trick_cards(played: Seq<Card>, t: int) -> Seq<Card> {
    played.subrange(4 * t, 4 * t + 4)
}

/// The seat on lead to trick `t`: the opening leader to the first, then the winner of the
/// trick before.
pub open spec fn leader_of(
    opening: PlayerPosition,
    trumps: Option<Suit>,
    played: Seq<Card>,
    t: int,
) -> PlayerPosition
    decreases t,
{
    if t <= 0 {
        opening
    } else {
        leader_of(opening, trumps, played, t - 1).turned(
            winning_index(trick_cards(played, t - 1), trumps),
        )
    }
}

/// How many of the first `t` tricks the side of `seat` won.
pub open spec fn tricks_won_by(
    opening: PlayerPosition,
    trumps: Option<Suit>,
    played: Seq<Card>,
    t: int,
    seat: PlayerPosition,
) -> nat
    decreases t,
{
    if t <= 0 {
        0
    } else {
        tricks_won_by(opening, trumps, played, t - 1, seat) + if leader_of(
            opening,
            trumps,
            played,
            t,
        ).same_side(seat) {
            1nat
        } else {
            0
        }
    }
}

/// The number of cards of a suit among `cards`.
pub open spec fn suit_cards(cards: Seq<Card>, s: Suit) -> nat
    decreases cards.len(),
{
    if cards.len() == 0 {
        0
    } else {
        suit_cards(cards.drop_last(), s) + if cards.last().suit == s {
            1nat
        } else {
            0
        }
    }
}

/// The winning position lies within the trick.
pub proof fn lemma_winning_index_bound(trick: Seq<Card>, trumps: Option<Suit>)
    ensures
        0 <= winning_index(trick, trumps),
        trick.len() >= 1 ==> winning_index(trick, trumps) < trick.len(),
    decreases trick.len(),
{
    if trick.len() > 1 {
        lemma_winning_index_bound(trick.drop_last(), trumps);
    }
}

/// Leaders and tricks won depend only on the cards of the tricks concerned.
pub proof fn lemma_same_tricks(
    opening: PlayerPosition,
    trumps: Option<Suit>,
    a: Seq<Card>,
    b: Seq<Card>,
    t: int,
)
    requires
        0 <= t,
        4 * t <= a.len(),
        4 * t <= b.len(),
        a.subrange(0, 4 * t) == b.subrange(0, 4 * t),
    ensures
        leader_of(opening, trumps, a, t) == leader_of(opening, trumps, b, t),
        forall|seat: PlayerPosition| #[trigger]
            tricks_won_by(opening, trumps, a, t, seat) == tricks_won_by(opening, trumps, b, t, seat),
    decreases t,
{
    if t > 0 {
        assert(a.subrange(0, 4 * (t - 1)) =~= a.subrange(0, 4 * t).subrange(0, 4 * (t - 1)));
        assert(b.subrange(0, 4 * (t - 1)) =~= b.subrange(0, 4 * t).subrange(0, 4 * (t - 1)));
        lemma_same_tricks(opening, trumps, a, b, t - 1);
        assert(trick_cards(a, t - 1) =~= a.subrange(0, 4 * t).subrange(4 * (t - 1), 4 * t));
        assert(trick_cards(b, t - 1) =~= b.subrange(0, 4 * t).subrange(4 * (t - 1), 4 * t));
        assert forall|seat: PlayerPosition| #[trigger]
            tricks_won_by(opening, trumps, a, t, seat) == tricks_won_by(opening, trumps, b, t, seat) by {
            assert(tricks_won_by(opening, trumps, a, t - 1, seat) == tricks_won_by(
                opening,
                trumps,
                b,
                t - 1,
                seat,
            ));
        }
    }
}

/// A side wins at most as many tricks as have been played.
pub proof fn lemma_tricks_won_bound(
    opening: PlayerPosition,
    trumps: Option<Suit>,
    played: Seq<Card>,
    t: int,
    seat: PlayerPosition,
)
    requires
        0 <= t,
    ensures
        tricks_won_by(opening, trumps, played, t, seat) <= t,
    decreases t,
{
    if t > 0 {
        lemma_tricks_won_bound(opening, trumps, played, t - 1, seat);
    }
}

/// Every trick is won by one side or the other.
pub proof fn lemma_tricks_won_sum(
    opening: PlayerPosition,
    trumps: Option<Suit>,
    played: Seq<Card>,
    t: int,
    seat: PlayerPosition,
)
    requires
        0 <= t,
    ensures
        tricks_won_by(opening, trumps, played, t, seat) + tricks_won_by(
            opening,
            trumps,
            played,
            t,
            seat.turned(1),
        ) == t,
    decreases t,
{
    if t > 0 {
        lemma_tricks_won_sum(opening, trumps, played, t - 1, seat);
    }
}

/// Whether `a` beats `b`, the card winning the trick so far.
fn beats(a: &Card, b: &Card, trumps: Option<Suit>) -> (r: bool)
    ensures
        r == card_beats(*a, *b, trumps),
{
    if a.suit == b.suit {
        a.denomination.index() > b.denomination.index()
    } else {
        match trumps {
            Some(t) => t == a.suit,
            None => false,
        }
    }
}

/// The cards played to a deal of `n_tricks` tricks, with the winner of each finished trick and
/// the tricks taken by North-South and by East-West.
pub struct TrickManager {
    opening_leader: PlayerPosition,
    trumps: Option<Suit>,
    n_tricks: usize,
    played: Vec<Card>,
    winners: Vec<PlayerPosition>,
    tricks_won: [usize; 2],
}

impl TrickManager {
    /// The cards played, in order.
    pub closed spec fn played(self) -> Seq<Card> {
        self.played@
    }

    /// The seat on lead to the first trick.
    pub closed spec fn opening(self) -> PlayerPosition {
        self.opening_leader
    }

    /// The trump suit, if any.
    pub closed spec fn trump(self) -> Option<Suit> {
        self.trumps
    }

    /// The number of tricks of the deal.
    pub closed spec fn total(self) -> nat {
        self.n_tricks as nat
    }

    /// The winners and the counts of tricks won agree with the cards played.
    pub closed spec fn wf(self) -> bool {
        &&& 1 <= self.n_tricks <= 13
        &&& self.played@.len() <= 4 * self.n_tricks
        &&& self.winners@.len() == self.played@.len() / 4
        &&& forall|t: int|
            0 <= t < self.winners@.len() ==> #[trigger] self.winners@[t] == leader_of(
                self.opening_leader,
                self.trumps,
                self.played@,
                t + 1,
            )
        &&& self.tricks_won[0] as nat == tricks_won_by(
            self.opening_leader,
            self.trumps,
            self.played@,
            (self.played@.len() / 4) as int,
            PlayerPosition::North,
        )
        &&& self.tricks_won[1] as nat == tricks_won_by(
            self.opening_leader,
            self.trumps,
            self.played@,
            (self.played@.len() / 4) as int,
            PlayerPosition::East,
        )
    }

    /// The number of finished tricks.
    pub open spec fn completed(self) -> int {
        (self.played().len() / 4) as int
    }

    /// The number of cards played to the current trick.
    pub open spec fn in_trick(self) -> int {
        (self.played().len() % 4) as int
    }

    /// The seat on lead to the current trick.
    pub open spec fn leader(self) -> PlayerPosition {
        leader_of(self.opening(), self.trump(), self.played(), self.completed())
    }

    /// The seat to play next.
    pub open spec fn next(self) -> PlayerPosition {
        self.leader().turned(self.in_trick())
    }

    /// The cards played to the current trick.
    pub open spec fn current_trick(self) -> Seq<Card> {
        self.played().subrange(4 * self.completed(), self.played().len() as int)
    }

    /// The suit led to the current trick, if a card has been led.
    pub open spec fn lead_suit(self) -> Option<Suit> {
        if self.in_trick() == 0 {
            None
        } else {
            Some(self.played()[4 * self.completed()].suit)
        }
    }

    /// The tricks the side of `seat` has won.
    pub open spec fn won_by(self, seat: PlayerPosition) -> nat {
        tricks_won_by(self.opening(), self.trump(), self.played(), self.completed(), seat)
    }

    /// The tricks not yet finished.
    pub open spec fn left(self) -> int {
        self.total() - self.completed()
    }

    /// Partners have won the same tricks, and the two sides together all finished ones.
    pub proof fn lemma_won_sides(self, p: PlayerPosition, q: PlayerPosition)
        ensures
            p.same_side(q) ==> self.won_by(p) == self.won_by(q),
            !p.same_side(q) ==> self.won_by(p) + self.won_by(q) == self.completed(),
    {
        if p.same_side(q) {
            lemma_same_side_counts(self.opening(), self.trump(), self.played(), self.completed(), p, q);
        } else {
            lemma_tricks_won_sum(self.opening(), self.trump(), self.played(), self.completed(), p);
            assert(q.same_side(p.turned(1)));
            lemma_same_side_counts(
                self.opening(),
                self.trump(),
                self.played(),
                self.completed(),
                q,
                p.turned(1),
            );
        }
    }

    /// One more card played: the tricks won change only when it finishes a trick, and then by
    /// one for the winner's side.
    pub proof fn lemma_won_step(self, next: Self, card: Card, p: PlayerPosition)
        requires
            next.played() == self.played().push(card),
            next.opening() == self.opening(),
            next.trump() == self.trump(),
        ensures
            next.completed() == self.completed() ==> next.won_by(p) == self.won_by(p),
            next.completed() != self.completed() ==> next.completed() == self.completed() + 1
                && next.won_by(p) == self.won_by(p) + if next.leader().same_side(p) {
                1nat
            } else {
                0
            },
    {
        let c = self.completed();
        assert(next.played().subrange(0, 4 * c) =~= self.played().subrange(0, 4 * c));
        lemma_same_tricks(self.opening(), self.trump(), next.played(), self.played(), c);
        assert(tricks_won_by(self.opening(), self.trump(), next.played(), c, p) == tricks_won_by(
            self.opening(),
            self.trump(),
            self.played(),
            c,
            p,
        ));
        if next.completed() != c {
            assert(next.completed() == c + 1);
            assert(tricks_won_by(self.opening(), self.trump(), next.played(), c + 1, p)
                == tricks_won_by(self.opening(), self.trump(), next.played(), c, p) + if leader_of(
                self.opening(),
                self.trump(),
                next.played(),
                c + 1,
            ).same_side(p) {
                1nat
            } else {
                0
            });
        }
    }

    /// At most thirteen tricks, and no more cards played than they hold.
    pub proof fn lemma_wf_bounds(self)
        requires
            self.wf(),
        ensures
            1 <= self.total() <= 13,
            self.played().len() <= 4 * self.total(),
            0 <= self.completed() <= self.total(),
            self.in_trick() != 0 ==> self.left() >= 1,
    {
    }

    /// The state before any card is played.
    pub fn new(opening_leader: PlayerPosition, trumps: Option<Suit>, n_tricks: usize) -> (m: Self)
        requires
            1 <= n_tricks <= 13,
        ensures
            m.wf(),
            m.played() == Seq::<Card>::empty(),
            m.opening() == opening_leader,
            m.trump() == trumps,
            m.total() == n_tricks,
    {
        TrickManager {
            opening_leader,
            trumps,
            n_tricks,
            played: Vec::new(),
            winners: Vec::new(),
            tricks_won: [0, 0],
        }
    }

    /// The seat on lead to the current trick.
    fn current_leader(&self) -> (p: PlayerPosition)
        requires
            self.wf(),
        ensures
            p == self.leader(),
    {
        let c = self.winners.len();
        if c == 0 {
            self.opening_leader
        } else {
            self.winners[c - 1]
        }
    }

    /// The position of the winning card among the played cards from `start` to `end`.
    fn winning_position(&self, start: usize, end: usize) -> (w: usize)
        requires
            start < end <= self.played@.len(),
        ensures
            w < end - start,
            w == winning_index(self.played@.subrange(start as int, end as int), self.trumps),
    {
        let mut w: usize = 0;
        let mut i: usize = 1;
        while i < end - start
            invariant
                start < end <= self.played@.len(),
                1 <= i <= end - start,
                w < i,
                w == winning_index(
                    self.played@.subrange(start as int, start as int + i as int),
                    self.trumps,
                ),
            decreases end - start - i,
        {
            let ghost before = self.played@.subrange(start as int, start as int + i as int);
            let ghost after = self.played@.subrange(start as int, start as int + i as int + 1);
            proof {
                assert(after.drop_last() =~= before);
            }
            if beats(&self.played[start + i], &self.played[start + w], self.trumps) {
                w = i;
            }
            i = i + 1;
        }
        w
    }

    /// The seat to play next.
    pub fn next_to_play(&self) -> (p: PlayerPosition)
        requires
            self.wf(),
        ensures
            p == self.next(),
    {
        let leader = self.current_leader();
        leader.after((self.played.len() % 4) as u8)
    }

    /// The suit led to the current trick, if a card has been led to it.
    pub fn suit_to_follow(&self) -> (s: Option<Suit>)
        requires
            self.wf(),
        ensures
            s == self.lead_suit(),
    {
        let r = self.played.len() % 4;
        if r == 0 {
            None
        } else {
            Some(self.played[self.played.len() - r].suit)
        }
    }

    /// Whether the seat to play leads to a new trick.
    pub fn player_is_leading(&self) -> (b: bool)
        ensures
            b == (self.in_trick() == 0),
    {
        self.played.len() % 4 == 0
    }

    /// Whether the last card played finished a trick.
    pub fn trick_complete(&self) -> (b: bool)
        ensures
            b == (self.played().len() > 0 && self.in_trick() == 0),
    {
        self.played.len() > 0 && self.played.len() % 4 == 0
    }

    /// The number of cards played.
    pub fn count_played_cards(&self) -> (n: usize)
        ensures
            n == self.played().len(),
    {
        self.played.len()
    }

    /// The number of cards played to the current trick.
    pub fn count_cards_in_current_trick(&self) -> (n: usize)
        ensures
            n == self.in_trick(),
    {
        self.played.len() % 4
    }

    /// The tricks not yet finished.
    pub fn tricks_left(&self) -> (n: usize)
        requires
            self.wf(),
        ensures
            n == self.left(),
    {
        self.n_tricks - self.winners.len()
    }

    /// The tricks the side of `player` has won.
    pub fn tricks_won_by_axis(&self, player: PlayerPosition) -> (n: usize)
        requires
            self.wf(),
        ensures
            n == self.won_by(player),
    {
        proof {
            if player.same_side(PlayerPosition::North) {
                assert forall|t: int| 0 <= t implies #[trigger] tricks_won_by(
                    self.opening(),
                    self.trump(),
                    self.played(),
                    t,
                    player,
                ) == tricks_won_by(
                    self.opening(),
                    self.trump(),
                    self.played(),
                    t,
                    PlayerPosition::North,
                ) by {
                    lemma_same_side_counts(
                        self.opening(),
                        self.trump(),
                        self.played(),
                        t,
                        player,
                        PlayerPosition::North,
                    );
                }
            } else {
                assert forall|t: int| 0 <= t implies #[trigger] tricks_won_by(
                    self.opening(),
                    self.trump(),
                    self.played(),
                    t,
                    player,
                ) == tricks_won_by(
                    self.opening(),
                    self.trump(),
                    self.played(),
                    t,
                    PlayerPosition::East,
                ) by {
                    lemma_same_side_counts(
                        self.opening(),
                        self.trump(),
                        self.played(),
                        t,
                        player,
                        PlayerPosition::East,
                    );
                }
            }
        }
        self.tricks_won[(player.index() % 2) as usize]
    }

    /// The winner of the last finished trick, if one is finished.
    pub fn last_trick_winner(&self) -> (p: Option<PlayerPosition>)
        requires
            self.wf(),
        ensures
            p == if self.completed() == 0 {
                None::<PlayerPosition>
            } else {
                Some(leader_of(self.opening(), self.trump(), self.played(), self.completed()))
            },
    {
        let c = self.winners.len();
        if c == 0 {
            None
        } else {
            Some(self.winners[c - 1])
        }
    }

    /// The seat winning the current trick so far; the leader if no card has been played to it.
    pub fn current_trick_winner(&self) -> (p: PlayerPosition)
        requires
            self.wf(),
        ensures
            p == self.leader().turned(winning_index(self.current_trick(), self.trump())),
    {
        let leader = self.current_leader();
        let len = self.played.len();
        let r = len % 4;
        if r == 0 {
            proof {
                assert(self.current_trick().len() == 0);
                assert(leader.turned(0) == leader);
            }
            leader
        } else {
            let w = self.winning_position(len - r, len);
            leader.after(w as u8)
        }
    }

    /// The card winning the current trick so far, if a card has been played to it.
    pub fn currently_winning_card(&self) -> (c: Option<Card>)
        requires
            self.wf(),
        ensures
            c == if self.in_trick() == 0 {
                None::<Card>
            } else {
                Some(self.current_trick()[winning_index(self.current_trick(), self.trump())])
            },
    {
        let len = self.played.len();
        let r = len % 4;
        if r == 0 {
            None
        } else {
            let w = self.winning_position(len - r, len);
            Some(self.played[len - r + w])
        }
    }

    /// Whether the card would beat the card winning the current trick; any card would when
    /// none has been played to it.
    pub fn would_win_over_current_winner(&self, card: &Card) -> (b: bool)
        requires
            self.wf(),
        ensures
            b == if self.in_trick() == 0 {
                true
            } else {
                card_beats(
                    *card,
                    self.current_trick()[winning_index(self.current_trick(), self.trump())],
                    self.trump(),
                )
            },
    {
        match self.currently_winning_card() {
            None => true,
            Some(winning) => beats(card, &winning, self.trumps),
        }
    }

    /// The number of tricks of the deal.
    pub fn total_tricks(&self) -> (n: usize)
        ensures
            n == self.total(),
    {
        self.n_tricks
    }

    /// The trump suit, if any.
    pub fn trump_suit(&self) -> (t: Option<Suit>)
        ensures
            t == self.trump(),
    {
        self.trumps
    }

    /// The card played at position `k`.
    pub fn card_at(&self, k: usize) -> (c: Card)
        requires
            k < self.played().len(),
        ensures
            c == self.played()[k as int],
    {
        self.played[k]
    }

    /// The four cards of the last finished trick, in the order played.
    pub fn cards_in_last_trick(&self) -> (v: Vec<Card>)
        requires
            self.wf(),
            self.completed() >= 1,
        ensures
            v@ == trick_cards(self.played(), self.completed() - 1),
    {
        let start = 4 * (self.winners.len() - 1);
        let mut v: Vec<Card> = Vec::new();
        let mut i: usize = 0;
        while i < 4
            invariant
                0 <= i <= 4,
                start + 4 <= self.played@.len(),
                start == 4 * (self.completed() - 1),
                v@ == self.played@.subrange(start as int, start as int + i as int),
            decreases 4 - i,
        {
            v.push(self.played[start + i]);
            i = i + 1;
            proof {
                assert(v@ =~= self.played@.subrange(start as int, start as int + i as int));
            }
        }
        v
    }

    /// Plays a card for the seat to play; a card that finishes a trick records its winner.
    #[verifier::spinoff_prover]
    pub fn play(&mut self, card: Card)
        requires
            old(self).wf(),
            old(self).played().len() < 4 * old(self).total(),
        ensures
            final(self).wf(),
            final(self).played() == old(self).played().push(card),
            final(self).opening() == old(self).opening(),
            final(self).trump() == old(self).trump(),
            final(self).total() == old(self).total(),
    {
        let ghost before = self.played@;
        let ghost opening = self.opening_leader;
        let ghost trumps = self.trumps;
        let leader = self.current_leader();
        let c = self.winners.len();
        self.played.push(card);
        let len = self.played.len();
        let ghost after = self.played@;
        proof {
            assert(after.subrange(0, before.len() as int) =~= before);
            lemma_prefix_kept(opening, trumps, before, after, c as int);
        }
        if len % 4 == 0 {
            let w = self.winning_position(len - 4, len);
            let winner = leader.after(w as u8);
            proof {
                assert(trick_cards(after, c as int) =~= after.subrange(len - 4, len as int));
                assert(winner == leader_of(opening, trumps, after, c + 1));
                lemma_tricks_won_bound(opening, trumps, after, c as int, PlayerPosition::North);
                lemma_tricks_won_bound(opening, trumps, after, c as int, PlayerPosition::East);
            }
            self.winners.push(winner);
            let side = (winner.index() % 2) as usize;
            self.tricks_won[side] = self.tricks_won[side] + 1;
            proof {
                assert(len / 4 == c + 1);
                assert forall|t: int| 0 <= t < self.winners@.len() implies #[trigger] self.winners@[t]
                    == leader_of(opening, trumps, after, t + 1) by {
                    if t < c {
                        assert(self.winners@[t] == old(self).winners@[t]);
                    }
                }
            }
        } else {
            proof {
                assert(len / 4 == c);
                assert forall|t: int| 0 <= t < self.winners@.len() implies #[trigger] self.winners@[t]
                    == leader_of(opening, trumps, after, t + 1) by {
                    assert(self.winners@[t] == old(self).winners@[t]);
                }
            }
        }
    }

    /// Takes back the last card played, if any, and returns it.
    #[verifier::spinoff_prover]
    pub fn undo(&mut self) -> (r: Option<Card>)
        requires
            old(self).wf(),
        ensures
            final(self).wf(),
            final(self).opening() == old(self).opening(),
            final(self).trump() == old(self).trump(),
            final(self).total() == old(self).total(),
            old(self).played().len() == 0 ==> r is None && final(self).played() == old(
                self,
            ).played(),
            old(self).played().len() > 0 ==> r == Some(old(self).played().last())
                && final(self).played() == old(self).played().drop_last(),
    {
        let len = self.played.len();
        if len == 0 {
            return None;
        }
        let ghost before = self.played@;
        let ghost opening = self.opening_leader;
        let ghost trumps = self.trumps;
        let card = self.played[len - 1];
        let complete = len % 4 == 0;
        self.played.pop();
        let ghost after = self.played@;
        proof {
            assert(after =~= before.drop_last());
            assert(before.subrange(0, after.len() as int) =~= after);
            lemma_prefix_kept(opening, trumps, after, before, (after.len() / 4) as int);
        }
        if complete {
            let c = self.winners.len();
            let winner = self.winners[c - 1];
            proof {
                assert(after.len() / 4 == c - 1);
                assert(winner == leader_of(opening, trumps, before, c as int));
                lemma_tricks_won_sum(opening, trumps, before, c as int, PlayerPosition::North);
                assert(PlayerPosition::North.turned(1) == PlayerPosition::East);
            }
            self.winners.pop();
            let side = (winner.index() % 2) as usize;
            self.tricks_won[side] = self.tricks_won[side] - 1;
            proof {
                assert(tricks_won_by(opening, trumps, before, c as int, PlayerPosition::North)
                    == tricks_won_by(opening, trumps, before, c - 1, PlayerPosition::North) + if winner.same_side(
                    PlayerPosition::North,
                ) {
                    1nat
                } else {
                    0
                });
                assert(tricks_won_by(opening, trumps, before, c as int, PlayerPosition::East)
                    == tricks_won_by(opening, trumps, before, c - 1, PlayerPosition::East) + if winner.same_side(
                    PlayerPosition::East,
                ) {
                    1nat
                } else {
                    0
                });
                assert forall|t: int| 0 <= t < self.winners@.len() implies #[trigger] self.winners@[t]
                    == leader_of(opening, trumps, after, t + 1) by {
                    assert(self.winners@[t] == old(self).winners@[t]);
                }
            }
        } else {
            proof {
                assert(after.len() / 4 == before.len() / 4);
                assert forall|t: int| 0 <= t < self.winners@.len() implies #[trigger] self.winners@[t]
                    == leader_of(opening, trumps, after, t + 1) by {
                    assert(self.winners@[t] == old(self).winners@[t]);
                }
            }
        }
        Some(card)
    }
}

/// Adding cards after the first `c` tricks keeps their leaders and the tricks won in them.
proof fn lemma_prefix_kept(
    opening: PlayerPosition,
    trumps: Option<Suit>,
    before: Seq<Card>,
    after: Seq<Card>,
    c: int,
)
    requires
        0 <= c,
        4 * c <= before.len() <= after.len(),
        after.subrange(0, before.len() as int) == before,
    ensures
        forall|t: int|
            0 <= t <= c ==> #[trigger] leader_of(opening, trumps, after, t) == leader_of(
                opening,
                trumps,
                before,
                t,
            ),
        forall|t: int|
            0 <= t <= c ==> #[trigger] tricks_won_by(opening, trumps, after, t, PlayerPosition::North)
                == tricks_won_by(opening, trumps, before, t, PlayerPosition::North),
        forall|t: int|
            0 <= t <= c ==> #[trigger] tricks_won_by(opening, trumps, after, t, PlayerPosition::East)
                == tricks_won_by(opening, trumps, before, t, PlayerPosition::East),
{
    assert forall|t: int| 0 <= t <= c implies #[trigger] leader_of(opening, trumps, after, t)
        == leader_of(opening, trumps, before, t) && tricks_won_by(
        opening,
        trumps,
        after,
        t,
        PlayerPosition::North,
    ) == tricks_won_by(opening, trumps, before, t, PlayerPosition::North) && tricks_won_by(
        opening,
        trumps,
        after,
        t,
        PlayerPosition::East,
    ) == tricks_won_by(opening, trumps, before, t, PlayerPosition::East) by {
        assert(after.subrange(0, 4 * t) =~= before.subrange(0, 4 * t));
        lemma_same_tricks(opening, trumps, after, before, t);
    }
}

/// Partners have won the same tricks.
pub proof fn lemma_same_side_counts(
    opening: PlayerPosition,
    trumps: Option<Suit>,
    played: Seq<Card>,
    t: int,
    a: PlayerPosition,
    b: PlayerPosition,
)
    requires
        a.same_side(b),
    ensures
        tricks_won_by(opening, trumps, played, t, a) == tricks_won_by(opening, trumps, played, t, b),
    decreases t,
{
    if t > 0 {
        lemma_same_side_counts(opening, trumps, played, t - 1, a, b);
    }
}

} // verus!
