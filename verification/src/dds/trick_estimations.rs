//! Quick estimates of the tricks a side is sure to win or to lose from a position, used to cut
//! the search short.
use crate::card::Suit;
use crate::dds::suit_field::ones;
use crate::dds::virtual_card_tracker::{
    combined_run, lemma_combined_run_against_top_run, lemma_combined_run_bound,
    lemma_ones_at_most, lemma_top_run_bound, top_run, VirtualCardTracker,
};
use crate::deal::PlayerPosition;
use crate::dds::distribution_field::{in_play, DistFieldManager};
use crate::dds::virtual_card::{VirtualCard, VirtualRank};
use vstd::prelude::*;

verus! {

/// What the estimates need to know of a position, gathered once.
#[derive(Clone, Copy)]
pub struct EstimationState {
    pub lead_suit: Option<Suit>,
    pub trump_suit: Option<Suit>,
    pub my_seat: PlayerPosition,
    /// Cards per seat (North to West) and suit (Clubs to Spades).
    pub card_counts: [[usize; 4]; 4],
    /// Top cards in a row per seat and suit; at most one seat has any in a suit.
    pub high_card_counts: [[usize; 4]; 4],
    /// The shares of the leader and of the partner in the top cards held together, per suit.
    pub our_combined_high_card_count: [[usize; 4]; 2],
    pub ace_owners: [Option<PlayerPosition>; 4],
    pub king_owners: [Option<PlayerPosition>; 4],
}

/// The smaller of two integers.
pub open spec fn min_of(a: int, b: int) -> int {
    if a <= b {
        a
    } else {
        b
    }
}

/// The larger of two integers.
pub open spec fn max_of(a: int, b: int) -> int {
    if a >= b {
        a
    } else {
        b
    }
}

/// The tricks one suit is worth to the leader and the partner, given the leader's cards `m`
/// and the partner's `p` in the suit, their top cards in a row `ms` and `ps`, and their shares
/// `me` and `pe` of the top cards they hold together. The result gives the tricks that can be
/// cashed, the partner's tricks stuck unless there is an entry to the partner, the leader's
/// tricks stuck unless there is a way back, whether the suit leads to the partner, and whether
/// it leads back to the leader.
#[verifier::opaque]
pub open spec fn suit_high_card_tricks(m: int, p: int, ms: int, ps: int, me: int, pe: int) -> (
    int,
    int,
    int,
    bool,
    bool,
) {
    if p >= m {
        if m > me {
            let left = min_of(p - me, pe);
            if left > 0 {
                (me + left, 0, 0, true, me > 0)
            } else {
                (me, 0, 0, false, me > 0)
            }
        } else if me > ms {
            (me - 1 + min_of(p - (me - 1), pe), 0, 0, true, me > 1)
        } else {
            (ms, min_of(p - me, pe), 0, false, me > 0)
        }
    } else {
        if pe == 0 {
            (ms, 0, 0, false, false)
        } else if me == m && ms >= pe {
            (me, 0, 0, false, false)
        } else if m > me || me > ms {
            if p > pe {
                let left = min_of(m - pe, me);
                if left > 0 {
                    (pe + left, 0, 0, true, true)
                } else {
                    (pe, 0, 0, true, false)
                }
            } else if pe > ps {
                let given = max_of(pe - 1, 1);
                let left = min_of(m - given, me);
                if left > 0 && p > 1 {
                    (given + left, 0, 0, true, true)
                } else {
                    (given, 0, left, true, false)
                }
            } else {
                (ps, 0, min_of(m - ps, me), true, false)
            }
        } else {
            (ms, 0, 0, false, false)
        }
    }
}

/// The counts of one suit are consistent: top cards in a row are among the top cards held
/// together, which are among the cards held, and the leader's share exceeds the leader's own
/// run only if the partner has a share too.
pub open spec fn consistent_counts(m: int, p: int, ms: int, ps: int, me: int, pe: int) -> bool {
    &&& 0 <= ms <= me <= m <= 16
    &&& 0 <= ps <= p <= 16
    &&& 0 <= pe <= p
    &&& me > ms ==> pe >= 1
}

/// The high-card tricks of a suit for the leader holding `mine` with `partner`.
pub open spec fn high_card_tricks_in(
    mine: VirtualCardTracker,
    partner: VirtualCardTracker,
    s: Suit,
) -> (int, int, int, bool, bool) {
    let both = combined_run(mine.held(s), mine.out(s), partner.held(s), partner.out(s), 12, false);
    suit_high_card_tricks(
        ones(mine.held(s), 16) as int,
        ones(partner.held(s), 16) as int,
        top_run(mine.held(s), mine.out(s), 12) as int,
        top_run(partner.held(s), partner.out(s), 12) as int,
        both.0 as int,
        both.1 as int,
    )
}

/// A suit never yields more tricks, cashed or stuck, than the longer of the two holdings has
/// cards.
pub proof fn lemma_suit_tricks_within_length(m: int, p: int, ms: int, ps: int, me: int, pe: int)
    requires
        consistent_counts(m, p, ms, ps, me, pe),
    ensures
        ({
            let r = suit_high_card_tricks(m, p, ms, ps, me, pe);
            0 <= r.0 && 0 <= r.1 && 0 <= r.2 && r.0 + r.1 + r.2 <= max_of(m, p)
        }),
{
    reveal(suit_high_card_tricks);
}

/// A suit never yields more tricks, cashed or stuck, than the top cards the two hold together,
/// when the partner's run is part of those.
pub proof fn lemma_suit_tricks_within_top_cards(
    m: int,
    p: int,
    ms: int,
    ps: int,
    me: int,
    pe: int,
)
    requires
        consistent_counts(m, p, ms, ps, me, pe),
        ps <= pe,
    ensures
        ({
            let r = suit_high_card_tricks(m, p, ms, ps, me, pe);
            r.0 + r.1 + r.2 <= me + pe
        }),
{
    reveal(suit_high_card_tricks);
}

/// The counts a pair of holdings gives for a suit are consistent.
pub proof fn lemma_counts_consistent(mine: VirtualCardTracker, partner: VirtualCardTracker, s: Suit)
    ensures
        ({
            let both = combined_run(
                mine.held(s),
                mine.out(s),
                partner.held(s),
                partner.out(s),
                12,
                false,
            );
            consistent_counts(
                ones(mine.held(s), 16) as int,
                ones(partner.held(s), 16) as int,
                top_run(mine.held(s), mine.out(s), 12) as int,
                top_run(partner.held(s), partner.out(s), 12) as int,
                both.0 as int,
                both.1 as int,
            )
        }),
{
    lemma_top_run_bound(mine.held(s), mine.out(s), 12);
    lemma_top_run_bound(partner.held(s), partner.out(s), 12);
    lemma_combined_run_bound(mine.held(s), mine.out(s), partner.held(s), partner.out(s), 12, false);
    lemma_combined_run_against_top_run(
        mine.held(s),
        mine.out(s),
        partner.held(s),
        partner.out(s),
        12,
        false,
    );
    lemma_ones_at_most(mine.held(s), 16);
    lemma_ones_at_most(partner.held(s), 16);
}

fn suit_tricks(m: usize, p: usize, ms: usize, ps: usize, me: usize, pe: usize) -> (r: (
    usize,
    usize,
    usize,
    bool,
    bool,
))
    requires
        consistent_counts(m as int, p as int, ms as int, ps as int, me as int, pe as int),
    ensures
        (r.0 as int, r.1 as int, r.2 as int, r.3, r.4) == suit_high_card_tricks(
            m as int,
            p as int,
            ms as int,
            ps as int,
            me as int,
            pe as int,
        ),
{
    reveal(suit_high_card_tricks);
    let mut quick: usize = 0;
    let mut partners_blocked: usize = 0;
    let mut my_blocked: usize = 0;
    let mut to_partner = false;
    let mut back = false;
    let mut long_side = if p > m {
        p
    } else {
        m
    };
    if p >= m {
        // the leader is short: the leader's top cards go first
        if m > me {
            // a low card is left to play towards the partner afterwards
            if me > 0 {
                back = true;
            }
            quick = quick + me;
            long_side = long_side - me;
            let left = if long_side < pe {
                long_side
            } else {
                pe
            };
            if left > 0 {
                quick = quick + left;
                to_partner = true;
            }
        } else if me > ms {
            // the partner overtakes the leader's lowest top card
            if me > 1 {
                back = true;
            }
            quick = quick + me - 1;
            long_side = long_side - (me - 1);
            let left = if long_side < pe {
                long_side
            } else {
                pe
            };
            quick = quick + left;
            to_partner = true;
        } else {
            // only winners in the short hand: the partner's winners are stuck
            if me > 0 {
                back = true;
            }
            quick = quick + ms;
            long_side = long_side - me;
            let left = if long_side < pe {
                long_side
            } else {
                pe
            };
            partners_blocked = partners_blocked + left;
        }
    } else {
        // the leader is long
        if pe == 0 {
            quick = quick + ms;
        } else if me == m && ms >= pe {
            // the leader runs the whole suit alone
            quick = quick + me;
        } else if m > me || me > ms {
            // the leader plays low to the partner's top cards
            if pe > 0 {
                to_partner = true;
            }
            if p > pe {
                quick = quick + pe;
                long_side = long_side - pe;
                let left = if long_side < me {
                    long_side
                } else {
                    me
                };
                if left > 0 {
                    back = true;
                    quick = quick + left;
                }
            } else if pe > ps {
                let given = if pe - 1 > 1 {
                    pe - 1
                } else {
                    1
                };
                quick = quick + given;
                long_side = long_side - given;
                let left = if long_side < me {
                    long_side
                } else {
                    me
                };
                if left > 0 && p > 1 {
                    back = true;
                    quick = quick + left;
                } else {
                    my_blocked = left;
                }
            } else {
                // the partner has only top cards: the play stays with the partner
                quick = quick + ps;
                long_side = long_side - ps;
                let left = if long_side < me {
                    long_side
                } else {
                    me
                };
                my_blocked = left;
            }
        } else {
            quick = quick + ms;
        }
    }
    (quick, partners_blocked, my_blocked, to_partner, back)
}

/// Per suit, Clubs to Spades: the tricks the leader and the partner can cash from the top, the
/// partner's tricks stuck without an entry, the leader's tricks stuck without a way back, whether
/// the suit leads to the partner, and whether it leads back to the leader.
pub fn high_card_tricks_per_suit(
    my_cards: &VirtualCardTracker,
    partners_cards: &VirtualCardTracker,
) -> (r: ([usize; 4], [usize; 4], [usize; 4], [bool; 4], [bool; 4]))
    ensures
        forall|s: Suit|
            #![trigger r.0@[s.rank() as int]]
            #![trigger high_card_tricks_in(*my_cards, *partners_cards, s)]
            (r.0@[s.rank() as int] as int, r.1@[s.rank() as int] as int, r.2@[s.rank() as int] as int,
            r.3@[s.rank() as int], r.4@[s.rank() as int]) == high_card_tricks_in(
                *my_cards,
                *partners_cards,
                s,
            ),
        forall|i: int|
            0 <= i < 4 ==> r.0@[i] + r.1@[i] + r.2@[i] <= 16,
{
    let my_card_count = my_cards.count_cards_per_suit();
    let partners_card_count = partners_cards.count_cards_per_suit();
    let my_simple = my_cards.count_high_cards_per_suit();
    let partners_simple = partners_cards.count_high_cards_per_suit();
    let extended = my_cards.count_combined_high_cards_per_suit(partners_cards);
    let mut quick = [0usize; 4];
    let mut partners_blocked = [0usize; 4];
    let mut my_blocked = [0usize; 4];
    let mut to_partner = [false; 4];
    let mut back = [false; 4];
    let mut i: usize = 0;
    while i < 4
        invariant
            0 <= i <= 4,
            forall|s: Suit| #[trigger] my_card_count@[s.rank() as int] == ones(my_cards.held(s), 16),
            forall|s: Suit|
                #[trigger] partners_card_count@[s.rank() as int] == ones(partners_cards.held(s), 16),
            forall|s: Suit|
                #[trigger] my_simple@[s.rank() as int] == top_run(
                    my_cards.held(s),
                    my_cards.out(s),
                    12,
                ),
            forall|s: Suit|
                #[trigger] partners_simple@[s.rank() as int] == top_run(
                    partners_cards.held(s),
                    partners_cards.out(s),
                    12,
                ),
            forall|s: Suit|
                #![trigger extended@[0]@[s.rank() as int]]
                #![trigger extended@[1]@[s.rank() as int]]
                extended@[0]@[s.rank() as int] == combined_run(
                    my_cards.held(s),
                    my_cards.out(s),
                    partners_cards.held(s),
                    partners_cards.out(s),
                    12,
                    false,
                ).0 && extended@[1]@[s.rank() as int] == combined_run(
                    my_cards.held(s),
                    my_cards.out(s),
                    partners_cards.held(s),
                    partners_cards.out(s),
                    12,
                    false,
                ).1,
            forall|s: Suit|
                s.rank() < i ==> (quick@[s.rank() as int] as int,
                partners_blocked@[s.rank() as int] as int, my_blocked@[s.rank() as int] as int,
                to_partner@[s.rank() as int], back@[s.rank() as int]) == #[trigger] high_card_tricks_in(
                    *my_cards,
                    *partners_cards,
                    s,
                ),
            forall|j: int|
                0 <= j < i ==> quick@[j] + partners_blocked@[j] + my_blocked@[j] <= 16,
        decreases 4 - i,
    {
        let suit = Suit::from_index(i as u8);
        proof {
            lemma_counts_consistent(*my_cards, *partners_cards, suit);
            let both = combined_run(
                my_cards.held(suit),
                my_cards.out(suit),
                partners_cards.held(suit),
                partners_cards.out(suit),
                12,
                false,
            );
            lemma_suit_tricks_within_length(
                ones(my_cards.held(suit), 16) as int,
                ones(partners_cards.held(suit), 16) as int,
                top_run(my_cards.held(suit), my_cards.out(suit), 12) as int,
                top_run(partners_cards.held(suit), partners_cards.out(suit), 12) as int,
                both.0 as int,
                both.1 as int,
            );
        }
        let t = suit_tricks(
            my_card_count[i],
            partners_card_count[i],
            my_simple[i],
            partners_simple[i],
            extended[0][i],
            extended[1][i],
        );
        quick[i] = t.0;
        partners_blocked[i] = t.1;
        my_blocked[i] = t.2;
        to_partner[i] = t.3;
        back[i] = t.4;
        proof {
            crate::card::lemma_suit_rank_bijection(suit, i as u8);
        }
        i = i + 1;
    }
    proof {
        assert forall|s: Suit|
            #![trigger quick@[s.rank() as int]]
            (quick@[s.rank() as int] as int, partners_blocked@[s.rank() as int] as int,
            my_blocked@[s.rank() as int] as int, to_partner@[s.rank() as int],
            back@[s.rank() as int]) == high_card_tricks_in(*my_cards, *partners_cards, s) by {
            assert(s.rank() < 4);
        }
    }
    (quick, partners_blocked, my_blocked, to_partner, back)
}

/// The sum of a quantity over the four suits.
pub open spec fn suit_sum(f: spec_fn(Suit) -> int) -> int {
    f(Suit::Clubs) + f(Suit::Diamonds) + f(Suit::Hearts) + f(Suit::Spades)
}

/// Whether some suit has the property.
pub open spec fn some_suit(f: spec_fn(Suit) -> bool) -> bool {
    f(Suit::Clubs) || f(Suit::Diamonds) || f(Suit::Hearts) || f(Suit::Spades)
}

/// The high-card tricks of a suit at no trumps: the cashable ones, plus the partner's stuck
/// ones if some suit leads to the partner, plus the leader's stuck ones if some suit leads back.
pub open spec fn nt_high_card_tricks_in(
    mine: VirtualCardTracker,
    partner: VirtualCardTracker,
    s: Suit,
) -> int {
    let r = high_card_tricks_in(mine, partner, s);
    r.0 + (if some_suit(|t: Suit| high_card_tricks_in(mine, partner, t).3) {
        r.1
    } else {
        0
    }) + (if some_suit(|t: Suit| high_card_tricks_in(mine, partner, t).4) {
        r.2
    } else {
        0
    })
}

/// The high-card tricks of a suit with trumps: the trumps themselves count in full; a side
/// suit counts only as long as each opponent who may still hold trumps after the trumps are
/// drawn can follow.
pub open spec fn trump_high_card_tricks_in(
    mine: VirtualCardTracker,
    partner: VirtualCardTracker,
    lho: VirtualCardTracker,
    rho: VirtualCardTracker,
    trump: Suit,
    s: Suit,
) -> int {
    let tricks = high_card_tricks_in(mine, partner, s).0;
    let can_run_trumps_first = some_suit(
        |t: Suit| t != trump && high_card_tricks_in(mine, partner, t).4,
    );
    let drawn = if can_run_trumps_first {
        high_card_tricks_in(mine, partner, trump).0
    } else {
        0
    };
    if s == trump {
        tricks
    } else {
        ruff_cut(
            tricks,
            ones(lho.held(s), 16) as int,
            ones(rho.held(s), 16) as int,
            ones(lho.held(trump), 16) > drawn,
            ones(rho.held(trump), 16) > drawn,
        )
    }
}

/// The tricks of a side suit that reach the table: only as many as each opponent who can ruff
/// has cards of the suit to follow with.
pub open spec fn ruff_cut(
    tricks: int,
    lho_length: int,
    rho_length: int,
    lho_ruffs: bool,
    rho_ruffs: bool,
) -> int {
    if lho_ruffs && rho_ruffs {
        min_of(lho_length, min_of(rho_length, tricks))
    } else if lho_ruffs {
        min_of(lho_length, tricks)
    } else if rho_ruffs {
        min_of(rho_length, tricks)
    } else {
        tricks
    }
}

/// The number of cards a holding has in all four suits.
pub open spec fn total_cards(cards: VirtualCardTracker) -> int {
    suit_sum(|s: Suit| ones(cards.held(s), 16) as int)
}

/// At no trumps, the high-card tricks per suit, Clubs to Spades, with the stuck tricks counted
/// where an entry frees them.
pub fn nt_high_card_tricks_per_suit(my_cards: &VirtualCardTracker, partners_cards: &VirtualCardTracker) -> (r: [usize; 4])
    ensures
        forall|s: Suit| #[trigger] r@[s.rank() as int] == nt_high_card_tricks_in(*my_cards, *partners_cards, s),
        forall|i: int| 0 <= i < 4 ==> r@[i] <= 16,
{
    let (mut quick, partners_blocked, my_blocked, to_partner, back) = high_card_tricks_per_suit(
        my_cards,
        partners_cards,
    );
    let ghost cashed = quick;
    proof {
        assert(high_card_tricks_in(*my_cards, *partners_cards, Suit::Clubs).0 == quick@[0]);
        assert(high_card_tricks_in(*my_cards, *partners_cards, Suit::Diamonds).0 == quick@[1]);
        assert(high_card_tricks_in(*my_cards, *partners_cards, Suit::Hearts).0 == quick@[2]);
        assert(high_card_tricks_in(*my_cards, *partners_cards, Suit::Spades).0 == quick@[3]);
    }
    let any_to_partner = to_partner[0] || to_partner[1] || to_partner[2] || to_partner[3];
    let any_back = back[0] || back[1] || back[2] || back[3];
    if any_to_partner {
        let mut i: usize = 0;
        while i < 4
            invariant
                0 <= i <= 4,
                forall|j: int| 0 <= j < 4 ==> cashed@[j] + partners_blocked@[j] + my_blocked@[j] <= 16,
                forall|j: int| 0 <= j < i ==> quick@[j] == cashed@[j] + partners_blocked@[j],
                forall|j: int| i <= j < 4 ==> quick@[j] == cashed@[j],
            decreases 4 - i,
        {
            quick[i] = quick[i] + partners_blocked[i];
            i = i + 1;
        }
    }
    let ghost unblocked = quick;
    if any_back {
        let mut i: usize = 0;
        while i < 4
            invariant
                0 <= i <= 4,
                forall|j: int| 0 <= j < 4 ==> cashed@[j] + partners_blocked@[j] + my_blocked@[j] <= 16,
                forall|j: int| 0 <= j < 4 ==> unblocked@[j] <= cashed@[j] + partners_blocked@[j],
                forall|j: int| 0 <= j < i ==> quick@[j] == unblocked@[j] + my_blocked@[j],
                forall|j: int| i <= j < 4 ==> quick@[j] == unblocked@[j],
            decreases 4 - i,
        {
            quick[i] = quick[i] + my_blocked[i];
            i = i + 1;
        }
    }
    proof {
        assert forall|s: Suit| #[trigger] quick@[s.rank() as int] == nt_high_card_tricks_in(*my_cards, *partners_cards, s) by {
            assert(high_card_tricks_in(*my_cards, *partners_cards, Suit::Clubs).3 == to_partner@[0]);
            assert(high_card_tricks_in(*my_cards, *partners_cards, Suit::Diamonds).3 == to_partner@[1]);
            assert(high_card_tricks_in(*my_cards, *partners_cards, Suit::Hearts).3 == to_partner@[2]);
            assert(high_card_tricks_in(*my_cards, *partners_cards, Suit::Spades).3 == to_partner@[3]);
            assert(high_card_tricks_in(*my_cards, *partners_cards, Suit::Clubs).4 == back@[0]);
            assert(high_card_tricks_in(*my_cards, *partners_cards, Suit::Diamonds).4 == back@[1]);
            assert(high_card_tricks_in(*my_cards, *partners_cards, Suit::Hearts).4 == back@[2]);
            assert(high_card_tricks_in(*my_cards, *partners_cards, Suit::Spades).4 == back@[3]);
            assert(high_card_tricks_in(*my_cards, *partners_cards, s).0 == cashed@[s.rank() as int]);
        }
    }
    quick
}

/// With trumps, the high-card tricks per suit, Clubs to Spades, each side suit cut down to what
/// an opponent who can still ruff lets through.
pub fn trump_high_card_tricks_per_suit(
    my_cards: &VirtualCardTracker,
    partners_cards: &VirtualCardTracker,
    lhos_cards: &VirtualCardTracker,
    rhos_cards: &VirtualCardTracker,
    trump_suit: Suit,
) -> (r: [usize; 4])
    ensures
        forall|s: Suit| #[trigger] r@[s.rank() as int] == trump_high_card_tricks_in(
            *my_cards,
            *partners_cards,
            *lhos_cards,
            *rhos_cards,
            trump_suit,
            s,
        ),
        forall|i: int| 0 <= i < 4 ==> r@[i] <= 16,
{
    let ghost mine = *my_cards;
    let ghost partner = *partners_cards;
    let (high_card_tricks, _partners_blocked, _my_blocked, _to_partner, mut can_move_back) =
        high_card_tricks_per_suit(my_cards, partners_cards);
    let lhos_card_count = lhos_cards.count_cards_per_suit();
    let rhos_card_count = rhos_cards.count_cards_per_suit();
    let t = trump_suit.index() as usize;
    let lhos_trumps = lhos_card_count[t];
    let rhos_trumps = rhos_card_count[t];
    can_move_back[t] = false;
    let can_run_trumps_first = can_move_back[0] || can_move_back[1] || can_move_back[2]
        || can_move_back[3];
    let drawn_trumps = if can_run_trumps_first {
        high_card_tricks[t]
    } else {
        0
    };
    proof {
        assert(high_card_tricks_in(mine, partner, trump_suit).0 == high_card_tricks@[t as int]);
        assert(can_run_trumps_first == some_suit(
            |u: Suit| u != trump_suit && high_card_tricks_in(mine, partner, u).4,
        )) by {
            assert(high_card_tricks_in(mine, partner, Suit::Clubs).0 == high_card_tricks@[0]);
            assert(high_card_tricks_in(mine, partner, Suit::Diamonds).0 == high_card_tricks@[1]);
            assert(high_card_tricks_in(mine, partner, Suit::Hearts).0 == high_card_tricks@[2]);
            assert(high_card_tricks_in(mine, partner, Suit::Spades).0 == high_card_tricks@[3]);
        }
    }
    let lho_ruffs = lhos_trumps > drawn_trumps;
    let rho_ruffs = rhos_trumps > drawn_trumps;
    let mut quick_tricks = [0usize; 4];
    let mut i: usize = 0;
    while i < 4
        invariant
            0 <= i <= 4,
            forall|j: int|
                0 <= j < i ==> quick_tricks@[j] == ruff_cut(
                    high_card_tricks@[j] as int,
                    lhos_card_count@[j] as int,
                    rhos_card_count@[j] as int,
                    lho_ruffs,
                    rho_ruffs,
                ),
            forall|j: int| 0 <= j < 4 ==> high_card_tricks@[j] <= 16,
            forall|j: int| 0 <= j < i ==> quick_tricks@[j] <= 16,
        decreases 4 - i,
    {
        let h = high_card_tricks[i];
        let l = lhos_card_count[i];
        let r = rhos_card_count[i];
        quick_tricks[i] = if lho_ruffs && rho_ruffs {
            let m = if r < h {
                r
            } else {
                h
            };
            if l < m {
                l
            } else {
                m
            }
        } else if lho_ruffs {
            if l < h {
                l
            } else {
                h
            }
        } else if rho_ruffs {
            if r < h {
                r
            } else {
                h
            }
        } else {
            h
        };
        i = i + 1;
    }
    quick_tricks[t] = high_card_tricks[t];
    proof {
        assert forall|s: Suit| #[trigger] quick_tricks@[s.rank() as int] == trump_high_card_tricks_in(
            mine,
            partner,
            *lhos_cards,
            *rhos_cards,
            trump_suit,
            s,
        ) by {
            assert(high_card_tricks_in(mine, partner, s).0 == high_card_tricks@[s.rank() as int]);
            assert(lhos_card_count@[s.rank() as int] == ones(lhos_cards.held(s), 16));
            assert(rhos_card_count@[s.rank() as int] == ones(rhos_cards.held(s), 16));
            assert(lhos_card_count@[trump_suit.rank() as int] == ones(lhos_cards.held(trump_suit), 16));
            assert(rhos_card_count@[trump_suit.rank() as int] == ones(rhos_cards.held(trump_suit), 16));
            if s != trump_suit {
                assert(s.rank() != trump_suit.rank());
            }
        }
    }
    quick_tricks
}

/// The tricks the side on lead can take from the top without giving up the lead: the high-card
/// tricks of all suits, but no more than the leader has cards.
pub open spec fn quick_tricks_for_leader_spec(
    mine: VirtualCardTracker,
    lho: VirtualCardTracker,
    partner: VirtualCardTracker,
    rho: VirtualCardTracker,
    trump: Option<Suit>,
) -> int {
    let tricks = match trump {
        None => suit_sum(|s: Suit| nt_high_card_tricks_in(mine, partner, s)),
        Some(t) => suit_sum(|s: Suit| trump_high_card_tricks_in(mine, partner, lho, rho, t, s)),
    };
    min_of(tricks, total_cards(mine))
}

/// The quick tricks of the side on lead, from the cards of the leader, the next player (left-hand
/// opponent), the partner and the last player (right-hand opponent).
pub fn quick_tricks_for_leader(
    my_cards: &VirtualCardTracker,
    lhos_cards: &VirtualCardTracker,
    partners_cards: &VirtualCardTracker,
    rhos_cards: &VirtualCardTracker,
    trump_suit: Option<Suit>,
) -> (n: usize)
    ensures
        n == quick_tricks_for_leader_spec(
            *my_cards,
            *lhos_cards,
            *partners_cards,
            *rhos_cards,
            trump_suit,
        ),
{
    let per_suit = match trump_suit {
        None => nt_high_card_tricks_per_suit(my_cards, partners_cards),
        Some(trump) => trump_high_card_tricks_per_suit(
            my_cards,
            partners_cards,
            lhos_cards,
            rhos_cards,
            trump,
        ),
    };
    let tricks = per_suit[0] + per_suit[1] + per_suit[2] + per_suit[3];
    let counts = my_cards.count_cards_per_suit();
    proof {
        assert(counts@[Suit::Clubs.rank() as int] == ones(my_cards.held(Suit::Clubs), 16));
        assert(counts@[Suit::Diamonds.rank() as int] == ones(my_cards.held(Suit::Diamonds), 16));
        assert(counts@[Suit::Hearts.rank() as int] == ones(my_cards.held(Suit::Hearts), 16));
        assert(counts@[Suit::Spades.rank() as int] == ones(my_cards.held(Suit::Spades), 16));
        lemma_ones_at_most(my_cards.held(Suit::Clubs), 16);
        lemma_ones_at_most(my_cards.held(Suit::Diamonds), 16);
        lemma_ones_at_most(my_cards.held(Suit::Hearts), 16);
        lemma_ones_at_most(my_cards.held(Suit::Spades), 16);
        assert(per_suit@[Suit::Clubs.rank() as int] == per_suit@[0]);
        assert(per_suit@[Suit::Diamonds.rank() as int] == per_suit@[1]);
        assert(per_suit@[Suit::Hearts.rank() as int] == per_suit@[2]);
        assert(per_suit@[Suit::Spades.rank() as int] == per_suit@[3]);
    }
    let cards = counts[0] + counts[1] + counts[2] + counts[3];
    if tricks < cards {
        tricks
    } else {
        cards
    }
}

/// The quick tricks of the side of the second player, when the lead is in `lead_suit`.
pub open spec fn quick_tricks_for_second_hand_spec(
    mine: VirtualCardTracker,
    lho: VirtualCardTracker,
    partner: VirtualCardTracker,
    trump: Option<Suit>,
    lead: Suit,
) -> int {
    let my_count = |s: Suit| ones(mine.held(s), 16) as int;
    let partners_count = |s: Suit| ones(partner.held(s), 16) as int;
    let lhos_count = |s: Suit| ones(lho.held(s), 16) as int;
    let my_high = |s: Suit| top_run(mine.held(s), mine.out(s), 12) as int;
    let partners_high = |s: Suit| top_run(partner.held(s), partner.out(s), 12) as int;
    match trump {
        None => if my_high(lead) > 0 {
            suit_sum(my_high)
        } else if partners_high(lead) > 0 {
            suit_sum(partners_high)
        } else {
            0
        },
        Some(t) => {
            let lho_cannot_ruff = lhos_count(lead) != 0 || lhos_count(t) == 0;
            if my_count(lead) == 0 && my_count(t) != 0 {
                if lho_cannot_ruff && my_count(t) > my_high(t) {
                    my_high(t) + 1
                } else {
                    my_high(t)
                }
            } else if partners_count(lead) == 0 && partners_count(t) != 0 {
                if lho_cannot_ruff && partners_count(t) > partners_high(t) {
                    partners_high(t) + 1
                } else {
                    partners_high(t)
                }
            } else if lho_cannot_ruff && max_of(my_high(lead), partners_high(lead)) > 0 {
                1
            } else {
                0
            }
        },
    }
}

/// The quick tricks of the side of the second player to a trick led in `lead_suit`, from the
/// cards of the second player, the next player (left-hand opponent) and the partner.
pub fn quick_tricks_for_second_hand(
    my_cards: &VirtualCardTracker,
    lhos_cards: &VirtualCardTracker,
    partners_cards: &VirtualCardTracker,
    trump_suit: Option<Suit>,
    lead_suit: Suit,
) -> (n: usize)
    ensures
        n == quick_tricks_for_second_hand_spec(
            *my_cards,
            *lhos_cards,
            *partners_cards,
            trump_suit,
            lead_suit,
        ),
{
    let lead = lead_suit.index() as usize;
    let my_card_count = my_cards.count_cards_per_suit();
    let partners_card_count = partners_cards.count_cards_per_suit();
    let lhos_card_count = lhos_cards.count_cards_per_suit();
    let my_high = my_cards.count_high_cards_per_suit();
    let partners_high = partners_cards.count_high_cards_per_suit();
    proof {
        lemma_top_run_bound(my_cards.held(Suit::Clubs), my_cards.out(Suit::Clubs), 12);
        lemma_top_run_bound(my_cards.held(Suit::Diamonds), my_cards.out(Suit::Diamonds), 12);
        lemma_top_run_bound(my_cards.held(Suit::Hearts), my_cards.out(Suit::Hearts), 12);
        lemma_top_run_bound(my_cards.held(Suit::Spades), my_cards.out(Suit::Spades), 12);
        lemma_top_run_bound(partners_cards.held(Suit::Clubs), partners_cards.out(Suit::Clubs), 12);
        lemma_top_run_bound(partners_cards.held(Suit::Diamonds), partners_cards.out(Suit::Diamonds), 12);
        lemma_top_run_bound(partners_cards.held(Suit::Hearts), partners_cards.out(Suit::Hearts), 12);
        lemma_top_run_bound(partners_cards.held(Suit::Spades), partners_cards.out(Suit::Spades), 12);
        lemma_ones_at_most(my_cards.held(Suit::Clubs), 16);
        lemma_ones_at_most(my_cards.held(Suit::Diamonds), 16);
        lemma_ones_at_most(my_cards.held(Suit::Hearts), 16);
        lemma_ones_at_most(my_cards.held(Suit::Spades), 16);
        lemma_ones_at_most(partners_cards.held(Suit::Clubs), 16);
        lemma_ones_at_most(partners_cards.held(Suit::Diamonds), 16);
        lemma_ones_at_most(partners_cards.held(Suit::Hearts), 16);
        lemma_ones_at_most(partners_cards.held(Suit::Spades), 16);
        assert(my_high@[Suit::Clubs.rank() as int] == my_high@[0]);
        assert(my_high@[Suit::Diamonds.rank() as int] == my_high@[1]);
        assert(my_high@[Suit::Hearts.rank() as int] == my_high@[2]);
        assert(my_high@[Suit::Spades.rank() as int] == my_high@[3]);
        assert(partners_high@[Suit::Clubs.rank() as int] == partners_high@[0]);
        assert(partners_high@[Suit::Diamonds.rank() as int] == partners_high@[1]);
        assert(partners_high@[Suit::Hearts.rank() as int] == partners_high@[2]);
        assert(partners_high@[Suit::Spades.rank() as int] == partners_high@[3]);
        assert(my_card_count@[lead_suit.rank() as int] == ones(my_cards.held(lead_suit), 16));
        assert(partners_card_count@[lead_suit.rank() as int] == ones(partners_cards.held(lead_suit), 16));
        assert(lhos_card_count@[lead_suit.rank() as int] == ones(lhos_cards.held(lead_suit), 16));
        assert(my_high@[lead_suit.rank() as int] == top_run(my_cards.held(lead_suit), my_cards.out(lead_suit), 12));
        assert(partners_high@[lead_suit.rank() as int] == top_run(partners_cards.held(lead_suit), partners_cards.out(lead_suit), 12));
    }
    match trump_suit {
        None => {
            if my_high[lead] > 0 {
                my_high[0] + my_high[1] + my_high[2] + my_high[3]
            } else if partners_high[lead] > 0 {
                partners_high[0] + partners_high[1] + partners_high[2] + partners_high[3]
            } else {
                0
            }
        },
        Some(trump) => {
            let t = trump.index() as usize;
            proof {
                assert(my_card_count@[trump.rank() as int] == ones(my_cards.held(trump), 16));
                assert(partners_card_count@[trump.rank() as int] == ones(partners_cards.held(trump), 16));
                assert(lhos_card_count@[trump.rank() as int] == ones(lhos_cards.held(trump), 16));
                assert(my_high@[trump.rank() as int] == top_run(my_cards.held(trump), my_cards.out(trump), 12));
                assert(partners_high@[trump.rank() as int] == top_run(partners_cards.held(trump), partners_cards.out(trump), 12));
            }
            let lho_cannot_ruff = lhos_card_count[lead] != 0 || lhos_card_count[t] == 0;
            if my_card_count[lead] == 0 && my_card_count[t] != 0 {
                // I can ruff
                if lho_cannot_ruff {
                    if my_card_count[t] > my_high[t] {
                        // a small trump ruffs, then the top trumps run
                        my_high[t] + 1
                    } else {
                        my_high[t]
                    }
                } else {
                    my_high[t]
                }
            } else if partners_card_count[lead] == 0 && partners_card_count[t] != 0 {
                // the partner can ruff
                if lho_cannot_ruff {
                    if partners_card_count[t] > partners_high[t] {
                        partners_high[t] + 1
                    } else {
                        partners_high[t]
                    }
                } else {
                    partners_high[t]
                }
            } else if lho_cannot_ruff {
                let ours = if my_high[lead] > partners_high[lead] {
                    my_high[lead]
                } else {
                    partners_high[lead]
                };
                if ours > 0 {
                    1
                } else {
                    0
                }
            } else {
                0
            }
        },
    }
}

/// The sum of a quantity over the first `n` suits, from Clubs.
pub open spec fn sum_below(f: spec_fn(Suit) -> int, n: int) -> int
    decreases n,
{
    if n <= 0 {
        0
    } else {
        sum_below(f, n - 1) + f(Suit::of_rank((n - 1) as u8))
    }
}

impl EstimationState {
    /// The number of cards of a seat in a suit.
    pub open spec fn count_of(self, seat: PlayerPosition, s: Suit) -> int {
        self.card_counts@[seat.rank() as int]@[s.rank() as int] as int
    }

    /// The number of top cards in a row of a seat in a suit.
    pub open spec fn high_of(self, seat: PlayerPosition, s: Suit) -> int {
        self.high_card_counts@[seat.rank() as int]@[s.rank() as int] as int
    }

    /// Whether the King of a suit is known to be held by the seat.
    pub open spec fn king_with(self, s: Suit, seat: PlayerPosition) -> bool {
        self.king_owners@[s.rank() as int] == Some(seat)
    }

    /// With `trump` as trumps, the tricks the side on lead must lose in trumps: all of them if
    /// the opponents hold every trump, the opponents' top trumps if they have the highest, and
    /// one for a guarded King behind a lone Ace.
    pub open spec fn trump_losing_tricks_spec(self, trump: Suit) -> int {
        let me = self.my_seat;
        let partner = me.turned(2);
        let lho = me.turned(1);
        let rho = me.turned(3);
        if self.count_of(me, trump) == 0 && self.count_of(partner, trump) == 0 {
            max_of(self.count_of(lho, trump), self.count_of(rho, trump))
        } else if self.high_of(lho, trump) > 0 {
            self.high_of(lho, trump)
        } else if self.high_of(rho, trump) > 0 {
            self.high_of(rho, trump)
        } else if self.high_of(me, trump) == 1 {
            if self.count_of(lho, trump) >= 2 && self.king_with(trump, lho) {
                1
            } else {
                0
            }
        } else if self.high_of(partner, trump) == 1 {
            if self.count_of(rho, trump) >= 2 && self.king_with(trump, rho) {
                1
            } else {
                0
            }
        } else {
            0
        }
    }

    /// Whether the leader has cards of the suit and the right-hand opponent its top card.
    pub open spec fn suit_won_by_rho(self, s: Suit) -> bool {
        self.count_of(self.my_seat, s) != 0 && self.high_of(self.my_seat.turned(3), s) > 0
    }

    /// Whether the leader has cards of the suit and the left-hand opponent, not the right-hand
    /// one, its top card.
    pub open spec fn suit_won_by_lho(self, s: Suit) -> bool {
        self.count_of(self.my_seat, s) != 0 && self.high_of(self.my_seat.turned(3), s) == 0
            && self.high_of(self.my_seat.turned(1), s) > 0
    }

    /// Whether the leader has cards of the suit and no opponent its top card.
    pub open spec fn suit_won_by_us(self, s: Suit) -> bool {
        self.count_of(self.my_seat, s) != 0 && self.high_of(self.my_seat.turned(3), s) == 0
            && self.high_of(self.my_seat.turned(1), s) == 0
    }

    /// The tricks the side on lead may win in a suit whose top card it holds: as many as the
    /// longer of the two hands has cards; none where an opponent holds the top card.
    pub open spec fn our_tricks_in(self, s: Suit) -> int {
        if self.high_of(self.my_seat.turned(1), s) == 0 && self.high_of(self.my_seat.turned(3), s)
            == 0 {
            max_of(self.count_of(self.my_seat, s), self.count_of(self.my_seat.turned(2), s))
        } else {
            0
        }
    }

    /// The number of suits among the first `n`, from Clubs, with the property.
    pub open spec fn suits_below(f: spec_fn(Suit) -> bool, n: int) -> int {
        sum_below(
            |s: Suit|
                if f(s) {
                    1int
                } else {
                    0int
                },
            n,
        )
    }

    /// The number of suits with the property.
    pub open spec fn suits_where(f: spec_fn(Suit) -> bool) -> int {
        Self::suits_below(f, 4)
    }

    /// At no trumps, the tricks the side on lead must lose: if the leader can reach no suit
    /// the side controls, the fewer of the suits each opponent controls; otherwise one if the
    /// leader has more cards than the side could win in the suits it controls.
    pub open spec fn nt_losing_tricks_spec(self) -> int {
        let partners_suits = Self::suits_where(|s: Suit| self.suit_won_by_us(s));
        let lhos_suits = Self::suits_where(|s: Suit| self.suit_won_by_lho(s));
        let rhos_suits = Self::suits_where(|s: Suit| self.suit_won_by_rho(s));
        if partners_suits == 0 {
            min_of(lhos_suits, rhos_suits)
        } else if sum_below(|s: Suit| self.count_of(self.my_seat, s), 4) > sum_below(
            |s: Suit| self.our_tricks_in(s),
            4,
        ) {
            1
        } else {
            0
        }
    }

    /// The tricks the side on lead must lose.
    pub open spec fn losing_tricks_spec(self) -> int {
        match self.trump_suit {
            None => self.nt_losing_tricks_spec(),
            Some(trump) => self.trump_losing_tricks_spec(trump),
        }
    }

    /// The sums the no-trump estimate adds up fit in a `usize`.
    pub open spec fn nt_sums_fit(self) -> bool {
        &&& sum_below(|s: Suit| self.count_of(self.my_seat, s), 4) <= usize::MAX
        &&& sum_below(|s: Suit| self.our_tricks_in(s), 4) <= usize::MAX
    }
}

proof fn lemma_sum_below_monotone(f: spec_fn(Suit) -> int, i: int, j: int)
    requires
        0 <= i <= j,
        forall|s: Suit| #[trigger] f(s) >= 0,
    ensures
        sum_below(f, i) <= sum_below(f, j),
        sum_below(f, i) >= 0,
    decreases j,
{
    if i < j {
        lemma_sum_below_monotone(f, i, j - 1);
    } else if i > 0 {
        lemma_sum_below_monotone(f, i - 1, i - 1);
    }
}

/// The tricks the side on lead must lose, by the estimate for trumps or for no trumps.
pub fn losing_tricks_for_leader(estimation_state: EstimationState) -> (n: usize)
    requires
        estimation_state.trump_suit is None ==> estimation_state.nt_sums_fit(),
    ensures
        n == estimation_state.losing_tricks_spec(),
{
    match estimation_state.trump_suit {
        None => nt_losing_tricks(estimation_state),
        Some(trump_suit) => trump_losing_tricks(trump_suit, estimation_state),
    }
}

fn trump_losing_tricks(trump_suit: Suit, estimation_state: EstimationState) -> (n: usize)
    ensures
        n == estimation_state.trump_losing_tricks_spec(trump_suit),
{
    let player = estimation_state.my_seat;
    let partner = player.after(2);
    let lho = player.after(1);
    let rho = player.after(3);
    let t = trump_suit.index() as usize;
    let my_count = estimation_state.card_counts[player.index() as usize][t];
    let partners_count = estimation_state.card_counts[partner.index() as usize][t];
    let lhos_count = estimation_state.card_counts[lho.index() as usize][t];
    let rhos_count = estimation_state.card_counts[rho.index() as usize][t];
    let my_high = estimation_state.high_card_counts[player.index() as usize][t];
    let partners_high = estimation_state.high_card_counts[partner.index() as usize][t];
    let lhos_high = estimation_state.high_card_counts[lho.index() as usize][t];
    let rhos_high = estimation_state.high_card_counts[rho.index() as usize][t];
    let king_owner = estimation_state.king_owners[t];
    let king_with_lho = match king_owner {
        Some(seat) => seat == lho,
        None => false,
    };
    let king_with_rho = match king_owner {
        Some(seat) => seat == rho,
        None => false,
    };
    if my_count == 0 && partners_count == 0 {
        // the opponents hold every trump
        if lhos_count > rhos_count {
            lhos_count
        } else {
            rhos_count
        }
    } else if lhos_high > 0 {
        lhos_high
    } else if rhos_high > 0 {
        rhos_high
    } else if my_high == 1 {
        // the trump King cannot be driven out
        if lhos_count >= 2 && king_with_lho {
            1
        } else {
            0
        }
    } else if partners_high == 1 {
        if rhos_count >= 2 && king_with_rho {
            1
        } else {
            0
        }
    } else {
        0
    }
}

fn nt_losing_tricks(estimation_state: EstimationState) -> (n: usize)
    requires
        estimation_state.nt_sums_fit(),
    ensures
        n == estimation_state.nt_losing_tricks_spec(),
{
    let ghost state = estimation_state;
    let player = estimation_state.my_seat;
    let partner = player.after(2);
    let lho = player.after(1);
    let rho = player.after(3);
    let my_counts = estimation_state.card_counts[player.index() as usize];
    let partners_counts = estimation_state.card_counts[partner.index() as usize];
    let lhos_high = estimation_state.high_card_counts[lho.index() as usize];
    let rhos_high = estimation_state.high_card_counts[rho.index() as usize];
    let mut partners_suits: usize = 0;
    let mut lhos_suits: usize = 0;
    let mut rhos_suits: usize = 0;
    let mut i: usize = 0;
    while i < 4
        invariant
            0 <= i <= 4,
            state == estimation_state,
            player == state.my_seat,
            lho == player.turned(1),
            rho == player.turned(3),
            my_counts == state.card_counts@[player.rank() as int],
            lhos_high == state.high_card_counts@[lho.rank() as int],
            rhos_high == state.high_card_counts@[rho.rank() as int],
            partners_suits == EstimationState::suits_below(|s: Suit| state.suit_won_by_us(s), i as int),
            lhos_suits == EstimationState::suits_below(|s: Suit| state.suit_won_by_lho(s), i as int),
            rhos_suits == EstimationState::suits_below(|s: Suit| state.suit_won_by_rho(s), i as int),
            partners_suits <= i,
            lhos_suits <= i,
            rhos_suits <= i,
        decreases 4 - i,
    {
        if my_counts[i] != 0 {
            if rhos_high[i] > 0 {
                rhos_suits = rhos_suits + 1;
            } else if lhos_high[i] > 0 {
                lhos_suits = lhos_suits + 1;
            } else {
                partners_suits = partners_suits + 1;
            }
        }
        proof {
            crate::card::lemma_suit_rank_bijection(Suit::of_rank(i as u8), i as u8);
        }
        i = i + 1;
    }
    if partners_suits == 0 {
        return if lhos_suits < rhos_suits {
            lhos_suits
        } else {
            rhos_suits
        };
    }
    let mut our_maximum_tricks: usize = 0;
    let mut tricks_left: usize = 0;
    let mut i: usize = 0;
    while i < 4
        invariant
            0 <= i <= 4,
            state == estimation_state,
            state.nt_sums_fit(),
            player == state.my_seat,
            partner == player.turned(2),
            lho == player.turned(1),
            rho == player.turned(3),
            my_counts == state.card_counts@[player.rank() as int],
            partners_counts == state.card_counts@[partner.rank() as int],
            lhos_high == state.high_card_counts@[lho.rank() as int],
            rhos_high == state.high_card_counts@[rho.rank() as int],
            our_maximum_tricks == sum_below(|s: Suit| state.our_tricks_in(s), i as int),
            tricks_left == sum_below(|s: Suit| state.count_of(state.my_seat, s), i as int),
        decreases 4 - i,
    {
        proof {
            crate::card::lemma_suit_rank_bijection(Suit::of_rank(i as u8), i as u8);
            lemma_sum_below_monotone(|s: Suit| state.our_tricks_in(s), i as int + 1, 4);
            lemma_sum_below_monotone(|s: Suit| state.count_of(state.my_seat, s), i as int + 1, 4);
        }
        if lhos_high[i] == 0 && rhos_high[i] == 0 {
            // the side holds the top card: assume every card wins
            let longest = if my_counts[i] > partners_counts[i] {
                my_counts[i]
            } else {
                partners_counts[i]
            };
            our_maximum_tricks = our_maximum_tricks + longest;
        }
        tricks_left = tricks_left + my_counts[i];
        i = i + 1;
    }
    if tricks_left > our_maximum_tricks {
        1
    } else {
        0
    }
}

/// The top cards in a row a seat is credited with in a suit: the owner of the highest card
/// still in play gets its run if it also has the second highest, else one; the others none.
pub open spec fn credited_high_cards(
    cards: Seq<VirtualCardTracker>,
    ace: Option<PlayerPosition>,
    king: Option<PlayerPosition>,
    seat: PlayerPosition,
    s: Suit,
) -> int {
    match ace {
        None => 0,
        Some(a) => if a != seat {
            0
        } else if king == Some(a) {
            top_run(cards[a.rank() as int].held(s), cards[a.rank() as int].out(s), 12) as int
        } else {
            1
        },
    }
}

/// What the estimates need of a position with `my_seat` to play: the cards of each seat (North
/// to West) read through virtual ranks, and the current distribution record for the owners of
/// the two highest cards still in play per suit.
pub fn create_estimation_state(
    my_seat: PlayerPosition,
    lead_suit: Option<Suit>,
    trump_suit: Option<Suit>,
    cards: &[VirtualCardTracker; 4],
    distribution: &DistFieldManager,
) -> (e: EstimationState)
    requires
        distribution.history().len() > 0,
        forall|s: Suit| #[trigger] in_play(distribution.current().word(s)) <= 13,
    ensures
        e.my_seat == my_seat,
        e.lead_suit == lead_suit,
        e.trump_suit == trump_suit,
        forall|p: PlayerPosition, s: Suit|
            #[trigger] e.count_of(p, s) == ones(cards@[p.rank() as int].held(s), 16),
        forall|s: Suit|
            #[trigger] e.ace_owners@[s.rank() as int] == distribution.current().owner_spec(
                VirtualCard { suit: s, rank: VirtualRank::Ace },
            ),
        forall|s: Suit|
            #[trigger] e.king_owners@[s.rank() as int] == distribution.current().owner_spec(
                VirtualCard { suit: s, rank: VirtualRank::King },
            ),
        forall|p: PlayerPosition, s: Suit|
            #[trigger] e.high_of(p, s) == credited_high_cards(
                cards@,
                e.ace_owners@[s.rank() as int],
                e.king_owners@[s.rank() as int],
                p,
                s,
            ),
        forall|k: int, s: Suit|
            0 <= k < 2 ==> #[trigger] e.our_combined_high_card_count@[k]@[s.rank() as int] == match e.ace_owners@[s.rank() as int] {
                Some(a) => if a.same_side(my_seat) {
                    let both = combined_run(
                        cards@[my_seat.rank() as int].held(s),
                        cards@[my_seat.rank() as int].out(s),
                        cards@[my_seat.turned(2).rank() as int].held(s),
                        cards@[my_seat.turned(2).rank() as int].out(s),
                        12,
                        false,
                    );
                    if k == 0 {
                        both.0 as int
                    } else {
                        both.1 as int
                    }
                } else {
                    0
                },
                None => 0,
            },
{
    let card_counts = [
        cards[0].count_cards_per_suit(),
        cards[1].count_cards_per_suit(),
        cards[2].count_cards_per_suit(),
        cards[3].count_cards_per_suit(),
    ];
    let ace_owners = [
        distribution.owner_of_winning_rank_in(Suit::Clubs),
        distribution.owner_of_winning_rank_in(Suit::Diamonds),
        distribution.owner_of_winning_rank_in(Suit::Hearts),
        distribution.owner_of_winning_rank_in(Suit::Spades),
    ];
    let king_owners = [
        distribution.owner_of_runner_up_in(Suit::Clubs),
        distribution.owner_of_runner_up_in(Suit::Diamonds),
        distribution.owner_of_runner_up_in(Suit::Hearts),
        distribution.owner_of_runner_up_in(Suit::Spades),
    ];
    let partner = my_seat.partner();
    let mut high_card_counts = [[0usize; 4]; 4];
    let mut our_combined_high_card_count = [[0usize; 4]; 2];
    let mut i: usize = 0;
    while i < 4
        invariant
            0 <= i <= 4,
            partner == my_seat.turned(2),
            forall|j: int| 0 <= j < 4 ==> #[trigger] ace_owners@[j] == distribution.current().owner_spec(
                VirtualCard { suit: Suit::of_rank(j as u8), rank: VirtualRank::Ace },
            ),
            forall|j: int| 0 <= j < 4 ==> #[trigger] king_owners@[j] == distribution.current().owner_spec(
                VirtualCard { suit: Suit::of_rank(j as u8), rank: VirtualRank::King },
            ),
            forall|p: PlayerPosition, j: int|
                0 <= j < 4 ==> #[trigger] high_card_counts@[p.rank() as int]@[j] == if j < i {
                    credited_high_cards(cards@, ace_owners@[j], king_owners@[j], p, Suit::of_rank(j as u8))
                } else {
                    0
                },
            forall|k: int, j: int|
                0 <= k < 2 && 0 <= j < 4 ==> #[trigger] our_combined_high_card_count@[k]@[j] == if j < i {
                    match ace_owners@[j] {
                        Some(a) => if a.same_side(my_seat) {
                            let both = combined_run(
                                cards@[my_seat.rank() as int].held(Suit::of_rank(j as u8)),
                                cards@[my_seat.rank() as int].out(Suit::of_rank(j as u8)),
                                cards@[my_seat.turned(2).rank() as int].held(Suit::of_rank(j as u8)),
                                cards@[my_seat.turned(2).rank() as int].out(Suit::of_rank(j as u8)),
                                12,
                                false,
                            );
                            if k == 0 {
                                both.0 as int
                            } else {
                                both.1 as int
                            }
                        } else {
                            0
                        },
                        None => 0,
                    }
                } else {
                    0
                },
        decreases 4 - i,
    {
        let suit = Suit::from_index(i as u8);
        match ace_owners[i] {
            None => {},
            Some(ace_owner) => {
                let a = ace_owner.index() as usize;
                let count = match king_owners[i] {
                    Some(king_owner) => if king_owner == ace_owner {
                        cards[a].count_high_cards_in(suit)
                    } else {
                        1
                    },
                    None => 1,
                };
                let mut row = high_card_counts[a];
                row[i] = count;
                high_card_counts[a] = row;
                if ace_owner.same_axis(&my_seat) {
                    let both = cards[my_seat.index() as usize].count_combined_high_cards_in(
                        suit,
                        &cards[partner.index() as usize],
                    );
                    let mut mine = our_combined_high_card_count[0];
                    mine[i] = both[0];
                    our_combined_high_card_count[0] = mine;
                    let mut theirs = our_combined_high_card_count[1];
                    theirs[i] = both[1];
                    our_combined_high_card_count[1] = theirs;
                }
            },
        }
        proof {
            assert forall|p: PlayerPosition, j: int|
                0 <= j < 4 implies #[trigger] high_card_counts@[p.rank() as int]@[j] == if j < i + 1 {
                    credited_high_cards(cards@, ace_owners@[j], king_owners@[j], p, Suit::of_rank(j as u8))
                } else {
                    0
                } by {
                if j == i {
                    match ace_owners@[j] {
                        Some(ao) => {
                            if ao != p {
                                assert(ao.rank() != p.rank());
                            }
                        },
                        None => {},
                    }
                }
            }
        }
        i = i + 1;
    }
    let e = EstimationState {
        lead_suit,
        trump_suit,
        my_seat,
        card_counts,
        high_card_counts,
        our_combined_high_card_count,
        ace_owners,
        king_owners,
    };
    proof {
        assert forall|s: Suit| #[trigger] e.ace_owners@[s.rank() as int] == distribution.current().owner_spec(
            VirtualCard { suit: s, rank: VirtualRank::Ace },
        ) by {
            crate::card::lemma_suit_rank_bijection(s, s.rank());
        }
        assert forall|s: Suit| #[trigger] e.king_owners@[s.rank() as int] == distribution.current().owner_spec(
            VirtualCard { suit: s, rank: VirtualRank::King },
        ) by {
            crate::card::lemma_suit_rank_bijection(s, s.rank());
        }
        assert forall|p: PlayerPosition, s: Suit| #[trigger] e.high_of(p, s) == credited_high_cards(
            cards@,
            e.ace_owners@[s.rank() as int],
            e.king_owners@[s.rank() as int],
            p,
            s,
        ) by {
            crate::card::lemma_suit_rank_bijection(s, s.rank());
        }
        assert forall|k: int, s: Suit|
            0 <= k < 2 implies #[trigger] e.our_combined_high_card_count@[k]@[s.rank() as int] == match e.ace_owners@[s.rank() as int] {
                Some(a) => if a.same_side(my_seat) {
                    let both = combined_run(
                        cards@[my_seat.rank() as int].held(s),
                        cards@[my_seat.rank() as int].out(s),
                        cards@[my_seat.turned(2).rank() as int].held(s),
                        cards@[my_seat.turned(2).rank() as int].out(s),
                        12,
                        false,
                    );
                    if k == 0 {
                        both.0 as int
                    } else {
                        both.1 as int
                    }
                } else {
                    0
                },
                None => 0,
            } by {
            crate::card::lemma_suit_rank_bijection(s, s.rank());
        }
        assert forall|p: PlayerPosition, s: Suit| #[trigger] e.count_of(p, s) == ones(cards@[p.rank() as int].held(s), 16) by {
            if p.rank() == 0 {
            } else if p.rank() == 1 {
            } else if p.rank() == 2 {
            } else {
            }
        }
    }
    e
}


/// The quick tricks of the side on lead are no more than the leader's cards.
pub proof fn lemma_quick_tricks_for_leader_bound(
    mine: VirtualCardTracker,
    lho: VirtualCardTracker,
    partner: VirtualCardTracker,
    rho: VirtualCardTracker,
    trump: Option<Suit>,
)
    ensures
        quick_tricks_for_leader_spec(mine, lho, partner, rho, trump) <= total_cards(mine),
{
}

/// The quick tricks of the second player's side are no more than the cards of the longer of
/// the two hands of that side.
pub proof fn lemma_quick_tricks_for_second_hand_bound(
    mine: VirtualCardTracker,
    lho: VirtualCardTracker,
    partner: VirtualCardTracker,
    trump: Option<Suit>,
    lead: Suit,
    m: int,
)
    requires
        total_cards(mine) <= m,
        total_cards(partner) <= m,
        1 <= m,
    ensures
        quick_tricks_for_second_hand_spec(mine, lho, partner, trump, lead) <= m,
{
    lemma_top_run_bound(mine.held(Suit::Clubs), mine.out(Suit::Clubs), 12);
    lemma_top_run_bound(mine.held(Suit::Diamonds), mine.out(Suit::Diamonds), 12);
    lemma_top_run_bound(mine.held(Suit::Hearts), mine.out(Suit::Hearts), 12);
    lemma_top_run_bound(mine.held(Suit::Spades), mine.out(Suit::Spades), 12);
    lemma_top_run_bound(partner.held(Suit::Clubs), partner.out(Suit::Clubs), 12);
    lemma_top_run_bound(partner.held(Suit::Diamonds), partner.out(Suit::Diamonds), 12);
    lemma_top_run_bound(partner.held(Suit::Hearts), partner.out(Suit::Hearts), 12);
    lemma_top_run_bound(partner.held(Suit::Spades), partner.out(Suit::Spades), 12);
    if let Some(t) = trump {
        assert(ones(mine.held(t), 16) <= total_cards(mine));
        assert(ones(partner.held(t), 16) <= total_cards(partner));
    }
}

/// The losing tricks of the side on lead are no more than the cards each seat holds, when no
/// seat holds more than `m` cards, the leader holds no more than `m` in all, and no seat is
/// credited with more top cards than `m`.
pub proof fn lemma_losing_tricks_bound(e: EstimationState, m: int)
    requires
        1 <= m,
        forall|p: PlayerPosition, s: Suit| #[trigger] e.count_of(p, s) <= m,
        forall|p: PlayerPosition, s: Suit| #[trigger] e.high_of(p, s) <= m,
        sum_below(|s: Suit| e.count_of(e.my_seat, s), 4) <= m,
    ensures
        e.losing_tricks_spec() <= m,
{
    match e.trump_suit {
        Some(t) => {
            assert(e.count_of(e.my_seat.turned(1), t) <= m);
            assert(e.count_of(e.my_seat.turned(3), t) <= m);
            assert(e.high_of(e.my_seat.turned(1), t) <= m);
            assert(e.high_of(e.my_seat.turned(3), t) <= m);
        },
        None => {
            let f = |s: Suit| e.suit_won_by_lho(s);
            reveal_with_fuel(sum_below, 5);
            let lhos = EstimationState::suits_where(f);
            assert(lhos <= sum_below(|s: Suit| e.count_of(e.my_seat, s), 4)) by {
                assert(f(Suit::of_rank(0)) ==> e.count_of(e.my_seat, Suit::of_rank(0)) >= 1);
                assert(f(Suit::of_rank(1)) ==> e.count_of(e.my_seat, Suit::of_rank(1)) >= 1);
                assert(f(Suit::of_rank(2)) ==> e.count_of(e.my_seat, Suit::of_rank(2)) >= 1);
                assert(f(Suit::of_rank(3)) ==> e.count_of(e.my_seat, Suit::of_rank(3)) >= 1);
            }
        },
    }
}

/// The sums the no-trump estimate adds up fit in a `usize` when no seat holds more than
/// sixteen cards of a suit.
pub proof fn lemma_nt_sums_fit(e: EstimationState)
    requires
        forall|p: PlayerPosition, s: Suit| #[trigger] e.count_of(p, s) <= 16,
    ensures
        e.nt_sums_fit(),
{
    reveal_with_fuel(sum_below, 5);
    let me = e.my_seat;
    assert forall|s: Suit| #[trigger] e.our_tricks_in(s) <= 16 by {
        assert(e.count_of(me, s) <= 16);
        assert(e.count_of(me.turned(2), s) <= 16);
    }
    assert(e.our_tricks_in(Suit::of_rank(0)) <= 16);
    assert(e.our_tricks_in(Suit::of_rank(1)) <= 16);
    assert(e.our_tricks_in(Suit::of_rank(2)) <= 16);
    assert(e.our_tricks_in(Suit::of_rank(3)) <= 16);
    assert(e.count_of(me, Suit::of_rank(0)) <= 16);
    assert(e.count_of(me, Suit::of_rank(1)) <= 16);
    assert(e.count_of(me, Suit::of_rank(2)) <= 16);
    assert(e.count_of(me, Suit::of_rank(3)) <= 16);
}

} // verus!
