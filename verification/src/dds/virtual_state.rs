//! A deal in play seen through virtual ranks: the tricks and hands, the ranks of the cards
//! still in play, and the record of who holds each of them.
use crate::card::{Card, Denomination, Suit};
use crate::dds::bits::{bit16, lemma_bit16_ext, lemma_bit16_ops};
use crate::dds::card_manager::{plays, unplays, lemma_unplay_undoes_play};
use crate::dds::card_tracker::{lemma_within_ranks_bits, CardTracker};
use crate::dds::distribution_field::{
    cards_in_hands, count_where, in_play, suit_count, DistFieldManager, DistributionField,
};
use crate::dds::double_dummy_state::{
    hand_size, lemma_holds_bit, lemma_size_after_addition, lemma_size_after_removal,
    DoubleDummyState,
};
use crate::dds::suit_field::{
    lemma_ones_at_most_thirteen, lemma_ones_disjoint_union, ones, SuitField, ALL_RANKS,
};
use crate::dds::trick_manager::{suit_cards, TrickManager};
use crate::dds::virtual_card::{VirtualCard, VirtualRank};
use crate::dds::virtual_card_tracker::{combined_run, lemma_virtual_view, virtual_view, VirtualCardTracker};
use crate::dds::virtualizer::{
    absolute_of, lemma_absolute_virtual_roundtrip, virtual_rank_of, Virtualizer,
};
use crate::dds::move_generator::{candidate_cards, can_order_moves, PlayView};
use crate::dds::transposition_table::TTKey;
use crate::dds::trick_estimations::{credited_high_cards, EstimationState};
use crate::dds::virtual_card_tracker::virtual_ranks;
use crate::dds::suit_field::ranks_from;
use crate::dds::perfect_play::Position;
use crate::deal::PlayerPosition;
use vstd::prelude::*;

verus! {

/// The bits of the denominations of the cards of a suit among `cards`.
pub open spec fn suit_bits(cards: Seq<Card>, s: Suit) -> u16
    decreases cards.len(),
{
    if cards.len() == 0 {
        0
    } else {
        let rest = suit_bits(cards.drop_last(), s);
        if cards.last().suit == s {
            rest | (1u16 << cards.last().denomination.rank() as u16)
        } else {
            rest
        }
    }
}

/// A bit is set in the suit bits exactly when a card of that suit and denomination is listed.
pub proof fn lemma_suit_bits(cards: Seq<Card>, s: Suit, i: u16)
    requires
        i < 16,
    ensures
        bit16(suit_bits(cards, s), i) == exists|k: int|
            0 <= k < cards.len() && (#[trigger] cards[k]).suit == s
                && cards[k].denomination.rank() == i,
    decreases cards.len(),
{
    if cards.len() == 0 {
        lemma_bit16_ops(0, 0, 0, i);
    } else {
        let rest_cards = cards.drop_last();
        lemma_suit_bits(rest_cards, s, i);
        let last = cards.last();
        let r = last.denomination.rank() as u16;
        let rest = suit_bits(rest_cards, s);
        lemma_bit16_ops(rest, 1u16 << r, r, i);
        let n = cards.len() - 1;
        if exists|k: int|
            0 <= k < rest_cards.len() && (#[trigger] rest_cards[k]).suit == s
                && rest_cards[k].denomination.rank() == i {
            let k = choose|k: int|
                0 <= k < rest_cards.len() && (#[trigger] rest_cards[k]).suit == s
                    && rest_cards[k].denomination.rank() == i;
            assert(cards[k] == rest_cards[k]);
        }
        if exists|k: int|
            0 <= k < cards.len() && (#[trigger] cards[k]).suit == s && cards[k].denomination.rank()
                == i {
            let k = choose|k: int|
                0 <= k < cards.len() && (#[trigger] cards[k]).suit == s
                    && cards[k].denomination.rank() == i;
            if k < n {
                assert(rest_cards[k] == cards[k]);
            } else {
                assert(cards[n] == last);
            }
        }
        if last.suit == s && r == i {
            assert(cards[n] == last);
        }
    }
}

/// The suit bits stay within the thirteen denominations.
pub proof fn lemma_suit_bits_within(cards: Seq<Card>, s: Suit)
    ensures
        suit_bits(cards, s) <= ALL_RANKS,
    decreases cards.len(),
{
    if cards.len() > 0 {
        lemma_suit_bits_within(cards.drop_last(), s);
        let rest = suit_bits(cards.drop_last(), s);
        let r = cards.last().denomination.rank() as u16;
        assert(rest <= 0x1fffu16 && r < 13 ==> rest | (1u16 << r) <= 0x1fffu16) by (bit_vector);
    }
}

/// The count of a suit's cards grows by one with a card of that suit.
pub proof fn lemma_suit_cards_push(cards: Seq<Card>, c: Card, s: Suit)
    ensures
        suit_cards(cards.push(c), s) == suit_cards(cards, s) + if c.suit == s {
            1nat
        } else {
            0
        },
{
    assert(cards.push(c).drop_last() =~= cards);
}

/// Counting the suits of virtual cards counts the suits of the cards they stand for.
pub proof fn lemma_suit_count_matches(vcards: Seq<VirtualCard>, cards: Seq<Card>, s: Suit, n: int)
    requires
        vcards.len() == cards.len(),
        0 <= n <= cards.len(),
        forall|k: int| 0 <= k < cards.len() ==> #[trigger] vcards[k].suit == cards[k].suit,
    ensures
        count_where(n, |k: int| vcards[k].suit == s) == suit_cards(cards.subrange(0, n), s),
    decreases n,
{
    if n > 0 {
        lemma_suit_count_matches(vcards, cards, s, n - 1);
        assert(cards.subrange(0, n).drop_last() =~= cards.subrange(0, n - 1));
        assert(vcards[n - 1].suit == cards[n - 1].suit);
    } else {
        assert(cards.subrange(0, 0) =~= Seq::<Card>::empty());
    }
}

/// Counting the suits of virtual cards counts the suits of the cards they stand for.
pub proof fn lemma_suit_count_equal(vcards: Seq<VirtualCard>, cards: Seq<Card>, s: Suit)
    requires
        vcards.len() == cards.len(),
        forall|k: int| 0 <= k < cards.len() ==> #[trigger] vcards[k].suit == cards[k].suit,
    ensures
        suit_count(vcards, s) == suit_cards(cards, s),
{
    lemma_suit_count_matches(vcards, cards, s, cards.len() as int);
    assert(cards.subrange(0, cards.len() as int) =~= cards);
}

/// Cards no seat holds twice, in bit fields within the thirteen denominations, have no bit in
/// common.
pub proof fn lemma_disjoint_bits(a: CardTracker, b: CardTracker, s: Suit)
    requires
        a.within_ranks(),
        b.within_ranks(),
        forall|c: Card| !(a@.contains(c) && b@.contains(c)),
    ensures
        a.field(s).bits() & b.field(s).bits() == 0,
{
    let x = a.field(s).bits();
    let y = b.field(s).bits();
    assert forall|i: u16| i < 16 implies bit16(x & y, i) == bit16(0u16, i) by {
        lemma_bit16_ops(x, y, 0, i);
        lemma_bit16_ops(0, 0, 0, i);
        if bit16(x, i) && bit16(y, i) {
            lemma_within_ranks_bits(x, i);
            lemma_bit16_ops(0x1fffu16, 0, 0, i);
            crate::card::lemma_denomination_rank_bijection(Denomination::of_rank(i as u8), i as u8);
            let c = Card { suit: s, denomination: Denomination::of_rank(i as u8) };
            lemma_holds_bit(a, c);
            lemma_holds_bit(b, c);
        }
    }
    lemma_bit16_ext(x & y, 0u16);
}

/// Four hands that share no card hold at most thirteen cards of a suit between them.
#[verifier::spinoff_prover]
pub proof fn lemma_hands_at_most_thirteen(hands: Seq<CardTracker>, s: Suit)
    requires
        hands.len() == 4,
        forall|i: int| 0 <= i < 4 ==> (#[trigger] hands[i]).within_ranks(),
        forall|i: int, j: int, c: Card|
            #![trigger hands[i]@.contains(c), hands[j]@.contains(c)]
            0 <= i < 4 && 0 <= j < 4 && hands[i]@.contains(c) && hands[j]@.contains(c) ==> i == j,
    ensures
        cards_in_hands(hands, s, 4) <= 13,
{
    let b0 = hands[0].field(s).bits();
    let b1 = hands[1].field(s).bits();
    let b2 = hands[2].field(s).bits();
    let b3 = hands[3].field(s).bits();
    assert forall|i: int, j: int| 0 <= i < 4 && 0 <= j < 4 && i != j implies hands[i].field(
        s,
    ).bits() & hands[j].field(s).bits() == 0 by {
        assert forall|c: Card| !(hands[i]@.contains(c) && hands[j]@.contains(c)) by {}
        assert(hands[i].within_ranks());
        assert(hands[j].within_ranks());
        lemma_disjoint_bits(hands[i], hands[j], s);
    }
    assert(b0 & b1 == 0);
    assert(b0 & b2 == 0 && b1 & b2 == 0);
    assert(b0 & b3 == 0 && b1 & b3 == 0 && b2 & b3 == 0);
    assert(hands[0].within_ranks() && hands[1].within_ranks() && hands[2].within_ranks()
        && hands[3].within_ranks());
    assert(b0 <= 0x1fffu16 && b1 <= 0x1fffu16 && b2 <= 0x1fffu16 && b3 <= 0x1fffu16);
    lemma_ones_disjoint_union(b0, b1, 16);
    assert(b0 & b2 == 0 && b1 & b2 == 0 ==> (b0 | b1) & b2 == 0) by (bit_vector);
    lemma_ones_disjoint_union(b0 | b1, b2, 16);
    assert(b0 & b3 == 0 && b1 & b3 == 0 && b2 & b3 == 0 ==> (b0 | b1 | b2) & b3 == 0)
        by (bit_vector);
    lemma_ones_disjoint_union(b0 | b1 | b2, b3, 16);
    assert(b0 <= 0x1fffu16 && b1 <= 0x1fffu16 && b2 <= 0x1fffu16 && b3 <= 0x1fffu16 ==> b0 | b1
        | b2 | b3 <= 0x1fffu16) by (bit_vector);
    lemma_ones_at_most_thirteen(b0 | b1 | b2 | b3, 16);
    reveal_with_fuel(cards_in_hands, 5);
}

/// The cards of a suit held by the four seats, after one seat plays or takes back a card.
pub proof fn lemma_held_after_change(
    before: Seq<CardTracker>,
    after: Seq<CardTracker>,
    p: int,
    card: Card,
    added: bool,
)
    requires
        before.len() == 4,
        after.len() == 4,
        0 <= p < 4,
        forall|q: int| 0 <= q < 4 && q != p ==> #[trigger] after[q] == before[q],
        forall|s: Suit| #[trigger] ones(after[p].field(s).bits(), 16) + (if !added && s == card.suit {
            1nat
        } else {
            0
        }) == ones(before[p].field(s).bits(), 16) + (if added && s == card.suit {
            1nat
        } else {
            0
        }),
    ensures
        forall|s: Suit| #[trigger] cards_in_hands(after, s, 4) + (if !added && s == card.suit {
            1int
        } else {
            0
        }) == cards_in_hands(before, s, 4) + (if added && s == card.suit {
            1int
        } else {
            0
        }),
{
    assert forall|s: Suit| #[trigger] cards_in_hands(after, s, 4) + (if !added && s == card.suit {
        1int
    } else {
        0
    }) == cards_in_hands(before, s, 4) + (if added && s == card.suit {
        1int
    } else {
        0
    }) by {
        reveal_with_fuel(cards_in_hands, 5);
        assert(ones(after[p].field(s).bits(), 16) + (if !added && s == card.suit {
            1nat
        } else {
            0
        }) == ones(before[p].field(s).bits(), 16) + (if added && s == card.suit {
            1nat
        } else {
            0
        }));
        if p != 0 {
            assert(after[0] == before[0]);
        }
        if p != 1 {
            assert(after[1] == before[1]);
        }
        if p != 2 {
            assert(after[2] == before[2]);
        }
        if p != 3 {
            assert(after[3] == before[3]);
        }
    }
}

/// The virtual cards of cards still in play, in the same order.
fn virtual_cards(virtualizer: &Virtualizer, cards: &Vec<Card>) -> (v: Vec<VirtualCard>)
    requires
        forall|s: Suit| #[trigger] virtualizer.out_of_play(s) <= ALL_RANKS,
        forall|j: int|
            0 <= j < cards@.len() ==> !bit16(
                virtualizer.out_of_play((#[trigger] cards@[j]).suit),
                cards@[j].denomination.rank() as u16,
            ),
    ensures
        v@.len() == cards@.len(),
        forall|j: int| 0 <= j < cards@.len() ==> (#[trigger] v@[j]).suit == cards@[j].suit,
{
    let mut v: Vec<VirtualCard> = Vec::new();
    let mut i: usize = 0;
    while i < cards.len()
        invariant
            0 <= i <= cards@.len(),
            v@.len() == i,
            forall|s: Suit| #[trigger] virtualizer.out_of_play(s) <= ALL_RANKS,
            forall|j: int|
                0 <= j < cards@.len() ==> !bit16(
                    virtualizer.out_of_play((#[trigger] cards@[j]).suit),
                    cards@[j].denomination.rank() as u16,
                ),
            forall|j: int| 0 <= j < i ==> (#[trigger] v@[j]).suit == cards@[j].suit,
        decreases cards@.len() - i,
    {
        let card = cards[i];
        proof {
            assert(!bit16(
                virtualizer.out_of_play(cards@[i as int].suit),
                cards@[i as int].denomination.rank() as u16,
            ));
            lemma_absolute_virtual_roundtrip(virtualizer.out_of_play(card.suit), card.denomination);
        }
        let vc = virtualizer.absolute_to_virtual(card);
        v.push(vc.unwrap());
        i = i + 1;
    }
    v
}

/// The converter for the cards of the finished tricks.
fn out_of_play_virtualizer(game: &DoubleDummyState) -> (v: Virtualizer)
    requires
        game.wf(),
    ensures
        forall|s: Suit| #[trigger]
            v.out_of_play(s) == suit_bits(
                game.played().subrange(0, 4 * game.tricks().completed()),
                s,
            ),
{
    let tm = game.trick_manager();
    let n = tm.count_played_cards() - tm.count_cards_in_current_trick();
    let mut t = CardTracker::empty();
    proof {
        assert(game.played().subrange(0, 0) =~= Seq::<Card>::empty());
    }
    let mut k: usize = 0;
    while k < n
        invariant
            0 <= k <= n,
            n == 4 * game.tricks().completed(),
            n <= game.played().len(),
            *tm == game.tricks(),
            forall|s: Suit| #[trigger]
                t.field(s).bits() == suit_bits(game.played().subrange(0, k as int), s),
        decreases n - k,
    {
        let card = tm.card_at(k);
        let ghost before = t;
        t.add_card(card);
        proof {
            let prefix = game.played().subrange(0, k as int + 1);
            assert(prefix.drop_last() =~= game.played().subrange(0, k as int));
            assert(prefix.last() == card);
            assert forall|s: Suit| #[trigger] t.field(s).bits() == suit_bits(prefix, s) by {
                if s != card.suit {
                    assert(t.field(s) == before.field(s));
                }
            }
        }
        k = k + 1;
    }
    let fields = [
        t.suit_state(Suit::Clubs),
        t.suit_state(Suit::Diamonds),
        t.suit_state(Suit::Hearts),
        t.suit_state(Suit::Spades),
    ];
    let v = Virtualizer::new(fields);
    proof {
        assert forall|s: Suit| #[trigger] fields@[s.rank() as int] == t.field(s) by {
            match s {
                Suit::Clubs => {},
                Suit::Diamonds => {},
                Suit::Hearts => {},
                Suit::Spades => {},
            }
        }
    }
    v
}

/// A word with no bit set counts no bits.
pub proof fn lemma_ones_zero(n: int)
    requires
        0 <= n <= 16,
    ensures
        ones(0, n) == 0,
    decreases n,
{
    if n > 0 {
        lemma_ones_zero(n - 1);
        lemma_bit16_ops(0, 0, 0, (n - 1) as u16);
    }
}

/// The ranks listed from `j` up include every set bit from `j` up to the twelfth.
pub proof fn lemma_ranks_from_contains(v: u16, j: int, i: int)
    requires
        0 <= j <= i < 13,
        bit16(v, i as u16),
    ensures
        ranks_from(v, j).contains(Denomination::of_rank(i as u8)),
    decreases i - j,
{
    if j < i {
        lemma_ranks_from_contains(v, j + 1, i);
        if bit16(v, j as u16) {
            let rest = ranks_from(v, j + 1);
            let k = choose|k: int| 0 <= k < rest.len() && rest[k] == Denomination::of_rank(i as u8);
            assert(ranks_from(v, j)[k + 1] == rest[k]);
        }
    } else {
        assert(ranks_from(v, j)[0] == Denomination::of_rank(i as u8));
    }
}

/// The virtual ranks of a list keep every rank still in play.
proof fn lemma_virtual_ranks_nonempty(out: u16, ranks: Seq<Denomination>, d: Denomination)
    requires
        ranks.contains(d),
        virtual_rank_of(out, d) is Some,
    ensures
        virtual_ranks(out, ranks).len() > 0,
    decreases ranks.len(),
{
    if ranks.last() != d {
        let k = choose|k: int| 0 <= k < ranks.len() && ranks[k] == d;
        assert(ranks.drop_last()[k] == d);
        lemma_virtual_ranks_nonempty(out, ranks.drop_last(), d);
    }
}

/// A seat holding a card of a suit, none of it out of play, has a virtual card in that suit.
pub proof fn lemma_cards_in_spec_nonempty(t: VirtualCardTracker, s: Suit)
    requires
        t.in_play_only(),
        t.held(s) != 0,
    ensures
        t.cards_in_spec(s).len() > 0,
{
    let h = t.held(s);
    let o = t.out(s);
    assert(h <= ALL_RANKS && o <= ALL_RANKS && h & o == 0);
    crate::dds::suit_field::lemma_top_from(h, 15);
    let top = crate::dds::suit_field::highest_set(h);
    if top < 0 {
        assert forall|i: u16| i < 16 implies !bit16(h, i) by {
            assert(!bit16(h, (i as int) as u16));
        }
        crate::dds::suit_field::lemma_no_bits_is_zero(h);
    }
    if top >= 13 {
        lemma_within_ranks_bits(h, top as u16);
        lemma_bit16_ops(0x1fffu16, 0, 0, top as u16);
    }
    assert(0 <= top < 13);
    lemma_ranks_from_contains(h, 0, top);
    let d = Denomination::of_rank(top as u8);
    crate::card::lemma_denomination_rank_bijection(d, top as u8);
    lemma_bit16_ops(h, o, 0, top as u16);
    lemma_bit16_ops(0, 0, 0, top as u16);
    lemma_absolute_virtual_roundtrip(o, d);
    lemma_virtual_ranks_nonempty(o, ranks_from(h, 0), d);
}

/// Each virtual rank of a list stands for a listed denomination still in play.
proof fn lemma_virtual_ranks_member(
    out: u16,
    ranks: Seq<Denomination>,
    r: crate::dds::virtual_card::VirtualRank,
)
    requires
        virtual_ranks(out, ranks).contains(r),
    ensures
        exists|k: int| 0 <= k < ranks.len() && virtual_rank_of(out, #[trigger] ranks[k]) == Some(r),
    decreases ranks.len(),
{
    if ranks.len() > 0 {
        let rest = virtual_ranks(out, ranks.drop_last());
        let n = ranks.len() - 1;
        let i = choose|i: int| 0 <= i < virtual_ranks(out, ranks).len() && virtual_ranks(out, ranks)[i] == r;
        match virtual_rank_of(out, ranks.last()) {
            Some(v) => {
                if i == rest.len() {
                    assert(virtual_rank_of(out, ranks[n]) == Some(r));
                } else {
                    assert(rest[i] == r);
                    lemma_virtual_ranks_member(out, ranks.drop_last(), r);
                    let k = choose|k: int|
                        0 <= k < ranks.drop_last().len() && virtual_rank_of(
                            out,
                            #[trigger] ranks.drop_last()[k],
                        ) == Some(r);
                    assert(ranks[k] == ranks.drop_last()[k]);
                }
            },
            None => {
                assert(rest[i] == r);
                lemma_virtual_ranks_member(out, ranks.drop_last(), r);
                let k = choose|k: int|
                    0 <= k < ranks.drop_last().len() && virtual_rank_of(
                        out,
                        #[trigger] ranks.drop_last()[k],
                    ) == Some(r);
                assert(ranks[k] == ranks.drop_last()[k]);
            },
        }
    }
}

/// Every denomination listed from bit `j` up has its bit set.
pub proof fn lemma_ranks_from_member(v: u16, j: int, d: Denomination)
    requires
        0 <= j,
        ranks_from(v, j).contains(d),
    ensures
        bit16(v, d.rank() as u16),
    decreases 13 - j,
{
    if j < 13 {
        let rest = ranks_from(v, j + 1);
        let i = choose|i: int| 0 <= i < ranks_from(v, j).len() && ranks_from(v, j)[i] == d;
        if bit16(v, j as u16) {
            if i == 0 {
                crate::card::lemma_denomination_rank_bijection(Denomination::of_rank(j as u8), j as u8);
            } else {
                assert(rest[i - 1] == d);
                lemma_ranks_from_member(v, j + 1, d);
            }
        } else {
            assert(rest[i] == d);
            lemma_ranks_from_member(v, j + 1, d);
        }
    }
}

/// A virtual card listed for a seat's suit stands for a card the seat holds.
pub proof fn lemma_listed_card_held(t: VirtualCardTracker, s: Suit, vc: VirtualCard)
    requires
        t.in_play_only(),
        t.cards_in_spec(s).contains(vc),
    ensures
        vc.suit == s,
        absolute_of(t.out(s), vc.rank) matches Some(d) && bit16(t.held(s), d.rank() as u16),
{
    let ranks = ranks_from(t.held(s), 0);
    let vr = virtual_ranks(t.out(s), ranks);
    let i = choose|i: int| 0 <= i < t.cards_in_spec(s).len() && t.cards_in_spec(s)[i] == vc;
    assert(vr[i] == vc.rank);
    assert(vr.contains(vc.rank));
    lemma_virtual_ranks_member(t.out(s), ranks, vc.rank);
    let k = choose|k: int| 0 <= k < ranks.len() && virtual_rank_of(t.out(s), #[trigger] ranks[k]) == Some(vc.rank);
    let d = ranks[k];
    assert(ranks.contains(d));
    lemma_ranks_from_member(t.held(s), 0, d);
    crate::card::lemma_denomination_rank_bijection(d, 0);
    lemma_bit16_ops(t.held(s), t.out(s), 0, d.rank() as u16);
    lemma_bit16_ops(0, 0, 0, d.rank() as u16);
    lemma_absolute_virtual_roundtrip(t.out(s), d);
}

/// A card the player to move may play, by the move ordering's reading of the position, stands
/// for a card that player holds.
pub proof fn lemma_candidate_held(v: PlayView, vc: VirtualCard)
    requires
        v.hand(v.seat(0)).in_play_only(),
        candidate_cards(v).contains(vc),
    ensures
        absolute_of(v.hand(v.seat(0)).out(vc.suit), vc.rank) matches Some(d) && bit16(
            v.hand(v.seat(0)).held(vc.suit),
            d.rank() as u16,
        ),
{
    let mine = v.hand(v.seat(0));
    let a = mine.cards_in_spec(Suit::Clubs);
    let b = mine.cards_in_spec(Suit::Diamonds);
    let h = mine.cards_in_spec(Suit::Hearts);
    let sp = mine.cards_in_spec(Suit::Spades);
    let all = a + b + h + sp;
    let in_all = v.suit_to_follow is None || mine.held(v.suit_to_follow.unwrap()) == 0;
    if in_all {
        assert(candidate_cards(v) == all);
        let j = choose|j: int| 0 <= j < all.len() && all[j] == vc;
        if j < a.len() {
            assert(a[j] == vc);
            assert(a.contains(vc));
            lemma_listed_card_held(mine, Suit::Clubs, vc);
        } else if j < a.len() + b.len() {
            assert(b[j - a.len()] == vc);
            assert(b.contains(vc));
            lemma_listed_card_held(mine, Suit::Diamonds, vc);
        } else if j < a.len() + b.len() + h.len() {
            assert(h[j - a.len() - b.len()] == vc);
            assert(h.contains(vc));
            lemma_listed_card_held(mine, Suit::Hearts, vc);
        } else {
            assert(sp[j - a.len() - b.len() - h.len()] == vc);
            assert(sp.contains(vc));
            lemma_listed_card_held(mine, Suit::Spades, vc);
        }
    } else {
        lemma_listed_card_held(mine, v.suit_to_follow.unwrap(), vc);
    }
}

/// A deal in play with, for the cards still in play, their virtual ranks and who holds them.
pub struct VirtualState {
    game: DoubleDummyState,
    virtualizer: Virtualizer,
    distribution_field: DistFieldManager,
}

impl VirtualState {
    /// The tricks played and the cards held.
    pub closed spec fn game_state(self) -> DoubleDummyState {
        self.game
    }

    /// The converter between absolute and virtual ranks.
    pub closed spec fn converter(self) -> Virtualizer {
        self.virtualizer
    }

    /// The records of who holds the cards in play, one per trick started.
    pub closed spec fn distribution(self) -> DistFieldManager {
        self.distribution_field
    }

    /// The tricks played.
    pub open spec fn tricks(self) -> TrickManager {
        self.game_state().tricks()
    }

    /// The cards played, in order.
    pub open spec fn played(self) -> Seq<Card> {
        self.tricks().played()
    }

    /// The cards a seat holds.
    pub open spec fn hand(self, p: PlayerPosition) -> CardTracker {
        self.game_state().hand(p)
    }

    /// The bits of the cards of a suit out of play: those of the finished tricks.
    pub open spec fn out_bits(self, s: Suit) -> u16 {
        suit_bits(self.played().subrange(0, 4 * self.tricks().completed()), s)
    }

    /// The number of cards of a suit held by the four seats.
    pub open spec fn held_in(self, s: Suit) -> int {
        cards_in_hands(self.game_state().cards().remaining_cards@, s, 4)
    }

    /// The game is consistent, the converter knows the cards of the finished tricks as out of
    /// play, and there is one record per trick started, the record of trick `t` counting as in
    /// play the cards held and those played from trick `t` on (at most thirteen per suit).
    pub open spec fn wf(self) -> bool {
        &&& self.game_state().wf()
        &&& forall|s: Suit| #[trigger] self.converter().out_of_play(s) == self.out_bits(s)
        &&& self.distribution().history().len() == self.tricks().completed() + 1
        &&& forall|t: int, s: Suit|
            0 <= t <= self.tricks().completed() ==> #[trigger] in_play(
                self.distribution().history()[t].word(s),
            ) == self.held_in(s) + suit_cards(
                self.played().subrange(4 * t, self.played().len() as int),
                s,
            ) && in_play(self.distribution().history()[t].word(s)) <= 13
    }

    /// The same position: the same cards played from the same start, the same hands, the same
    /// cards out of play and the same records.
    pub open spec fn same_position(self, other: Self) -> bool {
        &&& self.played() == other.played()
        &&& self.tricks().opening() == other.tricks().opening()
        &&& self.tricks().trump() == other.tricks().trump()
        &&& self.tricks().total() == other.tricks().total()
        &&& self.game_state().cards() == other.game_state().cards()
        &&& self.distribution().history() == other.distribution().history()
        &&& forall|s: Suit| #[trigger] self.converter().out_of_play(s) == other.converter().out_of_play(s)
    }

    /// The position of the play the state stands for: the seats' cards, the cards played, the
    /// opening leader, the trumps and the number of tricks.
    pub open spec fn position(self) -> Position {
        Position {
            hands: Seq::new(4, |i: int| self.hand(PlayerPosition::of_rank(i as u8))@),
            played: self.played(),
            opening: self.tricks().opening(),
            trumps: self.tricks().trump(),
            n: self.tricks().total(),
        }
    }

    /// The position of a consistent state is one reached by play, and its seat to play, tricks
    /// won and hands are the state's.
    pub proof fn lemma_position(self)
        requires
            self.wf(),
        ensures
            self.position().valid(),
            self.position().next() == self.tricks().next(),
            self.position().leader() == self.tricks().leader(),
            self.position().completed() == self.tricks().completed(),
            self.position().in_trick() == self.tricks().in_trick(),
            self.position().lead_suit() == self.tricks().lead_suit(),
            self.position().finished() == (self.tricks().left() <= 0),
            self.position().n - self.position().completed() == self.tricks().left(),
            forall|p: PlayerPosition| #[trigger] self.position().won(p) == self.tricks().won_by(p),
            forall|p: PlayerPosition| #[trigger] self.position().hand(p) == self.hand(p)@,
    {
        let pos = self.position();
        let gs = self.game_state();
        assert(gs.wf());
        self.tricks().lemma_wf_bounds();
        assert forall|p: PlayerPosition| #[trigger] pos.hand(p) == self.hand(p)@ by {
            assert(PlayerPosition::of_rank(p.rank()) == p);
        }
        assert forall|p: PlayerPosition| #[trigger] pos.hand(p).finite() && pos.hand(p).len()
            == crate::dds::double_dummy_state::hand_size(self.hand(p)) by {
            assert(self.hand(p).within_ranks());
            crate::dds::double_dummy_state::lemma_hand_size_is_len(self.hand(p));
        }
        assert forall|p: PlayerPosition| #[trigger]
            pos.hand(p).len() + (if crate::dds::double_dummy_state::seat_offset(p, pos.leader()) < pos.in_trick() {
                1int
            } else {
                0
            }) == pos.n - pos.completed() by {
            assert(pos.hand(p).finite());
            assert(pos.leader() == gs.tricks().leader());
            assert(crate::dds::double_dummy_state::hand_size(gs.hand(p)) + (if crate::dds::double_dummy_state::seat_offset(
                p,
                gs.tricks().leader(),
            ) < gs.tricks().in_trick() {
                1int
            } else {
                0
            }) == gs.tricks().left());
        }
    }

    /// Playing a card moves the position on by that card.
    pub proof fn lemma_position_played(self, before: Self, card: Card)
        requires
            self.played_to(before, card),
        ensures
            self.position() == before.position().after(card),
    {
        let me = before.tricks().next();
        let b = before.position();
        let a = self.position();
        let after = b.after(card);
        assert(PlayerPosition::of_rank(me.rank()) == me);
        crate::dds::card_manager::lemma_without_card_view(
            before.game_state().cards().remaining_cards@[me.rank() as int],
            self.game_state().cards().remaining_cards@[me.rank() as int],
            card,
        );
        assert forall|i: int| 0 <= i < 4 implies a.hands[i] =~= after.hands[i] by {
            let p = PlayerPosition::of_rank(i as u8);
            assert(p.rank() == i);
        }
        assert(a.hands =~= after.hands);
    }

    /// The state before any card is played: each seat (North, East, South, West) holds its
    /// hand of `n_tricks` cards, no card held by two seats.
    pub fn new(
        hands: [CardTracker; 4],
        opening_leader: PlayerPosition,
        trumps: Option<Suit>,
        n_tricks: usize,
    ) -> (v: Self)
        requires
            1 <= n_tricks <= 13,
            forall|i: int| 0 <= i < 4 ==> (#[trigger] hands@[i]).within_ranks(),
            forall|i: int| 0 <= i < 4 ==> hand_size(#[trigger] hands@[i]) == n_tricks,
            forall|i: int, j: int, c: Card|
                #![trigger hands@[i]@.contains(c), hands@[j]@.contains(c)]
                0 <= i < 4 && 0 <= j < 4 && hands@[i]@.contains(c) && hands@[j]@.contains(c) ==> i
                    == j,
        ensures
            v.wf(),
            v.played() == Seq::<Card>::empty(),
            v.tricks().opening() == opening_leader,
            v.tricks().trump() == trumps,
            v.tricks().total() == n_tricks,
            v.game_state().cards().remaining_cards == hands,
    {
        let game = DoubleDummyState::new(hands, opening_leader, trumps, n_tricks);
        let distribution_field = DistFieldManager::new_for_game(&hands);
        let e = SuitField::empty();
        let virtualizer = Virtualizer::new([e, e, e, e]);
        let v = VirtualState { game, virtualizer, distribution_field };
        proof {
            assert(v.tricks().completed() == 0);
            assert forall|s: Suit| #[trigger] v.converter().out_of_play(s) == v.out_bits(s) by {
                assert(v.played().subrange(0, 0) =~= Seq::<Card>::empty());
                assert([e, e, e, e]@[s.rank() as int] == e);
            }
            assert forall|t: int, s: Suit|
                0 <= t <= v.tricks().completed() implies #[trigger] in_play(
                v.distribution().history()[t].word(s),
            ) == v.held_in(s) + suit_cards(v.played().subrange(4 * t, v.played().len() as int), s)
                && in_play(v.distribution().history()[t].word(s)) <= 13 by {
                assert(v.played().subrange(0, 0) =~= Seq::<Card>::empty());
                lemma_hands_at_most_thirteen(hands@, s);
                assert(t == 0);
                assert(v.distribution().history()[0] == v.distribution().current());
                assert(crate::dds::distribution_field::starts_as(
                    hands@,
                    s,
                    v.distribution().current().word(s),
                ));
            }
        }
        v
    }

    /// This state follows from `before` by the seat to play there playing `card`, which it
    /// held; the card that finishes a trick adds a record.
    pub open spec fn played_to(self, before: Self, card: Card) -> bool {
        &&& self.played() == before.played().push(card)
        &&& self.tricks().opening() == before.tricks().opening()
        &&& self.tricks().trump() == before.tricks().trump()
        &&& self.tricks().total() == before.tricks().total()
        &&& before.hand(before.tricks().next())@.contains(card)
        &&& plays(
            before.game_state().cards(),
            self.game_state().cards(),
            card,
            before.tricks().next(),
        )
        &&& if self.tricks().in_trick() == 0 {
            self.distribution().history().len() > 0 && self.distribution().history().drop_last()
                == before.distribution().history()
        } else {
            self.distribution().history() == before.distribution().history()
        }
    }

    /// This state follows from `before` by taking back its last card, which returns to the
    /// seat that played it; taking back the card that finished a trick drops that trick's
    /// record.
    pub open spec fn taken_back_from(self, before: Self) -> bool {
        &&& before.played().len() > 0
        &&& self.played() == before.played().drop_last()
        &&& self.tricks().opening() == before.tricks().opening()
        &&& self.tricks().trump() == before.tricks().trump()
        &&& self.tricks().total() == before.tricks().total()
        &&& unplays(
            before.game_state().cards(),
            self.game_state().cards(),
            before.played().last(),
            self.tricks().next(),
        )
        &&& self.distribution().history() == if before.tricks().in_trick() == 0 {
            before.distribution().history().drop_last()
        } else {
            before.distribution().history()
        }
    }

    /// Plays the card a virtual card stands for, for the seat to play. Fails, changing
    /// nothing, when no card still in play has that virtual rank or the seat to play does not
    /// hold it.
    #[verifier::spinoff_prover]
    pub fn play(&mut self, virtual_card: &VirtualCard) -> (r: Result<(), ()>)
        requires
            old(self).wf(),
            old(self).tricks().left() >= 1,
        ensures
            final(self).wf(),
            (r is Ok) == match absolute_of(
                old(self).converter().out_of_play(virtual_card.suit),
                virtual_card.rank,
            ) {
                Some(d) => old(self).hand(old(self).tricks().next())@.contains(
                    Card { suit: virtual_card.suit, denomination: d },
                ),
                None => false,
            },
            r is Err ==> *final(self) == *old(self),
            r is Ok ==> final(self).played_to(
                *old(self),
                Card {
                    suit: virtual_card.suit,
                    denomination: absolute_of(
                        old(self).converter().out_of_play(virtual_card.suit),
                        virtual_card.rank,
                    ).unwrap(),
                },
            ),
    {
        let converted = self.virtualizer.virtual_to_absolute(*virtual_card);
        let card = match converted {
            None => {
                return Err(());
            },
            Some(c) => c,
        };
        let player = self.game.next_to_play();
        if !self.game.cards_of(player).contains(&card) {
            return Err(());
        }
        let ghost before = *self;
        self.game.play(card);
        proof {
            lemma_size_after_removal(before.hand(player), self.hand(player), card);
            assert forall|q: int| 0 <= q < 4 && q != player.rank() implies #[trigger] self.game.cards().remaining_cards@[q]
                == before.game_state().cards().remaining_cards@[q] by {}
            lemma_held_after_change(
                before.game_state().cards().remaining_cards@,
                self.game.cards().remaining_cards@,
                player.rank() as int,
                card,
                false,
            );
        }
        if self.game.player_is_leading() {
            self.finish_trick(Ghost(before), Ghost(card));
        } else {
            proof {
                self.lemma_mid_trick_wf(before, card);
            }
        }
        Ok(())
    }

    #[verifier::spinoff_prover]
    proof fn lemma_mid_trick_wf(self, before: Self, card: Card)
        requires
            before.wf(),
            self.game_state().wf(),
            self.played() == before.played().push(card),
            self.tricks().opening() == before.tricks().opening(),
            self.tricks().trump() == before.tricks().trump(),
            self.tricks().total() == before.tricks().total(),
            self.converter() == before.converter(),
            self.distribution() == before.distribution(),
            self.tricks().in_trick() != 0,
            forall|s: Suit| #[trigger] self.held_in(s) + (if s == card.suit {
                1int
            } else {
                0
            }) == before.held_in(s),
        ensures
            self.wf(),
    {
        let c = before.tricks().completed();
        let p0 = before.played();
        let p1 = self.played();
        assert(self.tricks().completed() == c);
        assert(p1.subrange(0, 4 * c) =~= p0.subrange(0, 4 * c));
        assert forall|t: int, s: Suit|
            0 <= t <= c implies #[trigger] in_play(self.distribution().history()[t].word(s))
            == self.held_in(s) + suit_cards(p1.subrange(4 * t, p1.len() as int), s) && in_play(
            self.distribution().history()[t].word(s),
        ) <= 13 by {
            assert(p1.subrange(4 * t, p1.len() as int) =~= p0.subrange(4 * t, p0.len() as int).push(
                card,
            ));
            lemma_suit_cards_push(p0.subrange(4 * t, p0.len() as int), card, s);
            assert(in_play(before.distribution().history()[t].word(s)) == before.held_in(s)
                + suit_cards(p0.subrange(4 * t, p0.len() as int), s));
        }
    }

    /// Records the trick just finished: its cards leave play in a new record, and the converter
    /// learns them as out of play.
    #[verifier::spinoff_prover]
    fn finish_trick(&mut self, Ghost(before): Ghost<Self>, Ghost(card): Ghost<Card>)
        requires
            before.wf(),
            old(self).game_state().wf(),
            old(self).played() == before.played().push(card),
            old(self).tricks().opening() == before.tricks().opening(),
            old(self).tricks().trump() == before.tricks().trump(),
            old(self).tricks().total() == before.tricks().total(),
            old(self).converter() == before.converter(),
            old(self).distribution() == before.distribution(),
            old(self).tricks().in_trick() == 0,
            forall|s: Suit| #[trigger] old(self).held_in(s) + (if s == card.suit {
                1int
            } else {
                0
            }) == before.held_in(s),
        ensures
            final(self).wf(),
            final(self).game_state() == old(self).game_state(),
            final(self).distribution().history().len() > 0,
            final(self).distribution().history().drop_last() == before.distribution().history(),
    {
        let ghost c = before.tricks().completed();
        let ghost p0 = before.played();
        let ghost p1 = self.played();
        let last_trick = self.game.trick_manager().cards_in_last_trick();
        proof {
            assert(self.tricks().completed() == c + 1);
            assert(last_trick@ =~= p1.subrange(4 * c, 4 * c + 4));
            assert(p1.subrange(0, 4 * c) =~= p0.subrange(0, 4 * c));
            assert forall|s: Suit| #[trigger] self.virtualizer.out_of_play(s) <= ALL_RANKS by {
                lemma_suit_bits_within(p0.subrange(0, 4 * c), s);
            }
            assert forall|j: int| 0 <= j < last_trick@.len() implies !bit16(
                self.virtualizer.out_of_play((#[trigger] last_trick@[j]).suit),
                last_trick@[j].denomination.rank() as u16,
            ) by {
                let x = last_trick@[j];
                let i = x.denomination.rank() as u16;
                let prefix = p0.subrange(0, 4 * c);
                lemma_suit_bits(prefix, x.suit, i);
                if bit16(self.virtualizer.out_of_play(x.suit), i) {
                    let k = choose|k: int|
                        0 <= k < prefix.len() && (#[trigger] prefix[k]).suit == x.suit
                            && prefix[k].denomination.rank() == i;
                    assert(p1[k] == prefix[k]);
                    assert(p1[4 * c + j] == x);
                    crate::card::lemma_denomination_rank_bijection(prefix[k].denomination, 0);
                    crate::card::lemma_denomination_rank_bijection(x.denomination, 0);
                    assert(prefix[k] == x);
                    let gs = self.game_state();
                    assert(gs.wf());
                    assert(0 <= k < 4 * c + j < gs.played().len());
                    assert(gs.played()[k] != gs.played()[4 * c + j]);
                }
            }
        }
        let vcards = virtual_cards(&self.virtualizer, &last_trick);
        let ghost start = self.distribution_field.current();
        proof {
            assert(last_trick@.subrange(0, 4) =~= last_trick@);
            assert(p1.subrange(4 * c, 4 * c + 4) =~= p0.subrange(4 * c, p0.len() as int).push(card));
            assert(before.distribution().history().len() == c + 1);
            assert(start == before.distribution().history()[c]);
            assert(p0.len() == 4 * c + 3);
            assert forall|s: Suit| #[trigger] suit_count(vcards@, s) <= in_play(start.word(s)) by {
                lemma_suit_count_equal(vcards@, last_trick@, s);
                lemma_suit_cards_push(p0.subrange(4 * c, p0.len() as int), card, s);
                assert(suit_count(vcards@, s) == suit_cards(p0.subrange(4 * c, p0.len() as int), s)
                    + if card.suit == s {
                    1nat
                } else {
                    0
                });
                assert(in_play(before.distribution().history()[c].word(s)) == before.held_in(s)
                    + suit_cards(p0.subrange(4 * c, p0.len() as int), s));
                lemma_held_nonneg(self.game.cards().remaining_cards@, s);
                assert(self.held_in(s) >= 0);
                assert(self.held_in(s) + (if s == card.suit {
                    1int
                } else {
                    0
                }) == before.held_in(s));
            }
        }
        self.distribution_field.remove_cards(vcards.as_slice());
        self.virtualizer = out_of_play_virtualizer(&self.game);
        proof {
            let h = self.distribution().history();
            assert(h.drop_last() =~= before.distribution().history());
            assert(h.len() == c + 2);
            assert(self.game_state() == old(self).game_state());
            assert forall|s: Suit| #[trigger] self.held_in(s) + (if s == card.suit {
                1int
            } else {
                0
            }) == before.held_in(s) by {
                assert(old(self).held_in(s) + (if s == card.suit {
                    1int
                } else {
                    0
                }) == before.held_in(s));
            }
            assert forall|t: int, s: Suit|
                0 <= t <= c + 1 implies #[trigger] in_play(h[t].word(s)) == self.held_in(s)
                + suit_cards(p1.subrange(4 * t, p1.len() as int), s) && in_play(h[t].word(s)) <= 13 by {
                if t <= c {
                    assert(h[t] == before.distribution().history()[t]);
                    assert(p1.subrange(4 * t, p1.len() as int) =~= p0.subrange(
                        4 * t,
                        p0.len() as int,
                    ).push(card));
                    lemma_suit_cards_push(p0.subrange(4 * t, p0.len() as int), card, s);
                    assert(in_play(before.distribution().history()[t].word(s)) == before.held_in(s)
                        + suit_cards(p0.subrange(4 * t, p0.len() as int), s));
                } else {
                    assert(h[t] == self.distribution_field.current());
                    assert(in_play(h[t].word(s)) == in_play(start.word(s)) - suit_count(vcards@, s));
                    lemma_suit_count_equal(vcards@, last_trick@, s);
                    lemma_suit_cards_push(p0.subrange(4 * c, p0.len() as int), card, s);
                    assert(in_play(before.distribution().history()[c].word(s)) == before.held_in(s)
                        + suit_cards(p0.subrange(4 * c, p0.len() as int), s));
                    assert(start == before.distribution().history()[c]);
                    assert(p1.subrange(4 * t, p1.len() as int) =~= Seq::<Card>::empty());
                }
            }
        }
    }

    /// Takes back the last card played, if any: it returns to the seat that played it, and
    /// taking back the card that finished a trick drops that trick's record.
    #[verifier::spinoff_prover]
    pub fn undo(&mut self)
        requires
            old(self).wf(),
        ensures
            final(self).wf(),
            old(self).played().len() == 0 ==> final(self).same_position(*old(self)),
            old(self).played().len() > 0 ==> final(self).taken_back_from(*old(self)),
    {
        let ghost before = *self;
        if self.trick_manager().trick_complete() {
            self.game.undo();
            self.virtualizer = out_of_play_virtualizer(&self.game);
            self.distribution_field.step_back();
        } else {
            self.game.undo();
        }
        proof {
            assert(before.played().len() == 0 ==> self.converter() == before.converter()
                && self.distribution() == before.distribution());
            if before.played().len() > 0 {
                let card = before.played().last();
                let player = self.tricks().next();
                assert(!before.hand(player)@.contains(card)) by {
                    assert(!before.hand(player)@.contains(before.played()[before.played().len() - 1]));
                }
                lemma_size_after_addition(before.hand(player), self.hand(player), card);
                assert forall|q: int| 0 <= q < 4 && q != player.rank() implies #[trigger] self.game.cards().remaining_cards@[q]
                    == before.game_state().cards().remaining_cards@[q] by {}
                lemma_held_after_change(
                    before.game_state().cards().remaining_cards@,
                    self.game.cards().remaining_cards@,
                    player.rank() as int,
                    card,
                    true,
                );
                self.lemma_undo_wf(before);
            } else {
                assert(self.game.cards() == before.game_state().cards());
                assert(self.played() == before.played());
                assert forall|s: Suit| #[trigger] self.held_in(s) == before.held_in(s) by {}
                assert(self.tricks().completed() == before.tricks().completed());
                assert forall|s: Suit| #[trigger] self.converter().out_of_play(s) == self.out_bits(s) by {
                    assert(before.converter().out_of_play(s) == before.out_bits(s));
                }
            }
        }
    }

    #[verifier::spinoff_prover]
    proof fn lemma_undo_wf(self, before: Self)
        requires
            before.wf(),
            before.played().len() > 0,
            self.game_state().wf(),
            self.played() == before.played().drop_last(),
            self.tricks().opening() == before.tricks().opening(),
            self.tricks().trump() == before.tricks().trump(),
            self.tricks().total() == before.tricks().total(),
            before.tricks().in_trick() == 0 ==> self.distribution().history()
                == before.distribution().history().drop_last() && forall|s: Suit| #[trigger]
                self.converter().out_of_play(s) == self.out_bits(s),
            before.tricks().in_trick() != 0 ==> self.distribution() == before.distribution()
                && self.converter() == before.converter(),
            forall|s: Suit| #[trigger] self.held_in(s) == before.held_in(s) + (if s
                == before.played().last().suit {
                1int
            } else {
                0
            }),
        ensures
            self.wf(),
    {
        let p0 = before.played();
        let p1 = self.played();
        let card = p0.last();
        let c = before.tricks().completed();
        let c1 = self.tricks().completed();
        assert(p0 =~= p1.push(card));
        if before.tricks().in_trick() == 0 {
            assert(c1 == c - 1);
        } else {
            assert(c1 == c);
            assert(p1.subrange(0, 4 * c) =~= p0.subrange(0, 4 * c));
        }
        assert forall|t: int, s: Suit|
            0 <= t <= c1 implies #[trigger] in_play(self.distribution().history()[t].word(s))
            == self.held_in(s) + suit_cards(p1.subrange(4 * t, p1.len() as int), s) && in_play(
            self.distribution().history()[t].word(s),
        ) <= 13 by {
            assert(self.distribution().history()[t] == before.distribution().history()[t]);
            assert(p0.subrange(4 * t, p0.len() as int) =~= p1.subrange(4 * t, p1.len() as int).push(
                card,
            ));
            lemma_suit_cards_push(p1.subrange(4 * t, p1.len() as int), card, s);
            assert(in_play(before.distribution().history()[t].word(s)) == before.held_in(s)
                + suit_cards(p0.subrange(4 * t, p0.len() as int), s));
        }
    }

    /// The virtual card of the card winning the current trick so far, if a card has been
    /// played to it.
    pub open spec fn winning_virtual_card(self) -> Option<VirtualCard> {
        if self.tricks().in_trick() == 0 {
            None
        } else {
            let c = self.tricks().current_trick()[crate::dds::trick_manager::winning_index(
                self.tricks().current_trick(),
                self.tricks().trump(),
            )];
            match virtual_rank_of(self.converter().out_of_play(c.suit), c.denomination) {
                Some(r) => Some(VirtualCard { suit: c.suit, rank: r }),
                None => None,
            }
        }
    }

    /// The virtual card stands for a card still in play that the seat to play holds.
    pub open spec fn playable(self, vc: VirtualCard) -> bool {
        match absolute_of(self.converter().out_of_play(vc.suit), vc.rank) {
            Some(d) => self.hand(self.tricks().next())@.contains(
                Card { suit: vc.suit, denomination: d },
            ),
            None => false,
        }
    }

    /// No card a seat holds is out of play.
    pub proof fn lemma_hand_in_play(self, p: PlayerPosition)
        requires
            self.wf(),
        ensures
            forall|s: Suit| #[trigger] self.hand(p).field(s).bits() & self.converter().out_of_play(s) == 0,
            forall|s: Suit| #[trigger] self.converter().out_of_play(s) <= ALL_RANKS,
            forall|s: Suit| #[trigger] self.hand(p).field(s).bits() <= ALL_RANKS,
    {
        let gs = self.game_state();
        assert(gs.wf());
        let prefix = self.played().subrange(0, 4 * self.tricks().completed());
        assert forall|s: Suit| #[trigger] self.converter().out_of_play(s) <= ALL_RANKS by {
            lemma_suit_bits_within(prefix, s);
        }
        assert forall|s: Suit| #[trigger] self.hand(p).field(s).bits() <= ALL_RANKS by {
            assert(gs.hand(p).within_ranks());
        }
        assert forall|s: Suit| #[trigger] self.hand(p).field(s).bits() & self.converter().out_of_play(s) == 0 by {
            let h = self.hand(p).field(s).bits();
            let o = self.converter().out_of_play(s);
            assert forall|i: u16| i < 16 implies bit16(h & o, i) == bit16(0u16, i) by {
                lemma_bit16_ops(h, o, 0, i);
                lemma_bit16_ops(0, 0, 0, i);
                lemma_suit_bits(prefix, s, i);
                if bit16(o, i) && bit16(h, i) {
                    let k = choose|k: int|
                        0 <= k < prefix.len() && (#[trigger] prefix[k]).suit == s
                            && prefix[k].denomination.rank() == i;
                    assert(prefix[k] == gs.played()[k]);
                    lemma_holds_bit(gs.hand(p), prefix[k]);
                    assert(!gs.hand(p)@.contains(gs.played()[k]));
                }
            }
            lemma_bit16_ext(h & o, 0u16);
        }
    }

    /// No card of the current trick is out of play.
    proof fn lemma_trick_in_play(self, j: int)
        requires
            self.wf(),
            4 * self.tricks().completed() <= j < self.played().len(),
        ensures
            !bit16(
                self.converter().out_of_play(self.played()[j].suit),
                self.played()[j].denomination.rank() as u16,
            ),
            self.converter().out_of_play(self.played()[j].suit) <= ALL_RANKS,
    {
        let gs = self.game_state();
        assert(gs.wf());
        let x = self.played()[j];
        let i = x.denomination.rank() as u16;
        let prefix = self.played().subrange(0, 4 * self.tricks().completed());
        lemma_suit_bits_within(prefix, x.suit);
        lemma_suit_bits(prefix, x.suit, i);
        if bit16(self.converter().out_of_play(x.suit), i) {
            let k = choose|k: int|
                0 <= k < prefix.len() && (#[trigger] prefix[k]).suit == x.suit
                    && prefix[k].denomination.rank() == i;
            assert(prefix[k] == gs.played()[k]);
            crate::card::lemma_denomination_rank_bijection(prefix[k].denomination, 0);
            crate::card::lemma_denomination_rank_bijection(x.denomination, 0);
            assert(gs.played()[k] != gs.played()[j]);
        }
    }

    /// The virtual card of the card winning the current trick so far, if a card has been
    /// played to it.
    pub fn currently_winning_card(&self) -> (c: Option<VirtualCard>)
        requires
            self.wf(),
        ensures
            c == self.winning_virtual_card(),
            self.tricks().in_trick() != 0 ==> c is Some,
    {
        let winning = self.trick_manager().currently_winning_card();
        match winning {
            None => None,
            Some(card) => {
                proof {
                    let t = self.tricks();
                    crate::dds::trick_manager::lemma_winning_index_bound(
                        t.current_trick(),
                        t.trump(),
                    );
                    let w = crate::dds::trick_manager::winning_index(t.current_trick(), t.trump());
                    assert(t.current_trick()[w] == self.played()[4 * t.completed() + w]);
                    self.lemma_trick_in_play(4 * t.completed() + w);
                    lemma_absolute_virtual_roundtrip(
                        self.converter().out_of_play(card.suit),
                        card.denomination,
                    );
                }
                self.virtualizer.absolute_to_virtual(card)
            },
        }
    }

    /// What the move ordering reads of the position. With a trick still to play, moves can be
    /// ordered from it.
    pub fn view(&self) -> (v: PlayView<'_>)
        requires
            self.wf(),
        ensures
            v.next_to_play == self.tricks().next(),
            v.suit_to_follow == self.tricks().lead_suit(),
            v.trump_suit == self.tricks().trump(),
            forall|p: PlayerPosition| #[trigger] v.hand(p).tracker() == self.hand(p),
            forall|p: PlayerPosition| #[trigger] v.hand(p).converter() == self.converter(),
            *v.distribution == self.distribution(),
            v.currently_winning_card == self.winning_virtual_card(),
            v.current_trick_winner == self.tricks().leader().turned(
                crate::dds::trick_manager::winning_index(
                    self.tricks().current_trick(),
                    self.tricks().trump(),
                ),
            ),
            v.count_played_cards == self.played().len(),
            v.count_cards_in_current_trick == self.tricks().in_trick(),
            self.tricks().left() >= 1 ==> can_order_moves(v),
            self.tricks().left() >= 1 ==> candidate_cards(v).len() > 0,
    {
        let v = PlayView {
            next_to_play: self.next_to_play(),
            suit_to_follow: self.suit_to_follow(),
            trump_suit: self.trump_suit(),
            cards: [
                self.cards_of(PlayerPosition::North),
                self.cards_of(PlayerPosition::East),
                self.cards_of(PlayerPosition::South),
                self.cards_of(PlayerPosition::West),
            ],
            distribution: &self.distribution_field,
            currently_winning_card: self.currently_winning_card(),
            current_trick_winner: self.current_trick_winner(),
            count_played_cards: self.count_played_cards(),
            count_cards_in_current_trick: self.count_cards_in_current_trick(),
        };
        proof {
            assert forall|p: PlayerPosition| #[trigger] v.hand(p).tracker() == self.hand(p)
                && v.hand(p).converter() == self.converter() by {
                match p {
                    PlayerPosition::North => {},
                    PlayerPosition::East => {},
                    PlayerPosition::South => {},
                    PlayerPosition::West => {},
                }
            }
            if self.tricks().left() >= 1 {
                self.lemma_view_can_order(v);
            }
        }
        v
    }

    #[verifier::spinoff_prover]
    proof fn lemma_view_can_order(self, v: PlayView)
        requires
            self.wf(),
            self.tricks().left() >= 1,
            v.next_to_play == self.tricks().next(),
            v.suit_to_follow == self.tricks().lead_suit(),
            forall|p: PlayerPosition| #[trigger] v.hand(p).tracker() == self.hand(p),
            forall|p: PlayerPosition| #[trigger] v.hand(p).converter() == self.converter(),
            *v.distribution == self.distribution(),
            v.currently_winning_card == self.winning_virtual_card(),
            v.count_played_cards == self.played().len(),
            v.count_cards_in_current_trick == self.tricks().in_trick(),
            self.tricks().in_trick() != 0 ==> self.winning_virtual_card() is Some,
        ensures
            can_order_moves(v),
            candidate_cards(v).len() > 0,
    {
        let gs = self.game_state();
        assert(gs.wf());
        assert forall|p: PlayerPosition| #[trigger] v.hand(p).in_play_only() by {
            self.lemma_hand_in_play(p);
            assert(v.hand(p).tracker() == self.hand(p));
            assert(v.hand(p).converter() == self.converter());
            assert forall|s: Suit| #[trigger] v.hand(p).held(s) <= ALL_RANKS && v.hand(p).out(s)
                <= ALL_RANKS && v.hand(p).held(s) & v.hand(p).out(s) == 0 by {
                assert(self.hand(p).field(s).bits() & self.converter().out_of_play(s) == 0);
                assert(self.converter().out_of_play(s) <= ALL_RANKS);
                assert(self.hand(p).field(s).bits() <= ALL_RANKS);
            }
        }
        let c = self.tricks().completed();
        assert forall|s: Suit| #[trigger] in_play(v.distribution.current().word(s)) <= 13 by {
            assert(v.distribution.current() == self.distribution().history()[c]);
            assert(in_play(self.distribution().history()[c].word(s)) <= 13);
        }
        self.tricks().lemma_wf_bounds();
        assert(self.played().len() <= 52);
        {
            let me = v.seat(0);
            assert(me == self.tricks().next()) by {
                assert(self.tricks().next().turned(0) == self.tricks().next());
            }
            let mine = v.hand(me);
            assert(hand_size(self.hand(me)) == self.tricks().left()) by {
                assert(crate::dds::double_dummy_state::seat_offset(me, self.tricks().leader())
                    == self.tricks().in_trick());
            }
            assert(mine.in_play_only());
            if self.tricks().lead_suit() is Some && mine.held(self.tricks().lead_suit().unwrap()) != 0 {
                lemma_cards_in_spec_nonempty(mine, self.tricks().lead_suit().unwrap());
            } else {
                let h = self.hand(me);
                if h.field(Suit::Clubs).bits() != 0 {
                    lemma_cards_in_spec_nonempty(mine, Suit::Clubs);
                } else if h.field(Suit::Diamonds).bits() != 0 {
                    lemma_cards_in_spec_nonempty(mine, Suit::Diamonds);
                } else if h.field(Suit::Hearts).bits() != 0 {
                    lemma_cards_in_spec_nonempty(mine, Suit::Hearts);
                } else if h.field(Suit::Spades).bits() != 0 {
                    lemma_cards_in_spec_nonempty(mine, Suit::Spades);
                } else {
                    lemma_ones_zero(16);
                }
            }
        }
    }

    /// The holder of a virtual card, by the current record.
    pub fn owner_of(&self, card: VirtualCard) -> (p: Option<PlayerPosition>)
        requires
            self.wf(),
        ensures
            p == self.distribution().current().owner_spec(card),
    {
        proof {
            assert(in_play(self.distribution().history()[self.tricks().completed()].word(card.suit))
                <= 13);
        }
        self.distribution_field.owner_of(&card)
    }

    /// The holder of the highest card of a suit still in play, by the current record.
    pub fn owner_of_winning_rank_in(&self, suit: Suit) -> (p: Option<PlayerPosition>)
        requires
            self.wf(),
        ensures
            p == self.distribution().current().owner_spec(
                VirtualCard { suit, rank: crate::dds::virtual_card::VirtualRank::Ace },
            ),
    {
        proof {
            assert(in_play(self.distribution().history()[self.tricks().completed()].word(suit))
                <= 13);
        }
        self.distribution_field.owner_of_winning_rank_in(suit)
    }

    /// The holder of the second highest card of a suit still in play, by the current record.
    pub fn owner_of_runner_up_in(&self, suit: Suit) -> (p: Option<PlayerPosition>)
        requires
            self.wf(),
        ensures
            p == self.distribution().current().owner_spec(
                VirtualCard { suit, rank: crate::dds::virtual_card::VirtualRank::King },
            ),
    {
        proof {
            assert(in_play(self.distribution().history()[self.tricks().completed()].word(suit))
                <= 13);
        }
        self.distribution_field.owner_of_runner_up_in(suit)
    }

    /// The key of the position in the transposition table: tricks left, trumps, the seat to
    /// play and the current record.
    pub fn generate_tt_key(&self) -> (k: TTKey)
        requires
            self.wf(),
        ensures
            k.tricks_left == self.tricks().left(),
            k.trumps == self.tricks().trump(),
            k.lead == self.tricks().next(),
            forall|s: Suit| #[trigger] k.remaining_cards@[s.rank() as int]
                == self.distribution().current().word(s),
    {
        let field = self.distribution_field.get_field();
        let words = [
            field.cards_in_suit(Suit::Clubs),
            field.cards_in_suit(Suit::Diamonds),
            field.cards_in_suit(Suit::Hearts),
            field.cards_in_suit(Suit::Spades),
        ];
        let k = TTKey::new(self.tricks_left(), self.trump_suit(), self.next_to_play(), words);
        proof {
            assert forall|s: Suit| #[trigger] k.remaining_cards@[s.rank() as int]
                == self.distribution().current().word(s) by {
                match s {
                    Suit::Clubs => {},
                    Suit::Diamonds => {},
                    Suit::Hearts => {},
                    Suit::Spades => {},
                }
            }
        }
        k
    }

    /// The cards of the four seats (North to West) read through virtual ranks.
    pub open spec fn virtual_hands(self) -> Seq<VirtualCardTracker<'static>> {
        Seq::new(
            4,
            |i: int| virtual_view::<'static>(self.hand(PlayerPosition::of_rank(i as u8)), self.converter()),
        )
    }

    /// `e` holds what the trick estimates need of the position, for the seat to play: the
    /// cards per seat and suit, the owners of the two highest cards still in play per suit
    /// (from the current distribution record), the top cards in a row credited to each seat,
    /// and the shares of the side to play in the top cards it holds together.
    pub open spec fn estimates(self, e: EstimationState) -> bool {
        &&& e.my_seat == self.tricks().next()
        &&& e.lead_suit == self.tricks().lead_suit()
        &&& e.trump_suit == self.tricks().trump()
        &&& forall|p: PlayerPosition, s: Suit|
            #[trigger] e.count_of(p, s) == ones(self.hand(p).field(s).bits(), 16)
        &&& forall|s: Suit|
            #[trigger] e.ace_owners@[s.rank() as int] == self.distribution().current().owner_spec(
                VirtualCard { suit: s, rank: VirtualRank::Ace },
            )
        &&& forall|s: Suit|
            #[trigger] e.king_owners@[s.rank() as int] == self.distribution().current().owner_spec(
                VirtualCard { suit: s, rank: VirtualRank::King },
            )
        &&& forall|p: PlayerPosition, s: Suit|
            #[trigger] e.high_of(p, s) == credited_high_cards(
                self.virtual_hands(),
                e.ace_owners@[s.rank() as int],
                e.king_owners@[s.rank() as int],
                p,
                s,
            )
        &&& forall|k: int, s: Suit|
            0 <= k < 2 ==> #[trigger] e.our_combined_high_card_count@[k]@[s.rank() as int]
                == match e.ace_owners@[s.rank() as int] {
                Some(a) => if a.same_side(self.tricks().next()) {
                    let me = self.virtual_hands()[self.tricks().next().rank() as int];
                    let partner = self.virtual_hands()[self.tricks().next().turned(2).rank() as int];
                    let both = combined_run(
                        me.held(s),
                        me.out(s),
                        partner.held(s),
                        partner.out(s),
                        12,
                        false,
                    );
                    if k == 0 {
                        both.0 as int
                    } else {
                        both.1 as int
                    }
                } else {
                    0
                },
                None => 0,
            }
    }

    /// The position settles every part of what the estimates need of it.
    pub proof fn lemma_estimates_unique(self, e1: EstimationState, e2: EstimationState)
        requires
            self.estimates(e1),
            self.estimates(e2),
        ensures
            e1 == e2,
    {
        assert forall|i: int, j: int| 0 <= i < 4 && 0 <= j < 4 implies e1.card_counts@[i]@[j]
            == e2.card_counts@[i]@[j] && e1.high_card_counts@[i]@[j] == e2.high_card_counts@[i]@[j] by {
            let p = PlayerPosition::of_rank(i as u8);
            let s = Suit::of_rank(j as u8);
            assert(p.rank() == i);
            assert(s.rank() == j);
            assert(e1.count_of(p, s) == e2.count_of(p, s));
            assert(e1.ace_owners@[s.rank() as int] == e2.ace_owners@[s.rank() as int]);
            assert(e1.king_owners@[s.rank() as int] == e2.king_owners@[s.rank() as int]);
            assert(e1.high_of(p, s) == e2.high_of(p, s));
        }
        assert forall|j: int| 0 <= j < 4 implies e1.ace_owners@[j] == e2.ace_owners@[j]
            && e1.king_owners@[j] == e2.king_owners@[j] by {
            let s = Suit::of_rank(j as u8);
            assert(s.rank() == j);
            assert(e1.ace_owners@[s.rank() as int] == e2.ace_owners@[s.rank() as int]);
            assert(e1.king_owners@[s.rank() as int] == e2.king_owners@[s.rank() as int]);
        }
        assert forall|k: int, j: int| 0 <= k < 2 && 0 <= j < 4 implies e1.our_combined_high_card_count@[k]@[j]
            == e2.our_combined_high_card_count@[k]@[j] by {
            let s = Suit::of_rank(j as u8);
            assert(s.rank() == j);
            assert(e1.ace_owners@[s.rank() as int] == e2.ace_owners@[s.rank() as int]);
            assert(e1.our_combined_high_card_count@[k]@[s.rank() as int]
                == e2.our_combined_high_card_count@[k]@[s.rank() as int]);
        }
        assert forall|i: int| 0 <= i < 4 implies e1.card_counts@[i] == e2.card_counts@[i]
            && e1.high_card_counts@[i] == e2.high_card_counts@[i] by {
            assert(e1.card_counts@[i]@ =~= e2.card_counts@[i]@);
            assert(e1.high_card_counts@[i]@ =~= e2.high_card_counts@[i]@);
            vstd::array::axiom_array_ext_equal(e1.card_counts@[i], e2.card_counts@[i]);
            vstd::array::axiom_array_ext_equal(e1.high_card_counts@[i], e2.high_card_counts@[i]);
        }
        assert forall|k: int| 0 <= k < 2 implies e1.our_combined_high_card_count@[k]
            == e2.our_combined_high_card_count@[k] by {
            assert(e1.our_combined_high_card_count@[k]@ =~= e2.our_combined_high_card_count@[k]@);
            vstd::array::axiom_array_ext_equal(
                e1.our_combined_high_card_count@[k],
                e2.our_combined_high_card_count@[k],
            );
        }
        assert(e1.card_counts@ =~= e2.card_counts@);
        assert(e1.high_card_counts@ =~= e2.high_card_counts@);
        assert(e1.our_combined_high_card_count@ =~= e2.our_combined_high_card_count@);
        assert(e1.ace_owners@ =~= e2.ace_owners@);
        assert(e1.king_owners@ =~= e2.king_owners@);
        vstd::array::axiom_array_ext_equal(e1.card_counts, e2.card_counts);
        vstd::array::axiom_array_ext_equal(e1.high_card_counts, e2.high_card_counts);
        vstd::array::axiom_array_ext_equal(
            e1.our_combined_high_card_count,
            e2.our_combined_high_card_count,
        );
        vstd::array::axiom_array_ext_equal(e1.ace_owners, e2.ace_owners);
        vstd::array::axiom_array_ext_equal(e1.king_owners, e2.king_owners);
    }

    /// What the trick estimates need of the position, for the seat to play (see `estimates`).
    pub fn create_estimation_state(&self) -> (e: EstimationState)
        requires
            self.wf(),
        ensures
            self.estimates(e),
            forall|p: PlayerPosition, s: Suit|
                #[trigger] e.high_of(p, s) <= 1 || e.high_of(p, s) <= ones(
                    self.hand(p).field(s).bits(),
                    16,
                ),
    {
        let cards = [
            self.cards_of(PlayerPosition::North),
            self.cards_of(PlayerPosition::East),
            self.cards_of(PlayerPosition::South),
            self.cards_of(PlayerPosition::West),
        ];
        proof {
            let c = self.tricks().completed();
            assert(self.distribution_field.current() == self.distribution().history()[c]);
            assert forall|s: Suit| #[trigger] in_play(self.distribution_field.current().word(s))
                <= 13 by {
                assert(in_play(self.distribution().history()[c].word(s)) <= 13);
            }
            assert forall|p: PlayerPosition| #[trigger] cards@[p.rank() as int].tracker()
                == self.hand(p) by {
                match p {
                    PlayerPosition::North => {},
                    PlayerPosition::East => {},
                    PlayerPosition::South => {},
                    PlayerPosition::West => {},
                }
            }
        }
        let e = crate::dds::trick_estimations::create_estimation_state(
            self.next_to_play(),
            self.suit_to_follow(),
            self.trump_suit(),
            &cards,
            &self.distribution_field,
        );
        proof {
            assert forall|i: int| 0 <= i < 4 implies cards@[i] == self.virtual_hands()[i] by {
                lemma_virtual_view(cards@[i]);
                let p = PlayerPosition::of_rank(i as u8);
                assert(p.rank() == i);
                assert(cards@[p.rank() as int].tracker() == self.hand(p));
            }
            assert(cards@ =~= self.virtual_hands());
        }
        proof {
            assert forall|p: PlayerPosition, s: Suit|
                #[trigger] e.high_of(p, s) <= 1 || e.high_of(p, s) <= ones(
                    self.hand(p).field(s).bits(),
                    16,
                ) by {
                assert(cards@[p.rank() as int].tracker() == self.hand(p));
                crate::dds::virtual_card_tracker::lemma_top_run_bound(
                    cards@[p.rank() as int].held(s),
                    cards@[p.rank() as int].out(s),
                    12,
                );
            }
        }
        e
    }

    /// The tricks played.
    pub fn trick_manager(&self) -> (t: &TrickManager)
        ensures
            *t == self.tricks(),
    {
        self.game.trick_manager()
    }

    /// The seat to play next.
    pub fn next_to_play(&self) -> (p: PlayerPosition)
        requires
            self.wf(),
        ensures
            p == self.tricks().next(),
    {
        self.game.next_to_play()
    }

    /// The suit led to the current trick, if a card has been led to it.
    pub fn suit_to_follow(&self) -> (s: Option<Suit>)
        requires
            self.wf(),
        ensures
            s == self.tricks().lead_suit(),
    {
        self.trick_manager().suit_to_follow()
    }

    /// The number of cards played.
    pub fn count_played_cards(&self) -> (n: usize)
        ensures
            n == self.played().len(),
    {
        self.trick_manager().count_played_cards()
    }

    /// Whether the seat to play leads to a new trick.
    pub fn player_is_leading(&self) -> (b: bool)
        ensures
            b == (self.tricks().in_trick() == 0),
    {
        self.trick_manager().player_is_leading()
    }

    /// The tricks not yet finished.
    pub fn tricks_left(&self) -> (n: usize)
        requires
            self.wf(),
        ensures
            n == self.tricks().left(),
    {
        self.trick_manager().tricks_left()
    }

    /// The number of tricks of the deal.
    pub fn total_tricks(&self) -> (n: usize)
        ensures
            n == self.tricks().total(),
    {
        self.trick_manager().total_tricks()
    }

    /// A seat that has not played to the current trick holds one card per trick left.
    pub proof fn lemma_unplayed_hand_size(self, p: PlayerPosition)
        requires
            self.wf(),
            crate::dds::double_dummy_state::seat_offset(p, self.tricks().leader())
                >= self.tricks().in_trick(),
        ensures
            hand_size(self.hand(p)) == self.tricks().left(),
            forall|s: Suit| #[trigger] ones(self.hand(p).field(s).bits(), 16) <= self.tricks().left(),
    {
        let gs = self.game_state();
        assert(gs.wf());
        assert(hand_size(gs.hand(p)) + (if crate::dds::double_dummy_state::seat_offset(
            p,
            gs.tricks().leader(),
        ) < gs.tricks().in_trick() {
            1int
        } else {
            0
        }) == gs.tricks().left());
    }

    /// Whether the current trick is the last one.
    pub fn is_last_trick(&self) -> (b: bool)
        requires
            self.wf(),
        ensures
            b == (self.tricks().left() == 1),
    {
        self.tricks_left() == 1
    }

    /// The tricks the side of `player` has won.
    pub fn tricks_won_by_axis(&self, player: PlayerPosition) -> (n: usize)
        requires
            self.wf(),
        ensures
            n == self.tricks().won_by(player),
    {
        self.trick_manager().tricks_won_by_axis(player)
    }

    /// The number of cards played to the current trick.
    pub fn count_cards_in_current_trick(&self) -> (n: usize)
        ensures
            n == self.tricks().in_trick(),
    {
        self.trick_manager().count_cards_in_current_trick()
    }

    /// The trump suit, if any.
    pub fn trump_suit(&self) -> (t: Option<Suit>)
        ensures
            t == self.tricks().trump(),
    {
        self.trick_manager().trump_suit()
    }

    /// The seat winning the current trick so far.
    pub fn current_trick_winner(&self) -> (p: PlayerPosition)
        requires
            self.wf(),
        ensures
            p == self.tricks().leader().turned(
                crate::dds::trick_manager::winning_index(
                    self.tricks().current_trick(),
                    self.tricks().trump(),
                ),
            ),
    {
        self.trick_manager().current_trick_winner()
    }

    /// The winner of the last finished trick, if one is finished.
    pub fn last_trick_winner(&self) -> (p: Option<PlayerPosition>)
        requires
            self.wf(),
        ensures
            p == if self.tricks().completed() == 0 {
                None::<PlayerPosition>
            } else {
                Some(
                    crate::dds::trick_manager::leader_of(
                        self.tricks().opening(),
                        self.tricks().trump(),
                        self.played(),
                        self.tricks().completed(),
                    ),
                )
            },
    {
        self.trick_manager().last_trick_winner()
    }

    /// The cards of a seat, read through virtual ranks.
    pub fn cards_of(&self, player: PlayerPosition) -> (t: VirtualCardTracker<'_>)
        ensures
            t.tracker() == self.hand(player),
            t.converter() == self.converter(),
    {
        VirtualCardTracker::from_card_tracker(self.game.cards_of(player), &self.virtualizer)
    }

    /// The number of trumps a seat holds; none without trumps.
    pub fn count_trump_cards_for_player(&self, player: PlayerPosition) -> (n: usize)
        ensures
            n == match self.tricks().trump() {
                None => 0,
                Some(t) => ones(self.hand(player).field(t).bits(), 16),
            },
    {
        match self.trump_suit() {
            None => 0,
            Some(trump_suit) => self.game.count_cards_in_suit_for_player(trump_suit, player),
        }
    }

    /// The number of trumps the side of a seat holds; none without trumps.
    pub fn count_trump_cards_for_axis(&self, player: PlayerPosition) -> (n: usize)
        ensures
            n == match self.tricks().trump() {
                None => 0,
                Some(t) => ones(self.hand(player).field(t).bits(), 16) + ones(
                    self.hand(player.turned(2)).field(t).bits(),
                    16,
                ),
            },
    {
        match self.trump_suit() {
            None => 0,
            Some(trump_suit) => {
                let mine = self.game.count_cards_in_suit_for_player(trump_suit, player);
                let partners = self.game.count_cards_in_suit_for_player(trump_suit, player.partner());
                proof {
                    crate::dds::virtual_card_tracker::lemma_ones_at_most(
                        self.hand(player).field(trump_suit).bits(),
                        16,
                    );
                    crate::dds::virtual_card_tracker::lemma_ones_at_most(
                        self.hand(player.turned(2)).field(trump_suit).bits(),
                        16,
                    );
                }
                mine + partners
            },
        }
    }

    /// Whether a seat can ruff a suit: trumps are named, and it holds trumps but no card of the
    /// suit.
    pub fn player_can_ruff_suit(&self, suit: Suit, player: PlayerPosition) -> (b: bool)
        ensures
            b == match self.tricks().trump() {
                None => false,
                Some(t) => self.hand(player).field(suit).bits() == 0 && self.hand(player).field(
                    t,
                ).bits() != 0,
            },
    {
        match self.trump_suit() {
            None => false,
            Some(trump_suit) => {
                let cards = self.game.cards_of(player);
                cards.is_void_in(suit) && !cards.is_void_in(trump_suit)
            },
        }
    }

    /// The trumps held by the side to play.
    pub fn count_this_sides_trump_cards(&self) -> (n: usize)
        requires
            self.wf(),
        ensures
            n == match self.tricks().trump() {
                Some(t) => ones(self.hand(self.tricks().next()).field(t).bits(), 16) + ones(
                    self.hand(self.tricks().next().turned(2)).field(t).bits(),
                    16,
                ),
                None => 0,
            },
    {
        self.game.count_this_sides_trump_cards()
    }

    /// The trumps held by the side not to play.
    pub fn count_opponents_trump_cards(&self) -> (n: usize)
        requires
            self.wf(),
        ensures
            n == match self.tricks().trump() {
                Some(t) => ones(self.hand(self.tricks().next().turned(1)).field(t).bits(), 16)
                    + ones(self.hand(self.tricks().next().turned(1).turned(2)).field(t).bits(), 16),
                None => 0,
            },
    {
        self.game.count_opponents_trump_cards()
    }

    /// Whether the leader's partner has, in a suit, a higher field than both opponents.
    pub fn partner_has_higher_cards_than_opponents(&self, suit: Suit, leader: PlayerPosition) -> (b:
        bool)
        ensures
            b == (self.hand(leader.turned(2)).field(suit).bits() > self.hand(
                leader.turned(1),
            ).field(suit).bits() && self.hand(leader.turned(2)).field(suit).bits() > self.hand(
                leader.turned(3),
            ).field(suit).bits()),
    {
        self.game.partner_has_higher_cards_than_opponents(suit, leader)
    }

    /// Whether the card a virtual card stands for would beat the card winning the current
    /// trick; any card wins a trick it leads.
    pub fn would_win_over_current_winner(&self, card: VirtualCard) -> (b: bool)
        requires
            self.wf(),
            absolute_of(self.converter().out_of_play(card.suit), card.rank) is Some,
        ensures
            b == if self.tricks().in_trick() == 0 {
                true
            } else {
                crate::dds::trick_manager::card_beats(
                    Card {
                        suit: card.suit,
                        denomination: absolute_of(
                            self.converter().out_of_play(card.suit),
                            card.rank,
                        ).unwrap(),
                    },
                    self.tricks().current_trick()[crate::dds::trick_manager::winning_index(
                        self.tricks().current_trick(),
                        self.tricks().trump(),
                    )],
                    self.tricks().trump(),
                )
            },
    {
        let real_card = self.virtualizer.virtual_to_absolute(card).unwrap();
        self.game.would_win_over_current_winner(&real_card)
    }
}

/// The cards held by the four seats never count below zero.
pub proof fn lemma_held_nonneg(hands: Seq<CardTracker>, s: Suit)
    ensures
        cards_in_hands(hands, s, 4) >= 0,
{
    reveal_with_fuel(cards_in_hands, 5);
}

/// Taking back the card just played gives back the position before it was played, whatever
/// was searched in between as long as that search gave the position back.
#[verifier::spinoff_prover]
pub proof fn lemma_undo_undoes_play(
    s0: VirtualState,
    s1: VirtualState,
    s2: VirtualState,
    s3: VirtualState,
    card: Card,
)
    requires
        s0.wf(),
        s1.played_to(s0, card),
        s2.same_position(s1),
        s3.taken_back_from(s2),
        s3.wf(),
    ensures
        s3.same_position(s0),
{
    assert(s2.played().drop_last() =~= s0.played());
    assert(s2.played().last() == card);
    let p = s0.tricks().next();
    assert(s3.tricks().next() == p);
    assert(!s0.game_state().cards().played_cards@.contains(card)) by {
        if s0.played().contains(card) {
            let k = choose|k: int| 0 <= k < s0.played().len() && s0.played()[k] == card;
            let gs = s0.game_state();
            assert(gs.wf());
            assert(!gs.hand(p)@.contains(gs.played()[k]));
        }
    }
    lemma_unplay_undoes_play(
        s0.game_state().cards(),
        s1.game_state().cards(),
        s3.game_state().cards(),
        card,
        p,
    );
    assert(s3.distribution().history() =~= s0.distribution().history());
    assert(s3.tricks().completed() == s0.tricks().completed());
}

} // verus!
