//! Why the search tries one card of each run of touching cards the seat to play may play and
//! loses nothing: every card it may play is worth what one of the tried cards is worth.
use crate::card::{Card, Denomination, Suit};
use crate::dds::bits::{bit16, lemma_bit16_ops};
use crate::dds::double_dummy_state::lemma_holds_bit;
use crate::dds::move_generator::{candidate_cards, lemma_sequences_cover, sequences, touches, PlayView};
use crate::dds::perfect_play::{between, lemma_touching_cards_equal, outcome};
use crate::dds::suit_field::{ranks_from, ALL_RANKS};
use crate::dds::virtual_card::{VirtualCard, VirtualRank};
use crate::dds::virtual_card_tracker::{virtual_ranks, VirtualCardTracker};
use crate::dds::virtual_state::{
    lemma_candidate_held, lemma_listed_card_held, lemma_ranks_from_contains, VirtualState,
};
use crate::dds::virtual_state::{lemma_suit_bits, lemma_suit_bits_within};
use crate::dds::virtualizer::{
    absolute_of, lemma_absolute_virtual_roundtrip, lemma_virtual_absolute_roundtrip,
    lemma_virtual_index_bound, lemma_virtual_index_increases, virtual_index, virtual_rank_of,
};
use crate::deal::PlayerPosition;
use vstd::prelude::*;

verus! {

/// The view shows the state: its seat to play, suit led, hands and cards out of play.
pub open spec fn shows(view: PlayView, state: VirtualState) -> bool {
    &&& view.next_to_play == state.tricks().next()
    &&& view.suit_to_follow == state.tricks().lead_suit()
    &&& forall|p: PlayerPosition| #[trigger] view.hand(p).tracker() == state.hand(p)
    &&& forall|p: PlayerPosition| #[trigger] view.hand(p).converter() == state.converter()
    &&& view.well_formed()
}

/// The card a virtual card stands for in the state.
pub open spec fn card_of(state: VirtualState, vc: VirtualCard) -> Card {
    Card {
        suit: vc.suit,
        denomination: absolute_of(state.converter().out_of_play(vc.suit), vc.rank).unwrap(),
    }
}

/// The virtual card of a card in the state.
pub open spec fn virtual_of(state: VirtualState, c: Card) -> VirtualCard {
    VirtualCard {
        suit: c.suit,
        rank: virtual_rank_of(state.converter().out_of_play(c.suit), c.denomination).unwrap(),
    }
}

/// A listed denomination still in play has its virtual rank listed.
proof fn lemma_virtual_ranks_contains(
    out: u16,
    ranks: Seq<Denomination>,
    d: Denomination,
    v: VirtualRank,
)
    requires
        ranks.contains(d),
        virtual_rank_of(out, d) == Some(v),
    ensures
        virtual_ranks(out, ranks).contains(v),
    decreases ranks.len(),
{
    let rest = virtual_ranks(out, ranks.drop_last());
    if ranks.last() == d {
        assert(virtual_ranks(out, ranks) == rest.push(v));
        assert(virtual_ranks(out, ranks)[rest.len() as int] == v);
    } else {
        let k = choose|k: int| 0 <= k < ranks.len() && ranks[k] == d;
        assert(ranks.drop_last()[k] == d);
        lemma_virtual_ranks_contains(out, ranks.drop_last(), d, v);
        let j = choose|j: int| 0 <= j < rest.len() && rest[j] == v;
        assert(virtual_ranks(out, ranks)[j] == v);
    }
}

/// A card a seat holds, none of whose suit is out of play in its cards, is listed among the
/// seat's virtual cards of its suit.
proof fn lemma_held_card_listed(t: VirtualCardTracker, c: Card)
    requires
        t.in_play_only(),
        bit16(t.held(c.suit), c.denomination.rank() as u16),
    ensures
        virtual_rank_of(t.out(c.suit), c.denomination) matches Some(v) && absolute_of(
            t.out(c.suit),
            v,
        ) == Some(c.denomination) && t.cards_in_spec(c.suit).contains(
            VirtualCard { suit: c.suit, rank: v },
        ),
{
    let s = c.suit;
    let h = t.held(s);
    let o = t.out(s);
    let r = c.denomination.rank();
    assert(h <= ALL_RANKS && o <= ALL_RANKS && h & o == 0);
    crate::card::lemma_denomination_rank_bijection(c.denomination, 0);
    lemma_bit16_ops(h, o, 0, r as u16);
    lemma_bit16_ops(0, 0, 0, r as u16);
    lemma_absolute_virtual_roundtrip(o, c.denomination);
    let v = virtual_rank_of(o, c.denomination).unwrap();
    lemma_ranks_from_contains(h, 0, r as int);
    lemma_virtual_ranks_contains(o, ranks_from(h, 0), c.denomination, v);
    let vr = virtual_ranks(o, ranks_from(h, 0));
    let j = choose|j: int| 0 <= j < vr.len() && vr[j] == v;
    assert(t.cards_in_spec(s)[j] == VirtualCard { suit: s, rank: v });
}

/// The cards listed for a suit are among all the seat's listed cards.
proof fn lemma_listed_in_all(t: VirtualCardTracker, vc: VirtualCard)
    requires
        t.cards_in_spec(vc.suit).contains(vc),
    ensures
        (t.cards_in_spec(Suit::Clubs) + t.cards_in_spec(Suit::Diamonds) + t.cards_in_spec(
            Suit::Hearts,
        ) + t.cards_in_spec(Suit::Spades)).contains(vc),
{
    let a = t.cards_in_spec(Suit::Clubs);
    let b = t.cards_in_spec(Suit::Diamonds);
    let h = t.cards_in_spec(Suit::Hearts);
    let sp = t.cards_in_spec(Suit::Spades);
    let all = a + b + h + sp;
    let own = t.cards_in_spec(vc.suit);
    let j = choose|j: int| 0 <= j < own.len() && own[j] == vc;
    match vc.suit {
        Suit::Clubs => {
            assert(all[j] == vc);
        },
        Suit::Diamonds => {
            assert(all[a.len() + j] == vc);
        },
        Suit::Hearts => {
            assert(all[a.len() + b.len() + j] == vc);
        },
        Suit::Spades => {
            assert(all[a.len() + b.len() + h.len() + j] == vc);
        },
    }
}

/// A seat with a set bit in a suit holds a card of that suit.
proof fn lemma_some_card_held(t: crate::dds::card_tracker::CardTracker, s: Suit)
    requires
        t.within_ranks(),
        t.field(s).bits() != 0,
    ensures
        exists|d: Card| #[trigger] t@.contains(d) && d.suit == s,
{
    let h = t.field(s).bits();
    crate::dds::suit_field::lemma_top_from(h, 15);
    let top = crate::dds::suit_field::highest_set(h);
    if top < 0 {
        assert forall|i: u16| i < 16 implies !bit16(h, i) by {
            assert(!bit16(h, (i as int) as u16));
        }
        crate::dds::suit_field::lemma_no_bits_is_zero(h);
    }
    if top >= 13 {
        crate::dds::card_tracker::lemma_within_ranks_bits(h, top as u16);
        lemma_bit16_ops(0x1fffu16, 0, 0, top as u16);
    }
    let d = Card { suit: s, denomination: Denomination::of_rank(top as u8) };
    crate::card::lemma_denomination_rank_bijection(d.denomination, top as u8);
    lemma_holds_bit(t, d);
    assert(t@.contains(d));
}

/// A card the move ordering lists for the seat to play is one it may play.
pub proof fn lemma_candidate_legal(state: VirtualState, view: PlayView, vc: VirtualCard)
    requires
        state.wf(),
        state.tricks().left() >= 1,
        shows(view, state),
        candidate_cards(view).contains(vc),
    ensures
        state.position().legal(card_of(state, vc)),
        state.hand(state.tricks().next())@.contains(card_of(state, vc)),
{
    let me = state.tricks().next();
    state.lemma_position();
    assert(view.seat(0) == me) by {
        assert(me.turned(0) == me);
    }
    let mine = view.hand(me);
    assert(mine.in_play_only());
    lemma_candidate_held(view, vc);
    let c = card_of(state, vc);
    lemma_holds_bit(state.hand(me), c);
    assert(state.hand(me)@.contains(c));
    if let Some(l) = view.suit_to_follow {
        if mine.held(l) == 0 {
            assert forall|d: Card| #[trigger] state.hand(me)@.contains(d) implies d.suit != l by {
                lemma_holds_bit(state.hand(me), d);
                lemma_bit16_ops(0, 0, 0, d.denomination.rank() as u16);
                crate::card::lemma_denomination_rank_bijection(d.denomination, 0);
            }
        } else {
            lemma_listed_card_held(mine, l, vc);
        }
    }
}

/// A card the seat to play may play is listed by the move ordering, and its virtual card
/// stands for it.
pub proof fn lemma_legal_listed(state: VirtualState, view: PlayView, c: Card)
    requires
        state.wf(),
        state.tricks().left() >= 1,
        shows(view, state),
        state.position().legal(c),
    ensures
        candidate_cards(view).contains(virtual_of(state, c)),
        card_of(state, virtual_of(state, c)) == c,
{
    let me = state.tricks().next();
    state.lemma_position();
    assert(view.seat(0) == me) by {
        assert(me.turned(0) == me);
    }
    let mine = view.hand(me);
    assert(mine.in_play_only());
    assert(state.hand(me)@.contains(c));
    lemma_holds_bit(state.hand(me), c);
    lemma_held_card_listed(mine, c);
    let vc = virtual_of(state, c);
    lemma_listed_in_all(mine, vc);
    if let Some(l) = view.suit_to_follow {
        if mine.held(l) != 0 {
            assert(state.hand(me).within_ranks()) by {
                assert(state.game_state().wf());
            }
            lemma_some_card_held(state.hand(me), l);
            assert(state.position().holds_suit(l));
        }
    }
}

/// The virtual ranks are numbered 0 to 12, one each.
proof fn lemma_virtual_rank_numbers(v: VirtualRank, i: u8)
    ensures
        v.rank() < 13,
        VirtualRank::of_rank(v.rank()) == v,
        i < 13 ==> VirtualRank::of_rank(i).rank() == i,
{
}

/// The card a virtual card still in play stands for has that virtual rank as its virtual
/// position.
proof fn lemma_card_of_index(state: VirtualState, vc: VirtualCard)
    requires
        state.wf(),
        absolute_of(state.converter().out_of_play(vc.suit), vc.rank) is Some,
    ensures
        !bit16(
            state.converter().out_of_play(vc.suit),
            card_of(state, vc).denomination.rank() as u16,
        ),
        virtual_index(
            state.converter().out_of_play(vc.suit),
            card_of(state, vc).denomination.rank() as int,
        ) == vc.rank.rank(),
{
    let o = state.converter().out_of_play(vc.suit);
    let d = card_of(state, vc).denomination;
    lemma_virtual_absolute_roundtrip(o, vc.rank);
    lemma_suit_bits_within(state.played().subrange(0, 4 * state.tricks().completed()), vc.suit);
    crate::card::lemma_denomination_rank_bijection(d, 0);
    lemma_virtual_index_bound(o, d.rank() as int);
    let vi = virtual_index(o, d.rank() as int);
    lemma_virtual_rank_numbers(vc.rank, vi as u8);
}

/// Two touching cards the move ordering lists for the seat to play bring the same outcome:
/// every card of their suit ranking between them is out of play.
pub proof fn lemma_touching_candidates(
    state: VirtualState,
    view: PlayView,
    x: VirtualCard,
    y: VirtualCard,
)
    requires
        state.wf(),
        state.tricks().left() >= 1,
        shows(view, state),
        candidate_cards(view).contains(x),
        candidate_cards(view).contains(y),
        touches(x, y),
    ensures
        outcome(state.position(), card_of(state, x)) == outcome(state.position(), card_of(state, y)),
{
    let pos = state.position();
    let gs = state.game_state();
    assert(gs.wf());
    state.lemma_position();
    let me = state.tricks().next();
    assert(view.seat(0) == me) by {
        assert(me.turned(0) == me);
    }
    lemma_candidate_held(view, x);
    lemma_candidate_held(view, y);
    lemma_candidate_legal(state, view, x);
    lemma_candidate_legal(state, view, y);
    let a = card_of(state, x);
    let b = card_of(state, y);
    let s = x.suit;
    let o = state.converter().out_of_play(s);
    lemma_card_of_index(state, x);
    lemma_card_of_index(state, y);
    let ra = a.denomination.rank() as int;
    let rb = b.denomination.rank() as int;
    crate::card::lemma_denomination_rank_bijection(a.denomination, 0);
    crate::card::lemma_denomination_rank_bijection(b.denomination, 0);
    assert(a != b);
    let prefix = state.played().subrange(0, 4 * state.tricks().completed());
    assert(o == state.out_bits(s));
    // every card of the suit ranking between them lies in a finished trick
    assert forall|z: Card| between(z, a, b) implies exists|k: int|
        0 <= k < 4 * state.tricks().completed() && #[trigger] state.played()[k] == z by {
        let rz = z.denomination.rank() as int;
        crate::card::lemma_denomination_rank_bijection(z.denomination, 0);
        if !bit16(o, rz as u16) {
            if ra < rz {
                lemma_virtual_index_increases(o, ra, rz);
                lemma_virtual_index_increases(o, rz, rb);
            } else {
                lemma_virtual_index_increases(o, rb, rz);
                lemma_virtual_index_increases(o, rz, ra);
            }
        }
        lemma_suit_bits(prefix, s, rz as u16);
        let k = choose|k: int|
            0 <= k < prefix.len() && (#[trigger] prefix[k]).suit == s
                && prefix[k].denomination.rank() == rz as u16;
        crate::card::lemma_denomination_rank_bijection(prefix[k].denomination, 0);
        assert(prefix[k] == z);
        assert(state.played()[k] == z);
    }
    assert forall|p: PlayerPosition, z: Card| #[trigger] pos.hand(p).contains(z) implies !between(
        z,
        a,
        b,
    ) by {
        if between(z, a, b) {
            let k = choose|k: int|
                0 <= k < 4 * state.tricks().completed() && #[trigger] state.played()[k] == z;
            assert(!gs.hand(p)@.contains(gs.played()[k]));
        }
    }
    assert forall|k2: int|
        4 * pos.completed() <= k2 < pos.played.len() implies !between(#[trigger] pos.played[k2], a, b) by {
        let z = pos.played[k2];
        if between(z, a, b) {
            let k = choose|k: int|
                0 <= k < 4 * state.tricks().completed() && #[trigger] state.played()[k] == z;
            assert(gs.played()[k] != gs.played()[k2]);
        }
    }
    assert forall|p: PlayerPosition| p != pos.next() implies !(#[trigger] pos.hand(p)).contains(a)
        && !pos.hand(p).contains(b) by {
        assert(state.hand(me)@.contains(a) && state.hand(me)@.contains(b));
    }
    assert(!pos.played.contains(a)) by {
        if pos.played.contains(a) {
            let k = choose|k: int| 0 <= k < pos.played.len() && pos.played[k] == a;
            assert(!gs.hand(me)@.contains(gs.played()[k]));
        }
    }
    assert(!pos.played.contains(b)) by {
        if pos.played.contains(b) {
            let k = choose|k: int| 0 <= k < pos.played.len() && pos.played[k] == b;
            assert(!gs.hand(me)@.contains(gs.played()[k]));
        }
    }
    lemma_touching_cards_equal(pos, a, b);
}

/// Every card the seat to play may play brings the outcome of the card of one of the moves,
/// one per run of touching cards it may play.
pub proof fn lemma_moves_cover(state: VirtualState, view: PlayView)
    requires
        state.wf(),
        state.tricks().left() >= 1,
        shows(view, state),
    ensures
        forall|c: Card|
            #![trigger state.position().legal(c)]
            state.position().legal(c) ==> exists|k: int|
                0 <= k < sequences(candidate_cards(view)).len() && #[trigger] outcome(
                    state.position(),
                    card_of(state, sequences(candidate_cards(view))[k].card),
                ) == outcome(state.position(), c),
{
    let pos = state.position();
    let cards = candidate_cards(view);
    let seqs = sequences(cards);
    let f = |vc: VirtualCard| outcome(pos, card_of(state, vc));
    assert forall|x: VirtualCard, y: VirtualCard|
        #![trigger cards.contains(x), cards.contains(y)]
        cards.contains(x) && cards.contains(y) && touches(x, y) implies f(x) == f(y) by {
        lemma_touching_candidates(state, view, x, y);
    }
    lemma_sequences_cover(cards, f);
    assert forall|c: Card| #![trigger pos.legal(c)] pos.legal(c) implies exists|k: int|
        0 <= k < seqs.len() && #[trigger] outcome(pos, card_of(state, seqs[k].card)) == outcome(
            pos,
            c,
        ) by {
        lemma_legal_listed(state, view, c);
        let vc = virtual_of(state, c);
        let i = choose|i: int| 0 <= i < cards.len() && cards[i] == vc;
        assert(f(cards[i]) == outcome(pos, c));
        let k = choose|k: int| 0 <= k < seqs.len() && #[trigger] f(seqs[k].card) == f(cards[i]);
        assert(outcome(pos, card_of(state, seqs[k].card)) == outcome(pos, c));
    }
}

} // verus!
