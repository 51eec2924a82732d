//! Picking the thirteen cards of a hand one by one, then building the hand from them.
use crate::card::Card;
use crate::hand::Hand;
use vstd::prelude::*;

verus! {

/// `s` is in strictly descending card order (so it holds no card twice).
pub open spec fn strictly_descending(s: Seq<Card>) -> bool {
    forall|i: int, j: int| 0 <= i < j < s.len() ==> #[trigger] s[i].order() > #[trigger] s[j].order()
}

/// The cards picked after `card` is switched: taken out if it was picked, else added.
pub open spec fn switched(picked: Set<Card>, card: Card) -> Set<Card> {
    if picked.contains(card) {
        picked.remove(card)
    } else {
        picked.insert(card)
    }
}

/// What can happen to the selection: a card is switched in or out, or the hand is built.
pub enum Msg {
    Switch(Card),
    CreateHand,
}

/// The cards picked so far, highest first; whether they make a hand (thirteen cards); and the
/// hand once built.
pub struct App {
    card_vec: Vec<Card>,
    hand_is_valid: bool,
    hand: Option<Hand>,
}

/// Two cards with the same position in the order of the 52 cards are the same card.
proof fn lemma_order_injective(a: Card, b: Card)
    requires
        a.order() == b.order(),
    ensures
        a == b,
{
    crate::card::lemma_card_order_injective(a, b);
}

impl App {
    /// The cards picked, highest first.
    pub closed spec fn picked(self) -> Seq<Card> {
        self.card_vec@
    }

    /// Whether the cards picked make a hand.
    pub closed spec fn valid(self) -> bool {
        self.hand_is_valid
    }

    /// The hand built, if any.
    pub closed spec fn built(self) -> Option<Hand> {
        self.hand
    }

    /// The cards are in descending order, and they make a hand exactly when there are thirteen.
    pub open spec fn wf(self) -> bool {
        &&& strictly_descending(self.picked())
        &&& self.valid() == (self.picked().len() == 13)
    }

    /// No card picked, no hand.
    pub fn create() -> (app: Self)
        ensures
            app.wf(),
            app.picked() == Seq::<Card>::empty(),
            app.built() is None,
    {
        Self { card_vec: Vec::new(), hand_is_valid: false, hand: None }
    }

    /// The position of a card among those picked, if it is picked.
    fn position_of(&self, card: &Card) -> (r: Option<usize>)
        ensures
            match r {
                Some(i) => i < self.picked().len() && self.picked()[i as int] == *card,
                None => !self.picked().contains(*card),
            },
    {
        let mut i: usize = 0;
        while i < self.card_vec.len()
            invariant
                0 <= i <= self.card_vec@.len(),
                forall|j: int| 0 <= j < i ==> self.card_vec@[j] != *card,
            decreases self.card_vec@.len() - i,
        {
            if self.card_vec[i] == *card {
                return Some(i);
            }
            i = i + 1;
        }
        None
    }

    /// Where a card not picked goes to keep the cards in descending order.
    fn insertion_point(&self, card: &Card) -> (i: usize)
        requires
            strictly_descending(self.picked()),
        ensures
            i <= self.picked().len(),
            forall|j: int| 0 <= j < i ==> #[trigger] self.picked()[j].order() > card.order(),
            forall|j: int| i <= j < self.picked().len() ==> #[trigger] self.picked()[j].order()
                <= card.order(),
    {
        let key = card.index();
        let mut i: usize = 0;
        while i < self.card_vec.len() && self.card_vec[i].index() > key
            invariant
                0 <= i <= self.card_vec@.len(),
                key == card.order(),
                strictly_descending(self.card_vec@),
                forall|j: int| 0 <= j < i ==> #[trigger] self.card_vec@[j].order() > card.order(),
            decreases self.card_vec@.len() - i,
        {
            i = i + 1;
        }
        proof {
            assert forall|j: int| i <= j < self.card_vec@.len() implies #[trigger] self.card_vec@[j].order()
                <= card.order() by {
                if j > i {
                    assert(self.card_vec@[i as int].order() > self.card_vec@[j].order());
                }
            }
        }
        i
    }

    /// Takes out the card at a position, keeping the others in order.
    #[verifier::spinoff_prover]
    fn take_out(&mut self, index: usize)
        requires
            strictly_descending(old(self).picked()),
            index < old(self).picked().len(),
        ensures
            strictly_descending(final(self).picked()),
            final(self).picked().to_set() == old(self).picked().to_set().remove(
                old(self).picked()[index as int],
            ),
            final(self).built() == old(self).built(),
    {
        let ghost before = self.card_vec@;
        let ghost card = before[index as int];
        self.card_vec.remove(index);
        proof {
            assert forall|i: int, j: int|
                0 <= i < j < self.card_vec@.len() implies #[trigger] self.card_vec@[i].order()
                > #[trigger] self.card_vec@[j].order() by {
                let bi = if i < index { i } else { i + 1 };
                let bj = if j < index { j } else { j + 1 };
                assert(self.card_vec@[i] == before[bi]);
                assert(self.card_vec@[j] == before[bj]);
            }
            assert forall|c: Card| #[trigger] self.card_vec@.contains(c) == (
            before.contains(c) && c != card) by {
                if self.card_vec@.contains(c) {
                    let k = choose|k: int| 0 <= k < self.card_vec@.len() && self.card_vec@[k] == c;
                    let bk = if k < index { k } else { k + 1 };
                    assert(before[bk] == c);
                    if c == card {
                        assert(before[index as int] == card);
                        assert(bk != index);
                        if bk < index {
                            assert(before[bk].order() > before[index as int].order());
                        } else {
                            assert(before[index as int].order() > before[bk].order());
                        }
                    }
                }
                if before.contains(c) && c != card {
                    let k = choose|k: int| 0 <= k < before.len() && before[k] == c;
                    assert(k != index);
                    if k < index {
                        assert(self.card_vec@[k] == c);
                    } else {
                        assert(self.card_vec@[k - 1] == c);
                    }
                }
            }
            assert(self.card_vec@.to_set() =~= before.to_set().remove(card));
        }
    }

    /// Puts in a card not picked, where it keeps the cards in descending order.
    #[verifier::spinoff_prover]
    fn put_in(&mut self, card: Card)
        requires
            strictly_descending(old(self).picked()),
            !old(self).picked().contains(card),
        ensures
            strictly_descending(final(self).picked()),
            final(self).picked().to_set() == old(self).picked().to_set().insert(card),
            final(self).built() == old(self).built(),
    {
        let ghost before = self.card_vec@;
        let at = self.insertion_point(&card);
        self.card_vec.insert(at, card);
        proof {
            assert forall|i: int, j: int|
                0 <= i < j < self.card_vec@.len() implies #[trigger] self.card_vec@[i].order()
                > #[trigger] self.card_vec@[j].order() by {
                if j == at {
                    assert(before[i].order() > card.order());
                } else if i == at {
                    assert(before[j - 1].order() <= card.order());
                    if before[j - 1].order() == card.order() {
                        lemma_order_injective(before[j - 1], card);
                        assert(before.contains(before[j - 1]));
                    }
                } else {
                    let bi = if i < at { i } else { i - 1 };
                    let bj = if j < at { j } else { j - 1 };
                    assert(self.card_vec@[i] == before[bi]);
                    assert(self.card_vec@[j] == before[bj]);
                }
            }
            assert forall|c: Card| #[trigger] self.card_vec@.contains(c) == (
            before.contains(c) || c == card) by {
                if self.card_vec@.contains(c) {
                    let k = choose|k: int| 0 <= k < self.card_vec@.len() && self.card_vec@[k] == c;
                    if k < at {
                        assert(before[k] == c);
                    } else if k > at {
                        assert(before[k - 1] == c);
                    }
                }
                if before.contains(c) {
                    let k = choose|k: int| 0 <= k < before.len() && before[k] == c;
                    if k < at {
                        assert(self.card_vec@[k] == c);
                    } else {
                        assert(self.card_vec@[k + 1] == c);
                    }
                }
                if c == card {
                    assert(self.card_vec@[at as int] == card);
                }
            }
            assert(self.card_vec@.to_set() =~= before.to_set().insert(card));
        }
    }

    /// Handles a message: a switched card is taken out of the cards picked, or added to them,
    /// keeping them in descending order; building the hand needs thirteen cards picked. Asks
    /// for the display to be redrawn.
    pub fn update(&mut self, msg: Msg) -> (redraw: bool)
        requires
            old(self).wf(),
            msg is CreateHand ==> old(self).picked().len() == 13,
        ensures
            final(self).wf(),
            redraw,
            match msg {
                Msg::Switch(card) => {
                    &&& final(self).picked().to_set() == switched(old(self).picked().to_set(), card)
                    &&& final(self).built() == old(self).built()
                },
                Msg::CreateHand => {
                    &&& final(self).picked() == old(self).picked()
                    &&& final(self).built() matches Some(h) && h@.to_set() == old(
                        self,
                    ).picked().to_set()
                },
            },
    {
        match msg {
            Msg::Switch(card) => {
                match self.position_of(&card) {
                    Some(index) => {
                        self.take_out(index);
                    },
                    None => {
                        self.put_in(card);
                    },
                }
                self.hand_is_valid = self.card_vec.len() == 13;
                true
            },
            Msg::CreateHand => {
                let v = &self.card_vec;
                let cards: [Card; 13] = [
                    v[0],
                    v[1],
                    v[2],
                    v[3],
                    v[4],
                    v[5],
                    v[6],
                    v[7],
                    v[8],
                    v[9],
                    v[10],
                    v[11],
                    v[12],
                ];
                proof {
                    assert(cards@ =~= self.card_vec@);
                    assert forall|i: int, j: int| 0 <= i < j < 13 implies #[trigger] cards@[i]
                        != #[trigger] cards@[j] by {
                        assert(cards@[i].order() > cards@[j].order());
                    }
                }
                self.hand = Some(Hand::new(cards));
                true
            },
        }
    }

    /// The cards picked, highest first.
    pub fn card_vec(&self) -> (v: &Vec<Card>)
        ensures
            v@ == self.picked(),
    {
        &self.card_vec
    }

    /// Whether the cards picked make a hand.
    pub fn hand_is_valid(&self) -> (b: bool)
        ensures
            b == self.valid(),
    {
        self.hand_is_valid
    }

    /// The hand built, if any.
    pub fn hand(&self) -> (h: Option<Hand>)
        ensures
            h == self.built(),
    {
        self.hand
    }
}

} // verus!
