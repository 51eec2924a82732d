//! The cards of one suit as a bit field: bit `i` stands for the denomination of rank `i`
//! (Two is bit 0, Ace is bit 12).
use crate::card::Denomination;
use crate::dds::bits::{bit16, lemma_bit16_ext, lemma_bit16_ops, lemma_single_bits16, low_mask16};
use vstd::prelude::*;

verus! {

/// The cards of one suit: bit `i` set when the denomination of rank `i` is present.
#[derive(Debug, Eq, PartialEq, Copy, Clone, Structural)]
pub struct SuitField(u16);

/// The bits of the thirteen denominations.
pub const ALL_RANKS: u16 = 0b0001_1111_1111_1111;

/// The number of set bits of `v` among its lowest `n`.
pub open spec fn ones(v: u16, n: int) -> nat
    decreases n,
{
    if n <= 0 {
        0
    } else {
        ones(v, n - 1) + if bit16(v, (n - 1) as u16) {
            1nat
        } else {
            0
        }
    }
}

/// The lowest set bit of `v` at or above `i`, or 16 if there is none.
pub open spec fn low_from(v: u16, i: int) -> int
    decreases 16 - i,
{
    if i < 0 || i >= 16 {
        16
    } else if bit16(v, i as u16) {
        i
    } else {
        low_from(v, i + 1)
    }
}

/// The highest set bit of `v` at or below `i`, or -1 if there is none.
pub open spec fn top_from(v: u16, i: int) -> int
    decreases i + 1,
{
    if i < 0 || i >= 16 {
        -1
    } else if bit16(v, i as u16) {
        i
    } else {
        top_from(v, i - 1)
    }
}

/// The lowest set bit of `v`, or 16 if `v` is 0.
pub open spec fn lowest_set(v: u16) -> int {
    low_from(v, 0)
}

/// The highest set bit of `v`, or -1 if `v` is 0.
pub open spec fn highest_set(v: u16) -> int {
    top_from(v, 15)
}

/// The denominations of the set bits of `v` from bit `i` up to bit 12, lowest first.
pub open spec fn ranks_from(v: u16, i: int) -> Seq<Denomination>
    decreases 13 - i,
{
    if i < 0 || i >= 13 {
        Seq::empty()
    } else if bit16(v, i as u16) {
        seq![Denomination::of_rank(i as u8)] + ranks_from(v, i + 1)
    } else {
        ranks_from(v, i + 1)
    }
}

/// `i` is the rank of a denomination whose bit is set in `v`.
pub open spec fn has_rank(v: u16, i: int) -> bool {
    0 <= i < 16 && bit16(v, i as u16)
}

/// A scan up from `i` finds the lowest set bit: no bit between `i` and it is set, and it is set.
pub proof fn lemma_low_from(v: u16, i: int)
    requires
        0 <= i <= 16,
    ensures
        i <= low_from(v, i) <= 16,
        low_from(v, i) < 16 ==> bit16(v, low_from(v, i) as u16),
        forall|j: int| i <= j < low_from(v, i) ==> !#[trigger] bit16(v, j as u16),
    decreases 16 - i,
{
    if i < 16 && !bit16(v, i as u16) {
        lemma_low_from(v, i + 1);
    }
}

/// A scan down from `i` finds the highest set bit: no bit between it and `i` is set, and it is set.
pub proof fn lemma_top_from(v: u16, i: int)
    requires
        -1 <= i < 16,
    ensures
        -1 <= top_from(v, i) <= i,
        top_from(v, i) >= 0 ==> bit16(v, top_from(v, i) as u16),
        forall|j: int| top_from(v, i) < j <= i ==> !#[trigger] bit16(v, j as u16),
    decreases i + 1,
{
    if i >= 0 && !bit16(v, i as u16) {
        lemma_top_from(v, i - 1);
    }
}

/// Clearing a set bit counts one bit fewer, once the count reaches past it.
pub proof fn lemma_ones_clear(v: u16, r: u16, n: int)
    requires
        r < 16,
        bit16(v, r),
        0 <= n <= 16,
    ensures
        ones(v & !(1u16 << r), n) + (if r < n {
            1nat
        } else {
            0
        }) == ones(v, n),
    decreases n,
{
    if n > 0 {
        lemma_ones_clear(v, r, n - 1);
        lemma_bit16_ops(v, !(1u16 << r), r, (n - 1) as u16);
        lemma_bit16_ops(1u16 << r, 0, r, (n - 1) as u16);
    }
}

/// Setting a clear bit counts one bit more, once the count reaches past it.
pub proof fn lemma_ones_set(v: u16, r: u16, n: int)
    requires
        r < 16,
        !bit16(v, r),
        0 <= n <= 16,
    ensures
        ones(v | (1u16 << r), n) == ones(v, n) + (if r < n {
            1nat
        } else {
            0
        }),
    decreases n,
{
    if n > 0 {
        lemma_ones_set(v, r, n - 1);
        lemma_bit16_ops(v, 1u16 << r, r, (n - 1) as u16);
    }
}

/// The bits of two words with no bit in common add up in their union.
pub proof fn lemma_ones_disjoint_union(a: u16, b: u16, n: int)
    requires
        a & b == 0,
        0 <= n <= 16,
    ensures
        ones(a | b, n) == ones(a, n) + ones(b, n),
    decreases n,
{
    if n > 0 {
        lemma_ones_disjoint_union(a, b, n - 1);
        lemma_bit16_ops(a, b, 0, (n - 1) as u16);
        lemma_bit16_ops(0, 0, 0, (n - 1) as u16);
    }
}

/// A word within the thirteen denominations has at most thirteen bits set.
pub proof fn lemma_ones_at_most_thirteen(v: u16, n: int)
    requires
        v <= ALL_RANKS,
        0 <= n <= 16,
    ensures
        ones(v, n) <= 13,
    decreases n,
{
    if n > 13 {
        lemma_ones_at_most_thirteen(v, n - 1);
        let i = (n - 1) as u16;
        assert(v <= 0x1fffu16 && 13 <= i && i < 16 ==> !bit16(v, i)) by (bit_vector);
    } else if n > 0 {
        lemma_ones_at_most_thirteen(v, n - 1);
        assert(ones(v, n - 1) <= n - 1) by {
            lemma_ones_below(v, n - 1);
        }
    }
}

/// No more bits are set among the lowest `n` than `n`.
pub proof fn lemma_ones_below(v: u16, n: int)
    requires
        0 <= n,
    ensures
        ones(v, n) <= n,
    decreases n,
{
    if n > 0 {
        lemma_ones_below(v, n - 1);
    }
}

/// A word with no bit set is 0.
pub proof fn lemma_no_bits_is_zero(v: u16)
    requires
        forall|i: u16| i < 16 ==> !bit16(v, i),
    ensures
        v == 0,
{
    assert forall|i: u16| i < 16 implies bit16(v, i) == bit16(0u16, i) by {
        lemma_bit16_ops(v, v, 0, i);
    }
    lemma_bit16_ext(v, 0u16);
}

impl SuitField {
    /// The bits of the field.
    pub closed spec fn bits(self) -> u16 {
        self.0
    }

    /// The ranks present in the field (any of the sixteen bits).
    pub open spec fn view(self) -> Set<int> {
        Set::new(|i: int| has_rank(self.bits(), i))
    }

    /// The empty field.
    pub fn empty() -> (f: Self)
        ensures
            f.bits() == 0,
            f@ == Set::<int>::empty(),
    {
        let f = Self(0u16);
        assert forall|i: int| !has_rank(f.bits(), i) by {
            if 0 <= i < 16 {
                lemma_bit16_ops(0, 0, 0, i as u16);
            }
        }
        assert(f@ =~= Set::<int>::empty());
        f
    }

    /// The field restricted to the bits of a mask.
    pub fn masked(&self, mask: u16) -> (f: Self)
        ensures
            f.bits() == self.bits() & mask,
            f@ == self@.intersect(Set::new(|i: int| has_rank(mask, i))),
    {
        let f = Self(self.0 & mask);
        assert forall|i: int| #[trigger] f@.contains(i) == self@.intersect(
            Set::new(|i: int| has_rank(mask, i)),
        ).contains(i) by {
            if 0 <= i < 16 {
                lemma_bit16_ops(self.0, mask, 0, i as u16);
            }
        }
        assert(f@ =~= self@.intersect(Set::new(|i: int| has_rank(mask, i))));
        f
    }

    /// The field with the given bits.
    pub fn from_u16(val: u16) -> (f: Self)
        ensures
            f.bits() == val,
    {
        Self(val)
    }

    /// The bits of the field.
    pub fn to_u16(&self) -> (v: u16)
        ensures
            v == self.bits(),
    {
        self.0
    }

    /// The cards out of play when every seat still holds `n` cards of the suit: the
    /// `13 - n` lowest denominations.
    pub fn for_n_cards_per_suit(n: usize) -> (f: Self)
        requires
            n <= 13,
        ensures
            f.bits() == low_mask16((13 - n) as u16),
            f@ == Set::new(|i: int| 0 <= i < 13 - n),
    {
        let shift = (13 - n) as u16;
        proof {
            lemma_bit16_ops(0, 0, shift, 0);
        }
        let mask = (1u16 << shift) - 1;
        let f = Self(mask);
        assert forall|i: int| 0 <= i < 16 implies has_rank(f.bits(), i) == (i < 13 - n) by {
            lemma_bit16_ops(0, 0, shift, i as u16);
        }
        assert(f@ =~= Set::new(|i: int| 0 <= i < 13 - n));
        f
    }

    /// Whether the field holds no card.
    pub fn is_void(&self) -> (b: bool)
        ensures
            b == (self.bits() == 0),
            b == (self@ == Set::<int>::empty()),
    {
        proof {
            if self@ == Set::<int>::empty() {
                assert forall|i: u16| i < 16 implies !bit16(self.0, i) by {
                    assert(!self@.contains(i as int));
                }
                lemma_no_bits_is_zero(self.0);
            }
            if self.0 == 0 {
                assert forall|i: int| !has_rank(self.0, i) by {
                    if 0 <= i < 16 {
                        lemma_bit16_ops(0, 0, 0, i as u16);
                    }
                }
                assert(self@ =~= Set::<int>::empty());
            }
        }
        self.0 == 0
    }

    /// The bit of a denomination.
    pub fn u16_from_rank(rank: Denomination) -> (v: u16)
        ensures
            v == 1u16 << rank.rank() as u16,
            forall|i: int| has_rank(v, i) <==> i == rank.rank(),
    {
        let r = rank.index() as u16;
        proof {
            assert forall|i: int| has_rank(1u16 << r, i) <==> i == r by {
                if 0 <= i < 16 {
                    lemma_bit16_ops(0, 0, r, i as u16);
                }
            }
        }
        1u16 << r
    }

    /// Adds a denomination to the field.
    pub fn add_rank(&mut self, rank: Denomination)
        ensures
            final(self).bits() == old(self).bits() | (1u16 << rank.rank() as u16),
            final(self)@ == old(self)@.insert(rank.rank() as int),
    {
        let bit = Self::u16_from_rank(rank);
        let old_bits = self.0;
        self.0 = self.0 | bit;
        assert forall|i: int| #[trigger] self@.contains(i) == Set::new(
            |i: int| has_rank(old_bits, i),
        ).insert(rank.rank() as int).contains(i) by {
            if 0 <= i < 16 {
                lemma_bit16_ops(old_bits, bit, rank.rank() as u16, i as u16);
            }
        }
        assert(self@ =~= Set::new(|i: int| has_rank(old_bits, i)).insert(rank.rank() as int));
    }

    /// Removes a denomination from the field.
    pub fn remove_rank(&mut self, rank: Denomination)
        ensures
            final(self).bits() == old(self).bits() & !(1u16 << rank.rank() as u16),
            final(self)@ == old(self)@.remove(rank.rank() as int),
    {
        let bit = Self::u16_from_rank(rank);
        let old_bits = self.0;
        self.0 = self.0 & !bit;
        assert forall|i: int| #[trigger] self@.contains(i) == Set::new(
            |i: int| has_rank(old_bits, i),
        ).remove(rank.rank() as int).contains(i) by {
            if 0 <= i < 16 {
                lemma_bit16_ops(old_bits, !bit, rank.rank() as u16, i as u16);
                lemma_bit16_ops(bit, bit, rank.rank() as u16, i as u16);
            }
        }
        assert(self@ =~= Set::new(|i: int| has_rank(old_bits, i)).remove(rank.rank() as int));
    }

    /// Whether the field holds the denomination.
    pub fn contains_rank(&self, rank: &Denomination) -> (b: bool)
        ensures
            b == self@.contains(rank.rank() as int),
    {
        let bit = Self::u16_from_rank(*rank);
        proof {
            lemma_bit16_ops(self.0, bit, rank.rank() as u16, rank.rank() as u16);
            if self.0 & bit != 0 {
                assert(bit16(self.0 & bit, rank.rank() as u16)) by {
                    assert forall|i: u16| i < 16 && i != rank.rank() implies !bit16(self.0 & bit, i) by {
                        lemma_bit16_ops(self.0, bit, rank.rank() as u16, i);
                    }
                    if !bit16(self.0 & bit, rank.rank() as u16) {
                        lemma_no_bits_is_zero(self.0 & bit);
                    }
                }
            } else {
                lemma_bit16_ops(0, 0, 0, rank.rank() as u16);
            }
        }
        self.0 & bit != 0
    }

    /// The number of cards in the field: its set bits.
    pub fn count_cards(&self) -> (n: usize)
        ensures
            n == ones(self.bits(), 16),
            n <= 16,
    {
        let mut n: usize = 0;
        let mut i: u16 = 0;
        while i < 16
            invariant
                0 <= i <= 16,
                n == ones(self.0, i as int),
                n <= i,
            decreases 16 - i,
        {
            if (self.0 >> i) & 1 == 1 {
                n = n + 1;
            }
            i = i + 1;
        }
        n
    }

    /// The denominations of the field, lowest first. The field must hold no bit above the Ace.
    pub fn all_contained_ranks(&self) -> (v: Vec<Denomination>)
        requires
            self.bits() <= ALL_RANKS,
        ensures
            v@ == ranks_from(self.bits(), 0),
    {
        let mut v: Vec<Denomination> = Vec::new();
        let mut i: u16 = 0;
        while i < 13
            invariant
                0 <= i <= 13,
                v@ + ranks_from(self.0, i as int) == ranks_from(self.0, 0),
            decreases 13 - i,
        {
            if (self.0 >> i) & 1 == 1 {
                v.push(Denomination::from_index(i as u8));
                assert(v@ + ranks_from(self.0, i + 1) =~= ranks_from(self.0, 0));
            }
            i = i + 1;
        }
        assert(v@ + ranks_from(self.0, 13) =~= v@);
        v
    }

    /// The union of two fields.
    pub fn union(&self, other: &Self) -> (f: Self)
        ensures
            f.bits() == self.bits() | other.bits(),
            f@ == self@.union(other@),
    {
        let f = Self(self.0 | other.0);
        assert forall|i: int| 0 <= i < 16 implies has_rank(f.bits(), i) == (has_rank(self.0, i)
            || has_rank(other.0, i)) by {
            lemma_bit16_ops(self.0, other.0, 0, i as u16);
        }
        assert(f@ =~= self@.union(other@));
        f
    }

    /// The denomination of a word with a single bit set among the thirteen of the
    /// denominations, or none for 0.
    pub fn u16_to_rank(input: u16) -> (r: Option<Denomination>)
        requires
            input == 0 || (lowest_set(input) < 13 && input == 1u16 << lowest_set(input) as u16),
        ensures
            r == (if input == 0 {
                None
            } else {
                Some(Denomination::of_rank(lowest_set(input) as u8))
            }),
    {
        proof {
            lemma_single_bits16();
            if input != 0 {
                lemma_low_from(input, 0);
                let p = lowest_set(input);
                assert(p == 0 || p == 1 || p == 2 || p == 3 || p == 4 || p == 5 || p == 6 || p == 7
                    || p == 8 || p == 9 || p == 10 || p == 11 || p == 12);
            }
        }
        match input {
            0b0000_0000_0000_0000 => None,
            0b0001_0000_0000_0000 => Some(Denomination::Ace),
            0b0000_1000_0000_0000 => Some(Denomination::King),
            0b0000_0100_0000_0000 => Some(Denomination::Queen),
            0b0000_0010_0000_0000 => Some(Denomination::Jack),
            0b0000_0001_0000_0000 => Some(Denomination::Ten),
            0b0000_0000_1000_0000 => Some(Denomination::Nine),
            0b0000_0000_0100_0000 => Some(Denomination::Eight),
            0b0000_0000_0010_0000 => Some(Denomination::Seven),
            0b0000_0000_0001_0000 => Some(Denomination::Six),
            0b0000_0000_0000_1000 => Some(Denomination::Five),
            0b0000_0000_0000_0100 => Some(Denomination::Four),
            0b0000_0000_0000_0010 => Some(Denomination::Three),
            _ => Some(Denomination::Two),
        }
    }

    /// The lowest set bit of `val` alone, or 0 for 0.
    pub fn lowest_bit(val: u16) -> (b: u16)
        ensures
            b == (if val == 0 {
                0
            } else {
                1u16 << lowest_set(val) as u16
            }),
            val != 0 ==> lowest_set(val) < 16,
    {
        let p = Self::lowest_position(val);
        if p >= 16 {
            proof {
                lemma_low_from(val, 0);
                assert forall|i: u16| i < 16 implies !bit16(val, i) by {
                    assert(!bit16(val, i as int as u16));
                }
                lemma_no_bits_is_zero(val);
            }
            0
        } else {
            proof {
                lemma_low_from(val, 0);
                if val == 0 {
                    lemma_bit16_ops(0, 0, 0, p);
                }
            }
            1u16 << p
        }
    }

    /// The position of the lowest set bit, or 16 if there is none.
    fn lowest_position(val: u16) -> (p: u16)
        ensures
            p == lowest_set(val),
            p <= 16,
    {
        proof {
            lemma_low_from(val, 0);
        }
        let mut i: u16 = 0;
        while i < 16 && (val >> i) & 1 != 1
            invariant
                0 <= i <= 16,
                low_from(val, i as int) == lowest_set(val),
            decreases 16 - i,
        {
            i = i + 1;
        }
        i
    }

    /// The position of the highest set bit, if any.
    fn highest_position(val: u16) -> (p: Option<u16>)
        ensures
            p == (if highest_set(val) >= 0 {
                Some(highest_set(val) as u16)
            } else {
                None
            }),
            -1 <= highest_set(val) < 16,
    {
        proof {
            lemma_top_from(val, 15);
        }
        let mut i: u16 = 16;
        while i > 0 && (val >> (i - 1)) & 1 != 1
            invariant
                0 <= i <= 16,
                top_from(val, i - 1) == highest_set(val),
            decreases i,
        {
            i = i - 1;
        }
        if i == 0 {
            None
        } else {
            Some(i - 1)
        }
    }

    /// The highest denomination of the field; none if the field is empty or its highest bit
    /// lies above the Ace.
    pub fn highest_rank(&self) -> (r: Option<Denomination>)
        ensures
            r == (if 0 <= highest_set(self.bits()) < 13 {
                Some(Denomination::of_rank(highest_set(self.bits()) as u8))
            } else {
                None
            }),
    {
        match Self::highest_position(self.0) {
            Some(p) => if p < 13 {
                Some(Denomination::from_index(p as u8))
            } else {
                None
            },
            None => None,
        }
    }

    /// The lowest denomination of the field, if any. The lowest bit must not lie above the Ace.
    pub fn lowest_rank(&self) -> (r: Option<Denomination>)
        requires
            lowest_set(self.bits()) < 13 || self.bits() == 0,
        ensures
            r == (if self.bits() == 0 {
                None
            } else {
                Some(Denomination::of_rank(lowest_set(self.bits()) as u8))
            }),
    {
        let b = Self::lowest_bit(self.0);
        proof {
            lemma_low_from(self.0, 0);
            if self.0 != 0 {
                lemma_single_bit_lowest(lowest_set(self.0) as u16);
            }
        }
        Self::u16_to_rank(b)
    }

    /// Removes the lowest denomination from the field and returns it, if any. The lowest bit
    /// must not lie above the Ace.
    pub fn take_lowest_rank(&mut self) -> (r: Option<Denomination>)
        requires
            lowest_set(old(self).bits()) < 13 || old(self).bits() == 0,
        ensures
            r == (if old(self).bits() == 0 {
                None
            } else {
                Some(Denomination::of_rank(lowest_set(old(self).bits()) as u8))
            }),
            final(self)@ == old(self)@.remove(lowest_set(old(self).bits())),
    {
        let lowest_bit = Self::lowest_bit(self.0);
        let ghost old_bits = self.0;
        proof {
            lemma_low_from(old_bits, 0);
            if old_bits != 0 {
                lemma_single_bit_lowest(lowest_set(old_bits) as u16);
            }
        }
        self.0 = self.0 & !lowest_bit;
        proof {
            let p = lowest_set(old_bits);
            assert forall|i: int| #[trigger] self@.contains(i) == Set::new(
                |i: int| has_rank(old_bits, i),
            ).remove(p).contains(i) by {
                if !(0 <= i < 16) {
                } else if old_bits != 0 {
                    lemma_bit16_ops(old_bits, !lowest_bit, p as u16, i as u16);
                    lemma_bit16_ops(lowest_bit, lowest_bit, p as u16, i as u16);
                } else {
                    lemma_bit16_ops(old_bits, !lowest_bit, 0, i as u16);
                    lemma_bit16_ops(0, 0, 0, i as u16);
                }
            }
            assert(self@ =~= Set::new(|i: int| has_rank(old_bits, i)).remove(p));
        }
        Self::u16_to_rank(lowest_bit)
    }

    /// Removes the highest set bit from the field and returns its denomination; none if the
    /// field is empty or that bit lies above the Ace (it is removed all the same).
    pub fn take_highest_rank(&mut self) -> (r: Option<Denomination>)
        ensures
            r == (if 0 <= highest_set(old(self).bits()) < 13 {
                Some(Denomination::of_rank(highest_set(old(self).bits()) as u8))
            } else {
                None
            }),
            final(self)@ == old(self)@.remove(highest_set(old(self).bits())),
    {
        let ghost old_bits = self.0;
        match Self::highest_position(self.0) {
            Some(p) => {
                self.0 = self.0 & !(1u16 << p);
                proof {
                    assert forall|i: int| 0 <= i < 16 implies has_rank(self.0, i) == (has_rank(
                        old_bits,
                        i,
                    ) && i != p) by {
                        lemma_bit16_ops(old_bits, !(1u16 << p), p, i as u16);
                        lemma_bit16_ops(1u16 << p, 0, p, i as u16);
                    }
                    assert(self@ =~= Set::new(|i: int| has_rank(old_bits, i)).remove(p as int));
                }
                if p < 13 {
                    Some(Denomination::from_index(p as u8))
                } else {
                    None
                }
            },
            None => {
                assert(self@ =~= Set::new(|i: int| has_rank(old_bits, i)).remove(-1));
                None
            },
        }
    }

    /// The denominations of the field from `least_win` up.
    pub fn win_ranks(&self, least_win: Denomination) -> (f: Self)
        ensures
            f.bits() == self.bits() & !low_mask16(least_win.rank() as u16),
            f@ == self@.filter(|i: int| i >= least_win.rank()),
    {
        proof {
            lemma_bit16_ops(0, 0, least_win.rank() as u16, 0);
        }
        let mask = Self::u16_from_rank(least_win) - 1;
        let f = self.masked(!mask);
        proof {
            let r = least_win.rank() as u16;
            assert forall|i: int| 0 <= i < 16 implies has_rank(f.bits(), i) == (has_rank(self.0, i)
                && i >= r) by {
                lemma_bit16_ops(self.0, !mask, r, i as u16);
                lemma_bit16_ops(mask, 0, r, i as u16);
            }
            assert(f@ =~= self@.filter(|i: int| i >= least_win.rank()));
        }
        f
    }

    /// All denominations below `rank`.
    pub fn all_lower_than(rank: Denomination) -> (f: Self)
        ensures
            f.bits() == low_mask16(rank.rank() as u16),
            f@ == Set::new(|i: int| 0 <= i < rank.rank()),
    {
        proof {
            lemma_bit16_ops(0, 0, rank.rank() as u16, 0);
        }
        let mask = Self::u16_from_rank(rank) - 1;
        let f = Self(mask);
        proof {
            let r = rank.rank() as u16;
            assert forall|i: int| 0 <= i < 16 implies has_rank(f.bits(), i) == (i < r) by {
                lemma_bit16_ops(0, 0, r, i as u16);
            }
            assert(f@ =~= Set::new(|i: int| 0 <= i < rank.rank()));
        }
        f
    }

    /// The denominations of the field up to and including `rank`.
    pub fn cards_lower_than(&self, rank: Denomination) -> (f: Self)
        ensures
            f@ == self@.filter(|i: int| i <= rank.rank()),
    {
        proof {
            lemma_single_bits16();
        }
        let mask = 2 * Self::u16_from_rank(rank) - 1;
        let f = self.masked(mask);
        proof {
            let r = rank.rank() as u16;
            lemma_double_bit_mask(r);
            assert forall|i: int| 0 <= i < 16 implies has_rank(f.bits(), i) == (has_rank(self.0, i)
                && i <= r) by {
                lemma_bit16_ops(self.0, mask, (r + 1) as u16, i as u16);
            }
            assert(f@ =~= self@.filter(|i: int| i <= rank.rank()));
        }
        f
    }

    /// All denominations above `rank`.
    pub fn all_higher_than(rank: Denomination) -> (f: Self)
        ensures
            f@ == Set::new(|i: int| rank.rank() < i < 13),
    {
        proof {
            lemma_single_bits16();
        }
        let mask = 2 * Self::u16_from_rank(rank) - 1;
        let mask = ALL_RANKS & !mask;
        let f = Self(mask);
        proof {
            let r = rank.rank() as u16;
            let low = low_mask16((r + 1) as u16);
            lemma_double_bit_mask(r);
            assert forall|i: int| 0 <= i < 16 implies has_rank(f.bits(), i) == (r < i < 13) by {
                lemma_bit16_ops(ALL_RANKS, !low, (r + 1) as u16, i as u16);
                lemma_bit16_ops(low, 0, (r + 1) as u16, i as u16);
            }
            assert(f@ =~= Set::new(|i: int| rank.rank() < i < 13));
        }
        f
    }

    /// The denominations of the field above `rank`.
    pub fn cards_higher_than(&self, rank: Denomination) -> (f: Self)
        ensures
            f@ == self@.filter(|i: int| rank.rank() < i < 13),
    {
        let higher = Self::all_higher_than(rank);
        let f = self.masked(higher.0);
        assert(f@ =~= self@.filter(|i: int| rank.rank() < i < 13));
        f
    }

    /// A 26-bit mask whose top bits, one per card of the field, are set.
    pub fn win_rank_mask(&self) -> (m: u32)
        ensures
            m == 0x03ff_ffffu32 ^ (0x03ff_ffffu32 >> ones(self.bits(), 16) as u32),
    {
        // the 26 bits of thirteen two-bit slots
        let all_set: u32 = 0x03ff_ffff;
        let n = self.count_cards() as u32;
        all_set ^ (all_set >> n)
    }

    /// Whether the field's bits, read as a number, exceed the other's: for fields that share
    /// no card, whether the highest card of the two is in this one.
    pub fn has_higher_ranks_than_other(&self, other: &Self) -> (b: bool)
        ensures
            b == (self.bits() > other.bits()),
    {
        self.0 > other.0
    }

    /// An iterator over the denominations of the field that leaves the field as it is.
    pub fn iter(&self) -> (it: SuitFieldIterator)
        ensures
            it.field() == *self,
            it.taken() == 0,
    {
        SuitFieldIterator { suit_field: *self, mask: 0 }
    }

    /// An iterator that takes the denominations out of a copy of the field.
    pub fn into_iter(self) -> (it: SuitFieldIntoIterator)
        ensures
            it.remaining() == self,
    {
        SuitFieldIntoIterator { suit_field: self }
    }
}

/// Fields with the same bits are equal.
pub proof fn lemma_field_ext(a: SuitField, b: SuitField)
    requires
        a.bits() == b.bits(),
    ensures
        a == b,
{
}

/// Doubling a single bit below the Ace and subtracting one sets the bits up to it.
proof fn lemma_double_bit_mask(r: u16)
    requires
        r < 13,
    ensures
        2 * (1u16 << r) - 1 == low_mask16((r + 1) as u16),
        2 * (1u16 << r) - 1 <= 0xffff,
        2 * (1u16 << r) >= 1,
{
    lemma_single_bits16();
    assert(1u16 << 13u16 == 8192) by (bit_vector);
}

/// The word with only bit `p` set has `p` as its lowest set bit.
proof fn lemma_single_bit_lowest(p: u16)
    requires
        p < 16,
    ensures
        lowest_set(1u16 << p) == p,
        1u16 << p != 0,
{
    let v = 1u16 << p;
    assert forall|i: u16| i < 16 implies bit16(v, i) == (i == p) by {
        lemma_bit16_ops(0, 0, p, i);
    }
    lemma_low_from_finds(v, 0, p as int);
    assert(bit16(v, p));
    if v == 0 {
        lemma_bit16_ops(0, 0, 0, p);
    }
}

proof fn lemma_low_from_finds(v: u16, i: int, p: int)
    requires
        0 <= i <= p < 16,
        bit16(v, p as u16),
        forall|j: int| i <= j < p ==> !#[trigger] bit16(v, j as u16),
    ensures
        low_from(v, i) == p,
    decreases p - i,
{
    if i < p {
        lemma_low_from_finds(v, i + 1, p);
    }
}

/// Walks the denominations of a field from both ends without changing the field.
pub struct SuitFieldIterator {
    suit_field: SuitField,
    mask: u16,
}

impl SuitFieldIterator {
    /// The field walked over.
    pub closed spec fn field(self) -> SuitField {
        self.suit_field
    }

    /// The bits already handed out.
    pub closed spec fn taken(self) -> u16 {
        self.mask
    }

    /// The bits not yet handed out.
    pub open spec fn left(self) -> u16 {
        self.field().bits() & !self.taken()
    }

    /// The lowest denomination not yet handed out, if any. That bit must not lie above the Ace.
    pub fn next(&mut self) -> (r: Option<Denomination>)
        requires
            old(self).left() == 0 || lowest_set(old(self).left()) < 13,
        ensures
            final(self).field() == old(self).field(),
            r == (if old(self).left() == 0 {
                None
            } else {
                Some(Denomination::of_rank(lowest_set(old(self).left()) as u8))
            }),
            final(self).taken() == (if old(self).left() == 0 {
                old(self).taken()
            } else {
                old(self).taken() | (1u16 << lowest_set(old(self).left()) as u16)
            }),
    {
        let masked = self.suit_field.masked(!self.mask);
        let lowest_bit = SuitField::lowest_bit(masked.0);
        self.mask = self.mask | lowest_bit;
        proof {
            lemma_low_from(masked.0, 0);
            lemma_bit16_ops(old(self).mask, 0, 0, 0);
            if masked.0 != 0 {
                lemma_single_bit_lowest(lowest_set(masked.0) as u16);
            }
        }
        SuitField::u16_to_rank(lowest_bit)
    }

    /// The highest denomination not yet handed out; none if all are handed out or that bit
    /// lies above the Ace (it counts as handed out all the same).
    pub fn next_back(&mut self) -> (r: Option<Denomination>)
        ensures
            final(self).field() == old(self).field(),
            r == (if 0 <= highest_set(old(self).left()) < 13 {
                Some(Denomination::of_rank(highest_set(old(self).left()) as u8))
            } else {
                None
            }),
            final(self).taken() == (if highest_set(old(self).left()) >= 0 {
                old(self).taken() | (1u16 << highest_set(old(self).left()) as u16)
            } else {
                old(self).taken()
            }),
    {
        let masked = self.suit_field.masked(!self.mask);
        match SuitField::highest_position(masked.0) {
            Some(p) => {
                let highest_bit = 1u16 << p;
                self.mask = self.mask | highest_bit;
                if p < 13 {
                    Some(Denomination::from_index(p as u8))
                } else {
                    None
                }
            },
            None => None,
        }
    }
}

/// Takes the denominations out of a field, from either end.
pub struct SuitFieldIntoIterator {
    suit_field: SuitField,
}

impl SuitFieldIntoIterator {
    /// The denominations not yet taken out.
    pub closed spec fn remaining(self) -> SuitField {
        self.suit_field
    }

    /// Takes out the lowest denomination, if any. That bit must not lie above the Ace.
    pub fn next(&mut self) -> (r: Option<Denomination>)
        requires
            lowest_set(old(self).remaining().bits()) < 13 || old(self).remaining().bits() == 0,
        ensures
            r == (if old(self).remaining().bits() == 0 {
                None
            } else {
                Some(Denomination::of_rank(lowest_set(old(self).remaining().bits()) as u8))
            }),
            final(self).remaining()@ == old(self).remaining()@.remove(
                lowest_set(old(self).remaining().bits()),
            ),
    {
        self.suit_field.take_lowest_rank()
    }

    /// Takes out the highest set bit and returns its denomination, if it is one.
    pub fn next_back(&mut self) -> (r: Option<Denomination>)
        ensures
            r == (if 0 <= highest_set(old(self).remaining().bits()) < 13 {
                Some(Denomination::of_rank(highest_set(old(self).remaining().bits()) as u8))
            } else {
                None
            }),
            final(self).remaining()@ == old(self).remaining()@.remove(
                highest_set(old(self).remaining().bits()),
            ),
    {
        self.suit_field.take_highest_rank()
    }
}

} // verus!
