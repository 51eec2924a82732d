//! Facts about single bits of 16- and 32-bit words.
use vstd::prelude::*;

verus! {

/// Bit `i` of `v` is set.
pub open spec fn bit16(v: u16, i: u16) -> bool {
    (v >> i) & 1u16 == 1u16
}

/// The word with the bits below `r` set.
pub open spec fn low_mask16(r: u16) -> u16 {
    ((1u16 << r) - 1) as u16
}

/// How single bits behave under the bitwise operators and the masks built from shifts.
pub proof fn lemma_bit16_ops(v: u16, w: u16, r: u16, i: u16)
    by (bit_vector)
    requires
        r < 16,
        i < 16,
    ensures
        bit16(v | w, i) == (bit16(v, i) || bit16(w, i)),
        bit16(v & w, i) == (bit16(v, i) && bit16(w, i)),
        bit16(!v, i) == !bit16(v, i),
        bit16(v ^ w, i) == (bit16(v, i) != bit16(w, i)),
        bit16(1u16 << r, i) == (i == r),
        bit16(low_mask16(r), i) == (i < r),
        !bit16(0u16, i),
        bit16(0xffffu16, i),
        bit16(0x1fffu16, i) == (i < 13),
        (1u16 << r) >= 1u16,
        v | 0u16 == v,
{
}

/// Words with the same sixteen bits are equal.
pub proof fn lemma_bit16_ext(v: u16, w: u16)
    requires
        forall|i: u16| i < 16 ==> bit16(v, i) == bit16(w, i),
    ensures
        v == w,
{
    assert(bit16(v, 0) == bit16(w, 0));
    assert(bit16(v, 1) == bit16(w, 1));
    assert(bit16(v, 2) == bit16(w, 2));
    assert(bit16(v, 3) == bit16(w, 3));
    assert(bit16(v, 4) == bit16(w, 4));
    assert(bit16(v, 5) == bit16(w, 5));
    assert(bit16(v, 6) == bit16(w, 6));
    assert(bit16(v, 7) == bit16(w, 7));
    assert(bit16(v, 8) == bit16(w, 8));
    assert(bit16(v, 9) == bit16(w, 9));
    assert(bit16(v, 10) == bit16(w, 10));
    assert(bit16(v, 11) == bit16(w, 11));
    assert(bit16(v, 12) == bit16(w, 12));
    assert(bit16(v, 13) == bit16(w, 13));
    assert(bit16(v, 14) == bit16(w, 14));
    assert(bit16(v, 15) == bit16(w, 15));
    lemma_bit16_ext_explicit(v, w);
}

proof fn lemma_bit16_ext_explicit(v: u16, w: u16)
    by (bit_vector)
    requires
        bit16(v, 0) == bit16(w, 0),
        bit16(v, 1) == bit16(w, 1),
        bit16(v, 2) == bit16(w, 2),
        bit16(v, 3) == bit16(w, 3),
        bit16(v, 4) == bit16(w, 4),
        bit16(v, 5) == bit16(w, 5),
        bit16(v, 6) == bit16(w, 6),
        bit16(v, 7) == bit16(w, 7),
        bit16(v, 8) == bit16(w, 8),
        bit16(v, 9) == bit16(w, 9),
        bit16(v, 10) == bit16(w, 10),
        bit16(v, 11) == bit16(w, 11),
        bit16(v, 12) == bit16(w, 12),
        bit16(v, 13) == bit16(w, 13),
        bit16(v, 14) == bit16(w, 14),
        bit16(v, 15) == bit16(w, 15),
    ensures
        v == w,
{
}

/// The values of the single-bit words below 2^13.
pub proof fn lemma_single_bits16()
    by (bit_vector)
    ensures
        1u16 << 0u16 == 1,
        1u16 << 1u16 == 2,
        1u16 << 2u16 == 4,
        1u16 << 3u16 == 8,
        1u16 << 4u16 == 16,
        1u16 << 5u16 == 32,
        1u16 << 6u16 == 64,
        1u16 << 7u16 == 128,
        1u16 << 8u16 == 256,
        1u16 << 9u16 == 512,
        1u16 << 10u16 == 1024,
        1u16 << 11u16 == 2048,
        1u16 << 12u16 == 4096,
{
}

} // verus!
