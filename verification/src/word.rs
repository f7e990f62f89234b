//! Bit-level facts about a single 32-bit word.

use vstd::prelude::*;

verus! {

/// Number of bits in one storage word.
pub const WORD_BITS: usize = 32;

/// Whether bit `k` of `w` is set; meaningful for `k < 32`.
pub open spec fn word_bit(w: u32, k: u32) -> bool {
    (w >> k) & 1 == 1
}

/// The word whose bits below `k` are set and whose other bits are clear.
pub open spec fn low_mask(k: u32) -> u32 {
    if k >= 32 {
        0xffff_ffffu32
    } else {
        !(0xffff_ffffu32 << k)
    }
}

/// The word all of whose bits are `b`.
pub open spec fn fill_word(b: bool) -> u32 {
    if b {
        0xffff_ffffu32
    } else {
        0u32
    }
}

/// Every bit of the fill word of `b` is `b`.
pub proof fn lemma_fill_word_bits(b: bool, k: u32)
    requires
        k < 32,
    ensures
        word_bit(fill_word(b), k) == b,
{
    assert(((0u32 >> k) & 1) != 1) by (bit_vector);
    assert(k < 32 ==> ((0xffff_ffffu32 >> k) & 1) == 1) by (bit_vector);
}

/// The OR of two fill words is the fill word of the OR.
pub proof fn lemma_fill_word_or(x: bool, y: bool)
    ensures
        fill_word(x) | fill_word(y) == fill_word(x || y),
{
    assert(0u32 | 0u32 == 0u32) by (bit_vector);
    assert(0u32 | 0xffff_ffffu32 == 0xffff_ffffu32) by (bit_vector);
    assert(0xffff_ffffu32 | 0u32 == 0xffff_ffffu32) by (bit_vector);
    assert(0xffff_ffffu32 | 0xffff_ffffu32 == 0xffff_ffffu32) by (bit_vector);
}

/// A bit of `a | b` is set exactly when it is set in `a` or in `b`.
pub proof fn lemma_or_bit(a: u32, b: u32, k: u32)
    requires
        k < 32,
    ensures
        word_bit(a | b, k) == (word_bit(a, k) || word_bit(b, k)),
{
    assert((((a | b) >> k) & 1) == 1 <==> (((a >> k) & 1) == 1 || ((b >> k) & 1) == 1))
        by (bit_vector);
}

/// Two words that agree on every bit below `k` agree under the low mask of
/// width `k`.
pub proof fn lemma_agree_below(a: u32, b: u32, k: u32)
    requires
        k <= 32,
        forall|j: u32| j < k ==> word_bit(a, j) == word_bit(b, j),
    ensures
        a & low_mask(k) == b & low_mask(k),
    decreases k,
{
    if k == 0 {
        assert(a & !(0xffff_ffffu32 << 0u32) == b & !(0xffff_ffffu32 << 0u32)) by (bit_vector);
    } else {
        let j: u32 = (k - 1) as u32;
        lemma_agree_below(a, b, j);
        assert(word_bit(a, j) == word_bit(b, j));
        let m = low_mask(j);
        let n = low_mask(k);
        assert(n == (if j >= 31 { 0xffff_ffffu32 } else { !(0xffff_ffffu32 << ((j + 1) as u32)) }));
        assert(a & n == b & n) by (bit_vector)
            requires
                j < 32,
                m == !(0xffff_ffffu32 << j),
                n == (if j >= 31 { 0xffff_ffffu32 } else { !(0xffff_ffffu32 << ((j + 1) as u32)) }),
                a & m == b & m,
                (((a >> j) & 1) == 1) == (((b >> j) & 1) == 1),
        ;
    }
}

/// Words are determined by their bits: two different words differ at some
/// bit position.
pub proof fn lemma_word_extensional(a: u32, b: u32)
    ensures
        a != b <==> exists|k: u32| k < 32 && word_bit(a, k) != word_bit(b, k),
{
    if forall|k: u32| k < 32 ==> word_bit(a, k) == word_bit(b, k) {
        lemma_agree_below(a, b, 32);
        assert(a & 0xffff_ffffu32 == a) by (bit_vector);
        assert(b & 0xffff_ffffu32 == b) by (bit_vector);
    }
}

} // verus!
