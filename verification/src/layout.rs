//! How a run of bits is laid out over packed words: sizes, the bit at a
//! position, and what it means for the padding of the last lane to repeat
//! the last bit.

use vstd::prelude::*;
use crate::bits::{filled, or_bits};
use crate::lane::Lane;
use crate::word::{
    fill_word, lemma_fill_word_bits, lemma_or_bit, lemma_word_extensional, word_bit, WORD_BITS,
};

verus! {

/// Number of bits in one lane.
pub const LANE_BITS: usize = 128;

/// Lanes needed for `n` bits: `n / 128`, rounded up.
pub open spec fn lanes_for(n: nat) -> nat {
    (n + 127) / 128
}

/// Words that hold at least one of `n` bits: `n / 32`, rounded up.
pub open spec fn words_for(n: nat) -> nat {
    (n + 31) / 32
}

/// The bit at position `i` of a run of packed words.
pub open spec fn bit_at(words: Seq<u32>, i: int) -> bool {
    word_bit(words[i / 32], (i % 32) as u32)
}

/// The first `n` bits of a run of packed words.
pub open spec fn bits_of(words: Seq<u32>, n: nat) -> Seq<bool> {
    Seq::new(n, |i: int| bit_at(words, i))
}

/// Every bit from position `n` up to, not including, position `end` repeats
/// the bit at position `n - 1`.
pub open spec fn repeats_last(words: Seq<u32>, n: nat, end: nat) -> bool {
    forall|i: int| n <= i < end ==> #[trigger] bit_at(words, i) == bit_at(words, n - 1)
}

/// Every stored bit at or beyond position `n` repeats the bit at `n - 1`,
/// and where there are no bits nothing is stored.
pub open spec fn padding_follows(words: Seq<u32>, n: nat) -> bool {
    &&& n <= 32 * words.len()
    &&& n == 0 ==> words.len() == 0
    &&& repeats_last(words, n, 32 * words.len())
}

/// Lane `k` of a run of packed words.
pub open spec fn lane_at(words: Seq<u32>, k: int) -> Lane {
    Lane { w0: words[4 * k], w1: words[4 * k + 1], w2: words[4 * k + 2], w3: words[4 * k + 3] }
}

/// Word-wise OR of two runs of packed words, over the words of the first.
pub open spec fn or_words(a: Seq<u32>, b: Seq<u32>) -> Seq<u32> {
    Seq::new(a.len(), |j: int| a[j] | b[j])
}

/// Number of lanes that hold `n` bits.
pub fn elems(n: usize) -> (r: usize)
    ensures
        r == lanes_for(n as nat),
        4 * r <= usize::MAX,
{
    let whole: usize = n / LANE_BITS;
    if n % LANE_BITS == 0 {
        whole
    } else {
        whole + 1
    }
}

/// Number of words that hold `n` bits.
pub fn elems_u32(n: usize) -> (r: usize)
    ensures
        r == words_for(n as nat),
        r <= 4 * lanes_for(n as nat),
{
    let whole: usize = n / WORD_BITS;
    if n % WORD_BITS == 0 {
        whole
    } else {
        whole + 1
    }
}

/// Reads lane `k` out of a run of packed words.
pub fn load(words: &Vec<u32>, k: usize) -> (r: Lane)
    requires
        4 * k + 3 < words.len(),
    ensures
        r == lane_at(words@, k as int),
{
    Lane { w0: words[4 * k], w1: words[4 * k + 1], w2: words[4 * k + 2], w3: words[4 * k + 3] }
}

/// Writes `lane` over lane `k` of a run of packed words and leaves every
/// other word as it was.
pub fn store(words: &mut Vec<u32>, k: usize, lane: Lane)
    requires
        4 * k + 3 < old(words).len(),
    ensures
        final(words)@.len() == old(words)@.len(),
        lane_at(final(words)@, k as int) == lane,
        forall|j: int|
            0 <= j < old(words)@.len() && !(4 * k <= j < 4 * k + 4)
                ==> final(words)@[j] == old(words)@[j],
{
    words.set(4 * k, lane.w0);
    words.set(4 * k + 1, lane.w1);
    words.set(4 * k + 2, lane.w2);
    words.set(4 * k + 3, lane.w3);
}

/// Position `i` lies in word `i / 32`, at bit `i % 32` of it.
pub proof fn lemma_position(j: int, k: int)
    requires
        0 <= j,
        0 <= k < 32,
    ensures
        (32 * j + k) / 32 == j,
        (32 * j + k) % 32 == k,
{
}

/// Two runs of words whose padding repeats the last bit are equal exactly
/// when their first `n` bits are.
pub proof fn lemma_words_differ_iff_bits_differ(a: Seq<u32>, b: Seq<u32>, n: nat)
    requires
        a.len() == b.len(),
        padding_follows(a, n),
        padding_follows(b, n),
    ensures
        a != b <==> bits_of(a, n) != bits_of(b, n),
{
    if bits_of(a, n) == bits_of(b, n) {
        assert forall|j: int| 0 <= j < a.len() implies a[j] == b[j] by {
            assert(bits_of(a, n)[n - 1] == bit_at(a, n - 1));
            assert(bits_of(b, n)[n - 1] == bit_at(b, n - 1));
            assert forall|k: u32| k < 32 implies word_bit(a[j], k) == word_bit(b[j], k) by {
                let i = 32 * j + k;
                lemma_position(j, k as int);
                if i < n {
                    assert(bits_of(a, n)[i] == bit_at(a, i));
                    assert(bits_of(b, n)[i] == bit_at(b, i));
                } else {
                    assert(bit_at(a, i) == bit_at(a, n - 1));
                    assert(bit_at(b, i) == bit_at(b, n - 1));
                }
            }
            lemma_word_extensional(a[j], b[j]);
        }
        assert(a =~= b);
    }
}

/// Where the padding repeats the last bit, every word that lies wholly at or
/// beyond position `n` is the fill word of that bit.
pub proof fn lemma_padding_word(words: Seq<u32>, n: nat, j: int)
    requires
        padding_follows(words, n),
        words_for(n) <= j < words.len(),
    ensures
        words[j] == fill_word(bit_at(words, n - 1)),
{
    let last = bit_at(words, n - 1);
    assert forall|k: u32| k < 32 implies word_bit(words[j], k) == word_bit(fill_word(last), k) by {
        lemma_position(j, k as int);
        assert(bit_at(words, 32 * j + k) == last);
        lemma_fill_word_bits(last, k);
    }
    lemma_word_extensional(words[j], fill_word(last));
}

/// A run of words that are all the fill word of `b`: its padding repeats the
/// last bit, and each of its first `n` bits is `b`.
pub proof fn lemma_filled_words(words: Seq<u32>, n: nat, b: bool)
    requires
        n <= 32 * words.len(),
        n == 0 ==> words.len() == 0,
        forall|j: int| 0 <= j < words.len() ==> words[j] == fill_word(b),
    ensures
        padding_follows(words, n),
        bits_of(words, n) == filled(n, b),
{
    assert forall|i: int| 0 <= i < 32 * words.len() implies bit_at(words, i) == b by {
        lemma_fill_word_bits(b, (i % 32) as u32);
    }
    assert(bits_of(words, n) =~= filled(n, b));
}

/// What a word-wise OR does to the bits. Where the padding of both operands
/// repeats the last bit, so does that of their OR; its bits are the
/// position-wise OR of the operands' bits; and its words differ from those
/// of `before` exactly when its bits do.
pub proof fn lemma_union_words(before: Seq<u32>, other: Seq<u32>, n: nat)
    requires
        before.len() == other.len(),
        padding_follows(before, n),
        padding_follows(other, n),
    ensures
        padding_follows(or_words(before, other), n),
        bits_of(or_words(before, other), n) == or_bits(bits_of(before, n), bits_of(other, n)),
        or_words(before, other) != before <==> bits_of(or_words(before, other), n) != bits_of(
            before,
            n,
        ),
{
    let after = or_words(before, other);
    assert forall|i: int| 0 <= i < 32 * after.len() implies bit_at(after, i) == (bit_at(before, i)
        || bit_at(other, i)) by {
        lemma_or_bit(before[i / 32], other[i / 32], (i % 32) as u32);
    }
    assert forall|i: int| n <= i < 32 * after.len() implies #[trigger] bit_at(after, i) == bit_at(
        after,
        n - 1,
    ) by {
        assert(bit_at(before, i) == bit_at(before, n - 1));
        assert(bit_at(other, i) == bit_at(other, n - 1));
    }
    assert(bits_of(after, n) =~= or_bits(bits_of(before, n), bits_of(other, n)));
    lemma_words_differ_iff_bits_differ(after, before, n);
}

/// What carrying the last bit into the words behind the narrow view does.
/// `after` keeps the words that hold a bit and has, behind them, the fill
/// word of the last bit. Where every bit of `before` from `n` to the end of
/// the narrow view repeats the last bit, the padding of `after` repeats it
/// throughout, and its first `n` bits are those of `before`.
pub proof fn lemma_extended(before: Seq<u32>, after: Seq<u32>, n: nat)
    requires
        before.len() == after.len(),
        before.len() == 4 * lanes_for(n),
        repeats_last(before, n, 32 * words_for(n)),
        forall|j: int| 0 <= j < words_for(n) ==> after[j] == before[j],
        forall|j: int|
            words_for(n) <= j < after.len() ==> after[j] == fill_word(bit_at(before, n - 1)),
    ensures
        padding_follows(after, n),
        bits_of(after, n) == bits_of(before, n),
{
    let last = bit_at(before, n - 1);
    assert forall|i: int| 0 <= i < 32 * after.len() implies bit_at(after, i) == (if i < n {
        bit_at(before, i)
    } else {
        last
    }) by {
        let j = i / 32;
        if j < words_for(n) {
            if i >= n {
                assert(bit_at(before, i) == last);
            }
        } else {
            lemma_fill_word_bits(last, (i % 32) as u32);
        }
    }
    assert(bits_of(after, n) =~= bits_of(before, n));
}

} // verus!
