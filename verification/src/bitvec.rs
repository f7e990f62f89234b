//! The bit vector: construction, setting every bit, and union with change
//! detection, once lane by lane and once word by word.

use vstd::prelude::*;
use crate::lane::{Lane, lemma_lane_accumulate, lemma_word_accumulate};
use crate::bits::{filled, lemma_union_changed, or_bits};
use crate::layout::{
    bit_at, bits_of, elems, elems_u32, lane_at, lanes_for, lemma_extended, lemma_filled_words,
    lemma_padding_word, lemma_position, lemma_union_words, lemma_words_differ_iff_bits_differ,
    load, or_words, padding_follows, repeats_last, store, words_for,
};
use crate::word::{fill_word, lemma_fill_word_bits, lemma_fill_word_or, lemma_or_bit, word_bit};

verus! {

/// A fixed-length run of bits, packed into 32-bit words that are stored in
/// whole lanes of four.
///
/// Padding policy: every stored bit at or beyond `len()` repeats the last
/// bit of the vector, and every operation keeps it so. The stored words are
/// therefore determined by the bits below `len()`: a word changes exactly
/// when one of those bits does, and the lane-wise and the word-wise union
/// report the same.
pub struct BitVec {
    storage: Vec<u32>,
    nbits: usize,
}

impl View for BitVec {
    type V = Seq<bool>;

    /// The bits of the vector, position by position: the first `bit_len()`
    /// bits of the stored words.
    open spec fn view(&self) -> Seq<bool> {
        bits_of(self.words(), self.bit_len())
    }
}

impl BitVec {
    /// The stored words, padding included.
    pub closed spec fn words(&self) -> Seq<u32> {
        self.storage@
    }

    /// The number of bits that the vector was made with.
    pub closed spec fn bit_len(&self) -> nat {
        self.nbits as nat
    }

    /// The storage is a whole number of lanes, just enough for the bits.
    pub open spec fn shaped(&self) -> bool {
        self.words().len() == 4 * lanes_for(self.bit_len())
    }

    /// The storage has the right size and its padding repeats the last bit.
    pub open spec fn wf(&self) -> bool {
        &&& self.shaped()
        &&& padding_follows(self.words(), self.bit_len())
    }

    /// The empty vector.
    pub fn new() -> (r: BitVec)
        ensures
            r.wf(),
            r@ == Seq::<bool>::empty(),
            r.words() == Seq::<u32>::empty(),
    {
        let r = BitVec { storage: Vec::new(), nbits: 0 };
        assert(r@ =~= Seq::<bool>::empty());
        assert(r.words() =~= Seq::<u32>::empty());
        r
    }

    /// The vector of `n` bits that are all `b`: every stored word, padding
    /// included, has all its bits equal to `b`.
    pub fn from_elem(n: usize, b: bool) -> (r: BitVec)
        ensures
            r.wf(),
            r@ == filled(n as nat, b),
            r@.len() == n,
            forall|i: int| 0 <= i < n ==> r@[i] == b,
            r.words().len() == 4 * lanes_for(n as nat),
            forall|j: int| 0 <= j < r.words().len() ==> r.words()[j] == fill_word(b),
    {
        let elem = Lane::splat(b);
        let lanes = elems(n);
        let mut storage: Vec<u32> = Vec::new();
        let mut k: usize = 0;
        while k < lanes
            invariant
                k <= lanes,
                4 * lanes <= usize::MAX,
                storage@.len() == 4 * k,
                forall|j: int| 0 <= j < storage@.len() ==> storage@[j] == fill_word(b),
                elem == Lane::spec_splat(fill_word(b)),
            decreases lanes - k,
        {
            storage.push(elem.w0);
            storage.push(elem.w1);
            storage.push(elem.w2);
            storage.push(elem.w3);
            k += 1;
        }
        let r = BitVec { storage, nbits: n };
        proof {
            lemma_filled_words(r.storage@, n as nat, b);
        }
        r
    }

    /// Sets every bit: each word that holds a bit becomes all ones, and so
    /// does the padding behind them.
    pub fn set_all(&mut self)
        requires
            old(self).wf(),
        ensures
            final(self).wf(),
            final(self)@ == filled(old(self)@.len(), true),
            final(self)@.len() == old(self)@.len(),
            forall|i: int| 0 <= i < old(self)@.len() ==> final(self)@[i],
            final(self).words().len() == old(self).words().len(),
            forall|j: int|
                0 <= j < words_for(old(self)@.len()) ==> final(self).words()[j] == 0xffff_ffffu32,
            forall|j: int|
                0 <= j < final(self).words().len() ==> final(self).words()[j] == 0xffff_ffffu32,
    {
        let narrow = self.as_u32_mut();
        let words = narrow.len();
        let mut j: usize = 0;
        while j < words
            invariant
                j <= words,
                words == narrow@.len(),
                forall|m: int| 0 <= m < j ==> narrow@[m] == 0xffff_ffffu32,
            decreases words - j,
        {
            narrow[j] = 0xffff_ffffu32;
            j += 1;
        }
        proof {
            let n = self.nbits as nat;
            assert forall|i: int| 0 <= i < 32 * words_for(n) implies bit_at(self.storage@, i) by {
                lemma_fill_word_bits(true, (i % 32) as u32);
            }
        }
        self.extend_last_bit();
        proof {
            lemma_filled_words(self.storage@, self.nbits as nat, true);
        }
    }

    /// The words that hold a bit, open to writing: the narrow view of the
    /// storage. What is written there is what the storage then holds in
    /// their place; the words behind them stay.
    fn as_u32_mut(&mut self) -> (narrow: &mut [u32])
        requires
            old(self).shaped(),
        ensures
            narrow@ == old(self).storage@.subrange(0, words_for(old(self).nbits as nat) as int),
            final(self).nbits == old(self).nbits,
            final(self).storage@ == final(narrow)@ + old(self).storage@.subrange(
                words_for(old(self).nbits as nat) as int,
                old(self).storage@.len() as int,
            ),
    {
        let len = elems_u32(self.nbits);
        let (narrow, _) = self.storage.as_mut_slice().split_at_mut(len);
        narrow
    }

    /// The words that hold a bit: the narrow view of the storage.
    fn as_u32(&self) -> (narrow: &[u32])
        requires
            self.shaped(),
        ensures
            narrow@ == self.storage@.subrange(0, words_for(self.nbits as nat) as int),
    {
        let len = elems_u32(self.nbits);
        let (narrow, _) = self.storage.as_slice().split_at(len);
        narrow
    }

    /// Carries the last bit into the words behind the narrow view, so that
    /// the whole padding repeats it. The words that hold a bit stay.
    fn extend_last_bit(&mut self)
        requires
            old(self).shaped(),
            repeats_last(
                old(self).storage@,
                old(self).nbits as nat,
                32 * words_for(old(self).nbits as nat)
            ),
        ensures
            final(self).wf(),
            final(self)@ == old(self)@,
            final(self).nbits == old(self).nbits,
            final(self).storage@.len() == old(self).storage@.len(),
            forall|j: int|
                0 <= j < words_for(old(self).nbits as nat)
                    ==> final(self).storage@[j] == old(self).storage@[j],
            forall|j: int|
                words_for(old(self).nbits as nat) <= j < old(self).storage@.len()
                    ==> final(self).storage@[j]
                    == fill_word(bit_at(old(self).storage@, old(self).nbits as nat - 1)),
    {
        let ghost before = self.storage@;
        let ghost n = self.nbits as nat;
        let words = elems_u32(self.nbits);
        let total = self.storage.len();
        if words < total {
            let last: u32 = self.storage[words - 1];
            let fill: u32 = if (last >> 31) & 1 == 1 {
                0xffff_ffff
            } else {
                0
            };
            proof {
                lemma_position(words - 1, 31);
                assert(word_bit(last, 31) == bit_at(before, 32 * words - 1));
                assert(fill == fill_word(bit_at(before, n - 1)));
            }
            let mut j: usize = words;
            while j < total
                invariant
                    words <= j <= total,
                    total == self.storage@.len(),
                    total == before.len(),
                    self.nbits == old(self).nbits,
                    forall|m: int| 0 <= m < words ==> self.storage@[m] == before[m],
                    forall|m: int| words <= m < j ==> self.storage@[m] == fill,
                decreases total - j,
            {
                self.storage.set(j, fill);
                j += 1;
            }
        }
        proof {
            lemma_extended(before, self.storage@, n);
        }
    }

    /// The number of bits.
    pub fn len(&self) -> (n: usize)
        ensures
            n == self@.len(),
    {
        self.nbits
    }

    /// Combines the vector with `other`, lane by lane: each lane becomes what
    /// `op` makes of it and of the lane of `other` at the same place. Returns
    /// whether any stored word changed.
    fn process<F: Fn(Lane, Lane) -> Lane>(&mut self, other: &BitVec, op: F) -> (changed: bool)
        requires
            old(self).shaped(),
            other.shaped(),
            old(self).nbits == other.nbits,
            forall|a: Lane, b: Lane| op.requires((a, b)),
        ensures
            final(self).nbits == old(self).nbits,
            final(self).shaped(),
            forall|k: int|
                0 <= k < lanes_for(old(self).nbits as nat) ==> op.ensures(
                    (
                        #[trigger] lane_at(old(self).storage@, k),
                        lane_at(other.storage@, k),
                    ),
                    lane_at(final(self).storage@, k),
                ),
            changed <==> final(self).storage@ != old(self).storage@,
    {
        let ghost before = self.storage@;
        let lanes = elems(self.nbits);
        let mut changed = Lane::splat(false);
        let mut k: usize = 0;
        while k < lanes
            invariant
                k <= lanes,
                lanes == lanes_for(self.nbits as nat),
                4 * lanes <= usize::MAX,
                self.nbits == old(self).nbits,
                self.storage@.len() == 4 * lanes,
                other.storage@.len() == 4 * lanes,
                before.len() == 4 * lanes,
                forall|a: Lane, b: Lane| op.requires((a, b)),
                forall|m: int|
                    0 <= m < k ==> op.ensures(
                        (#[trigger] lane_at(before, m), lane_at(other.storage@, m)),
                        lane_at(self.storage@, m),
                    ),
                forall|j: int| 4 * k <= j < 4 * lanes ==> self.storage@[j] == before[j],
                changed.spec_is_zero() <==> (forall|j: int|
                    0 <= j < 4 * k ==> self.storage@[j] == before[j]),
            decreases lanes - k,
        {
            let aa = load(&self.storage, k);
            let bb = load(&other.storage, k);
            let w = op(aa, bb);
            proof {
                lemma_lane_accumulate(changed, aa, w);
            }
            changed = changed.or(aa.xor(w));
            store(&mut self.storage, k, w);
            proof {
                assert(lane_at(before, k as int) == aa);
                if aa != w {
                    assert(lane_at(self.storage@, k as int) != lane_at(before, k as int));
                }
            }
            k += 1;
        }
        proof {
            if changed.spec_is_zero() {
                assert(self.storage@ =~= before);
            }
        }
        !changed.is_zero()
    }

    /// Sets each bit to the OR of itself and of the bit of `other` at the
    /// same position, lane by lane, and returns whether any bit changed. The
    /// flag covers the whole stored width; as the padding repeats the last
    /// bit, that is the same as a change among the bits of the vector.
    pub fn union(&mut self, other: &BitVec) -> (changed: bool)
        requires
            old(self).wf(),
            other.wf(),
            old(self)@.len() == other@.len(),
        ensures
            final(self).wf(),
            final(self)@ == or_bits(old(self)@, other@),
            final(self)@.len() == old(self)@.len(),
            forall|i: int|
                0 <= i < old(self)@.len() ==> final(self)@[i] == (old(self)@[i] || other@[i]),
            final(self).words() == or_words(old(self).words(), other.words()),
            changed <==> final(self)@ != old(self)@,
            changed <==> exists|i: int|
                0 <= i < old(self)@.len() && final(self)@[i] != old(self)@[i],
            changed <==> final(self).words() != old(self).words(),
    {
        let op = |a: Lane, b: Lane| -> (w: Lane)
            ensures
                w == a.spec_or(b),
            { a.or(b) };
        let changed = self.process(other, op);
        proof {
            let before = old(self).storage@;
            let after = self.storage@;
            assert forall|j: int| 0 <= j < after.len() implies after[j] == before[j]
                | other.storage@[j] by {
                let k = j / 4;
                let a = lane_at(before, k);
                let b = lane_at(other.storage@, k);
                let w = lane_at(after, k);
                assert(op.ensures((a, b), w));
                assert(w.word(j % 4) == a.word(j % 4) | b.word(j % 4));
            }
            assert(after =~= or_words(before, other.storage@));
            lemma_union_words(before, other.storage@, self.nbits as nat);
            lemma_union_changed(old(self)@, other@);
        }
        changed
    }

    /// Combines the words that hold a bit with those of `other`, word by
    /// word: each becomes what `op` makes of it and of the word of `other` at
    /// the same place. Returns whether any stored word changed.
    fn process_u32<F: Fn(u32, u32) -> u32>(&mut self, other: &BitVec, op: F) -> (changed: bool)
        requires
            old(self).shaped(),
            other.shaped(),
            old(self).nbits == other.nbits,
            forall|a: u32, b: u32| op.requires((a, b)),
        ensures
            final(self).nbits == old(self).nbits,
            final(self).shaped(),
            forall|j: int|
                0 <= j < words_for(old(self).nbits as nat) ==> op.ensures(
                    (old(self).storage@[j], other.storage@[j]),
                    #[trigger] final(self).storage@[j],
                ),
            forall|j: int|
                words_for(old(self).nbits as nat) <= j < old(self).storage@.len()
                    ==> final(self).storage@[j] == old(self).storage@[j],
            changed <==> final(self).storage@ != old(self).storage@,
    {
        let ghost before = self.storage@;
        let theirs = other.as_u32();
        let ours = self.as_u32_mut();
        let words = ours.len();
        let mut changed: u32 = 0;
        let mut j: usize = 0;
        while j < words
            invariant
                j <= words,
                words == ours@.len(),
                words == theirs@.len(),
                words <= before.len(),
                theirs@ == other.storage@.subrange(0, words as int),
                forall|a: u32, b: u32| op.requires((a, b)),
                forall|m: int|
                    0 <= m < j ==> op.ensures((before[m], theirs@[m]), #[trigger] ours@[m]),
                forall|m: int| j <= m < words ==> ours@[m] == before[m],
                changed == 0 <==> (forall|m: int| 0 <= m < j ==> ours@[m] == before[m]),
            decreases words - j,
        {
            let aa: u32 = ours[j];
            let bb: u32 = theirs[j];
            let w: u32 = op(aa, bb);
            proof {
                lemma_word_accumulate(changed, aa, w);
            }
            changed = changed | (aa ^ w);
            ours[j] = w;
            j += 1;
        }
        proof {
            if changed == 0 {
                assert(self.storage@ =~= before);
            }
        }
        changed != 0
    }

    /// Sets each bit to the OR of itself and of the bit of `other` at the
    /// same position, word by word over the words that hold a bit, and
    /// returns whether any bit changed. The words behind those are then
    /// brought in step with the last bit, so that vector, stored words and
    /// flag come out as from `union`.
    pub fn union_u32(&mut self, other: &BitVec) -> (changed: bool)
        requires
            old(self).wf(),
            other.wf(),
            old(self)@.len() == other@.len(),
        ensures
            final(self).wf(),
            final(self)@ == or_bits(old(self)@, other@),
            final(self)@.len() == old(self)@.len(),
            forall|i: int|
                0 <= i < old(self)@.len() ==> final(self)@[i] == (old(self)@[i] || other@[i]),
            final(self).words() == or_words(old(self).words(), other.words()),
            changed <==> final(self)@ != old(self)@,
            changed <==> exists|i: int|
                0 <= i < old(self)@.len() && final(self)@[i] != old(self)@[i],
            changed <==> final(self).words() != old(self).words(),
    {
        let op = |a: u32, b: u32| -> (w: u32)
            ensures
                w == a | b,
            { a | b };
        let changed = self.process_u32(other, op);
        let ghost before = old(self).storage@;
        let ghost theirs = other.storage@;
        let ghost mid = self.storage@;
        let ghost n = self.nbits as nat;
        proof {
            assert forall|i: int| 0 <= i < 32 * words_for(n) implies bit_at(mid, i) == (bit_at(
                before,
                i,
            ) || bit_at(theirs, i)) by {
                lemma_or_bit(before[i / 32], theirs[i / 32], (i % 32) as u32);
            }
            assert forall|i: int| n <= i < 32 * words_for(n) implies #[trigger] bit_at(mid, i)
                == bit_at(mid, n - 1) by {
                assert(bit_at(before, i) == bit_at(before, n - 1));
                assert(bit_at(theirs, i) == bit_at(theirs, n - 1));
            }
        }
        self.extend_last_bit();
        proof {
            let after = self.storage@;
            assert forall|j: int| 0 <= j < after.len() implies after[j] == before[j]
                | theirs[j] by {
                if j >= words_for(n) {
                    lemma_padding_word(before, n, j);
                    lemma_padding_word(theirs, n, j);
                    lemma_fill_word_or(bit_at(before, n - 1), bit_at(theirs, n - 1));
                }
            }
            assert(after =~= or_words(before, theirs));
            lemma_union_words(before, theirs, n);
            if mid == before {
                assert(bits_of(after, n) =~= bits_of(before, n));
                lemma_words_differ_iff_bits_differ(after, before, n);
            } else {
                if after == before {
                    assert(mid =~= before);
                }
            }
            lemma_union_changed(old(self)@, other@);
        }
        changed
    }
}

} // verus!
