//! A lane: four 32-bit words that the wide operations handle as one unit.

use vstd::prelude::*;
use crate::word::fill_word;

verus! {

/// Four packed words, processed together.
#[derive(Clone, Copy, Debug)]
pub struct Lane {
    pub w0: u32,
    pub w1: u32,
    pub w2: u32,
    pub w3: u32,
}

impl Lane {
    /// Word `r` of the lane; meaningful for `0 <= r < 4`.
    pub open spec fn word(self, r: int) -> u32 {
        if r == 0 {
            self.w0
        } else if r == 1 {
            self.w1
        } else if r == 2 {
            self.w2
        } else {
            self.w3
        }
    }

    /// The lane all of whose words are `w`.
    pub open spec fn spec_splat(w: u32) -> Lane {
        Lane { w0: w, w1: w, w2: w, w3: w }
    }

    /// Word-wise OR of two lanes.
    pub open spec fn spec_or(self, rhs: Lane) -> Lane {
        Lane {
            w0: self.w0 | rhs.w0,
            w1: self.w1 | rhs.w1,
            w2: self.w2 | rhs.w2,
            w3: self.w3 | rhs.w3,
        }
    }

    /// Word-wise XOR of two lanes.
    pub open spec fn spec_xor(self, rhs: Lane) -> Lane {
        Lane {
            w0: self.w0 ^ rhs.w0,
            w1: self.w1 ^ rhs.w1,
            w2: self.w2 ^ rhs.w2,
            w3: self.w3 ^ rhs.w3,
        }
    }

    /// Whether every word of the lane is zero.
    pub open spec fn spec_is_zero(self) -> bool {
        self.w0 == 0 && self.w1 == 0 && self.w2 == 0 && self.w3 == 0
    }

    /// A lane with every bit equal to `b`.
    pub fn splat(b: bool) -> (r: Lane)
        ensures
            r == Lane::spec_splat(fill_word(b)),
    {
        let w: u32 = if b { 0xffff_ffff } else { 0 };
        Lane { w0: w, w1: w, w2: w, w3: w }
    }

    /// Word-wise OR.
    pub fn or(self, rhs: Lane) -> (r: Lane)
        ensures
            r == self.spec_or(rhs),
    {
        Lane {
            w0: self.w0 | rhs.w0,
            w1: self.w1 | rhs.w1,
            w2: self.w2 | rhs.w2,
            w3: self.w3 | rhs.w3,
        }
    }

    /// Word-wise XOR.
    pub fn xor(self, rhs: Lane) -> (r: Lane)
        ensures
            r == self.spec_xor(rhs),
    {
        Lane {
            w0: self.w0 ^ rhs.w0,
            w1: self.w1 ^ rhs.w1,
            w2: self.w2 ^ rhs.w2,
            w3: self.w3 ^ rhs.w3,
        }
    }

    /// Whether no bit of the lane is set.
    pub fn is_zero(self) -> (r: bool)
        ensures
            r == self.spec_is_zero(),
    {
        self.w0 == 0 && self.w1 == 0 && self.w2 == 0 && self.w3 == 0
    }
}

/// Accumulating the XOR of a word's old and new value into an aggregate
/// leaves the aggregate zero exactly when it was zero and the word kept its
/// value.
pub proof fn lemma_word_accumulate(acc: u32, before: u32, after: u32)
    ensures
        (acc | (before ^ after)) == 0 <==> (acc == 0 && before == after),
{
    assert((acc | (before ^ after)) == 0 <==> (acc == 0 && before == after)) by (bit_vector);
}

/// The lane form of `lemma_word_accumulate`.
pub proof fn lemma_lane_accumulate(acc: Lane, before: Lane, after: Lane)
    ensures
        acc.spec_or(before.spec_xor(after)).spec_is_zero() <==> (acc.spec_is_zero() && before
            == after),
{
    lemma_word_accumulate(acc.w0, before.w0, after.w0);
    lemma_word_accumulate(acc.w1, before.w1, after.w1);
    lemma_word_accumulate(acc.w2, before.w2, after.w2);
    lemma_word_accumulate(acc.w3, before.w3, after.w3);
}

} // verus!
