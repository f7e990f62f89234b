//! Sequences of bits, which is what a bit vector is seen as, and what holds
//! of their union whichever way it is computed.
//!
//! Both `BitVec::union` and `BitVec::union_u32` leave `or_bits(before, other)`
//! in the vector and return whether that differs from `before`. The lemmas
//! here are stated over these two expressions.

use vstd::prelude::*;

verus! {

/// `n` bits repeated: the sequence of length `n` that is `b` everywhere.
pub open spec fn filled(n: nat, b: bool) -> Seq<bool> {
    Seq::new(n, |i: int| b)
}

/// Position-wise OR of two bit sequences, over the positions of the first.
pub open spec fn or_bits(a: Seq<bool>, b: Seq<bool>) -> Seq<bool> {
    Seq::new(a.len(), |i: int| a[i] || b[i])
}

/// The bit that a union leaves at a position is the OR of the two bits that
/// stood there, in either order of the operands.
pub proof fn lemma_union_bit(a: Seq<bool>, b: Seq<bool>, i: int)
    requires
        a.len() == b.len(),
        0 <= i < a.len(),
    ensures
        or_bits(a, b).len() == a.len(),
        or_bits(a, b)[i] == (a[i] || b[i]),
        or_bits(a, b)[i] == or_bits(b, a)[i],
{
}

/// Union does not depend on which operand comes first.
pub proof fn lemma_union_commutes(a: Seq<bool>, b: Seq<bool>)
    requires
        a.len() == b.len(),
    ensures
        or_bits(a, b) == or_bits(b, a),
{
    assert(or_bits(a, b) =~= or_bits(b, a));
}

/// A union reports a change exactly when some position holds another bit
/// than before, and that is exactly when the other operand has a bit set
/// that the vector lacked.
pub proof fn lemma_union_changed(a: Seq<bool>, b: Seq<bool>)
    requires
        a.len() == b.len(),
    ensures
        or_bits(a, b) != a <==> exists|i: int| 0 <= i < a.len() && or_bits(a, b)[i] != a[i],
        or_bits(a, b) != a <==> exists|i: int| 0 <= i < a.len() && b[i] && !a[i],
{
    let r = or_bits(a, b);
    if forall|i: int| 0 <= i < a.len() ==> r[i] == a[i] {
        assert(r =~= a);
    }
    if r != a {
        let i = choose|i: int| 0 <= i < a.len() && r[i] != a[i];
        assert(b[i] && !a[i]);
    }
    if exists|i: int| 0 <= i < a.len() && b[i] && !a[i] {
        let i = choose|i: int| 0 <= i < a.len() && b[i] && !a[i];
        assert(r[i] != a[i]);
    }
}

/// A union with the same operand a second time changes nothing: the bits
/// that the first union left stay, and the flag that the second returns is
/// `false`.
pub proof fn lemma_union_idempotent(
    before: Seq<bool>,
    other: Seq<bool>,
    first: Seq<bool>,
    second: Seq<bool>,
    second_changed: bool,
)
    requires
        before.len() == other.len(),
        first == or_bits(before, other),
        second == or_bits(first, other),
        second_changed <==> second != first,
    ensures
        second == first,
        !second_changed,
{
    assert(or_bits(or_bits(before, other), other) =~= or_bits(before, other));
}

/// The lane-wise and the word-wise union agree. Whatever bits and flag the
/// one leaves and returns under the union contract, the other leaves and
/// returns the same on the same operands.
pub proof fn lemma_union_variants_agree(
    before: Seq<bool>,
    other: Seq<bool>,
    wide: Seq<bool>,
    wide_changed: bool,
    narrow: Seq<bool>,
    narrow_changed: bool,
)
    requires
        before.len() == other.len(),
        wide == or_bits(before, other),
        wide_changed <==> wide != before,
        narrow == or_bits(before, other),
        narrow_changed <==> narrow != before,
    ensures
        wide == narrow,
        wide_changed == narrow_changed,
{
}

} // verus!
