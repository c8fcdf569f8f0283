//! Row-selection sets backed by `bitvector::BitVector`.
//!
//! A selection over a table of `n` rows is a set of row indices below `n`.
//! The outside type is opaque to the verifier, so its contents are named by
//! `bv_set` and its allocated width by `bv_cap`; the wrappers below state, for
//! each method the crate calls, what that method does to those two values.

use vstd::prelude::*;
use bitvector::BitVector;

verus! {

#[verifier::external_type_specification]
#[verifier::external_body]
pub struct ExBitVector(BitVector);

/// The set of indices held by a row-selection bit vector.
pub uninterp spec fn bv_set(bv: BitVector) -> Set<usize>;

/// The number of bits a row-selection bit vector has allocated; elements are
/// always below this width.
pub uninterp spec fn bv_cap(bv: BitVector) -> nat;

/// Allocated width that `BitVector::new(bits)` rounds `bits` up to: whole
/// 64-bit words.
pub open spec fn word_rounded(bits: nat) -> nat {
    ((bits + 63) / 64) * 64
}

/// Relies on `BitVector::new`: a fresh bit vector of `bits` bits (rounded up
/// to whole words) holds no element.
#[verifier::external_body]
pub(crate) fn bv_new(bits: usize) -> (r: BitVector)
    ensures
        bv_set(r) == Set::<usize>::empty(),
        bv_cap(r) == word_rounded(bits as nat),
{
    BitVector::new(bits)
}

/// Relies on `BitVector::capacity`: the allocated width in bits.
#[verifier::external_body]
pub(crate) fn bv_capacity(bv: &BitVector) -> (r: usize)
    ensures
        r as nat == bv_cap(*bv),
{
    bv.capacity()
}

/// Relies on `BitVector::contains`: membership test; indices at or above the
/// allocated width are never members.
#[verifier::external_body]
pub(crate) fn bv_contains(bv: &BitVector, bit: usize) -> (r: bool)
    ensures
        r == bv_set(*bv).contains(bit),
{
    bv.contains(bit)
}

/// Relies on `BitVector::insert`: sets one bit; within the allocated width it
/// neither reallocates nor disturbs other bits.
#[verifier::external_body]
pub(crate) fn bv_insert(bv: &mut BitVector, bit: usize) -> (r: bool)
    requires
        (bit as nat) < bv_cap(*old(bv)),
    ensures
        bv_set(*final(bv)) == bv_set(*old(bv)).insert(bit),
        bv_cap(*final(bv)) == bv_cap(*old(bv)),
        r == !bv_set(*old(bv)).contains(bit),
{
    bv.insert(bit)
}

/// Relies on `BitVector::union_inplace`: word-wise or; both operands must
/// have the same allocated width (the method asserts it).
#[verifier::external_body]
pub(crate) fn bv_union_inplace(bv: &mut BitVector, other: &BitVector)
    requires
        bv_cap(*other) == bv_cap(*old(bv)),
    ensures
        bv_set(*final(bv)) == bv_set(*old(bv)).union(bv_set(*other)),
        bv_cap(*final(bv)) == bv_cap(*old(bv)),
{
    bv.union_inplace(other);
}

/// Relies on `BitVector::intersection_inplace`: word-wise and; both operands
/// must have the same allocated width (the method asserts it).
#[verifier::external_body]
pub(crate) fn bv_intersection_inplace(bv: &mut BitVector, other: &BitVector)
    requires
        bv_cap(*other) == bv_cap(*old(bv)),
    ensures
        bv_set(*final(bv)) == bv_set(*old(bv)).intersect(bv_set(*other)),
        bv_cap(*final(bv)) == bv_cap(*old(bv)),
{
    bv.intersection_inplace(other);
}

/// Relies on `BitVector::is_empty`: true when no bit is set.
#[verifier::external_body]
pub(crate) fn bv_is_empty(bv: &BitVector) -> (r: bool)
    ensures
        r == (forall|i: usize| !bv_set(*bv).contains(i)),
{
    bv.is_empty()
}

/// Relies on `BitVector::eq` (via `eq_left` over the full width): equal words
/// mean equal contents; both operands must have the same allocated width (the
/// comparison indexes the shorter vector out of bounds otherwise).
#[verifier::external_body]
pub(crate) fn bv_eq(a: &BitVector, b: &BitVector) -> (r: bool)
    requires
        bv_cap(*a) == bv_cap(*b),
    ensures
        r == (bv_set(*a) =~= bv_set(*b)),
{
    a == b
}

/// Relies on `BitVector::iter`: yields exactly the set bits, in increasing
/// order.
#[verifier::external_body]
pub(crate) fn bv_to_vec(bv: &BitVector) -> (r: Vec<usize>)
    ensures
        forall|k: int, l: int| 0 <= k < l < r@.len() ==> r@[k] < r@[l],
        forall|k: int| 0 <= k < r@.len() ==> bv_set(*bv).contains(#[trigger] r@[k]),
        forall|i: usize| bv_set(*bv).contains(i) ==> r@.contains(i),
{
    bv.iter().collect()
}

/// The set of all row indices below `n`.
pub open spec fn all_rows(n: nat) -> Set<usize> {
    Set::new(|i: usize| (i as nat) < n)
}

/// Build the selection holding every row index below `n`.
pub(crate) fn bv_all_rows(n: usize) -> (r: BitVector)
    ensures
        bv_set(r) =~= all_rows(n as nat),
        bv_cap(r) == word_rounded(n as nat),
{
    let mut bv = bv_new(n);
    let mut i: usize = 0;
    while i < n
        invariant
            i <= n,
            bv_set(bv) =~= all_rows(i as nat),
            bv_cap(bv) == word_rounded(n as nat),
        decreases n - i,
    {
        assert((i as nat) < word_rounded(n as nat)) by {
            assert(n <= ((n + 63) / 64) * 64) by (nonlinear_arith);
        };
        bv_insert(&mut bv, i);
        assert(bv_set(bv) =~= all_rows((i + 1) as nat));
        i = i + 1;
    }
    bv
}

} // verus!
