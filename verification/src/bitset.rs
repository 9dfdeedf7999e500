//! The set of bits of the `fixedbitset` crate, as a set of positions.

use fixedbitset::FixedBitSet;
use vstd::prelude::*;

verus! {

/// `fixedbitset::FixedBitSet`, opaque: its enabled bits are `bit_members`, its
/// number of bits is `bit_len`.
#[verifier::external_type_specification]
#[verifier::external_body]
pub struct ExFixedBitSet(FixedBitSet);

/// The positions of the enabled bits.
pub uninterp spec fn bit_members(b: FixedBitSet) -> Set<usize>;

/// The number of bits, enabled or not.
pub uninterp spec fn bit_len(b: FixedBitSet) -> nat;

/// `FixedBitSet::with_capacity`: `bits` bits, all clear.
pub assume_specification[ FixedBitSet::with_capacity ](bits: usize) -> (b: FixedBitSet)
    ensures
        bit_members(b) == Set::<usize>::empty(),
        bit_len(b) == bits,
;

/// `FixedBitSet::insert` enables one bit; it panics beyond the last bit.
pub assume_specification[ FixedBitSet::insert ](b: &mut FixedBitSet, bit: usize)
    requires
        bit < bit_len(*old(b)),
    ensures
        bit_members(*final(b)) == bit_members(*old(b)).insert(bit),
        bit_len(*final(b)) == bit_len(*old(b)),
;

/// `FixedBitSet::contains`: whether a bit is enabled; none is beyond the last bit.
pub assume_specification[ FixedBitSet::contains ](b: &FixedBitSet, bit: usize) -> (r: bool)
    ensures
        r == bit_members(*b).contains(bit),
;

/// `FixedBitSet::clear` disables every bit and keeps their number.
pub assume_specification[ FixedBitSet::clear ](b: &mut FixedBitSet)
    ensures
        bit_members(*final(b)) == Set::<usize>::empty(),
        bit_len(*final(b)) == bit_len(*old(b)),
;

/// `FixedBitSet::union_with` adds the other set's bits and grows to its length.
pub assume_specification[ FixedBitSet::union_with ](b: &mut FixedBitSet, other: &FixedBitSet)
    ensures
        bit_members(*final(b)) == bit_members(*old(b)).union(bit_members(*other)),
        bit_len(*final(b)) == if bit_len(*other) > bit_len(*old(b)) { bit_len(*other) } else { bit_len(*old(b)) },
;

/// `FixedBitSet::intersect_with` keeps the bits that the other set has too.
pub assume_specification[ FixedBitSet::intersect_with ](b: &mut FixedBitSet, other: &FixedBitSet)
    ensures
        bit_members(*final(b)) == bit_members(*old(b)).intersect(bit_members(*other)),
        bit_len(*final(b)) == bit_len(*old(b)),
;

/// `FixedBitSet::clone`: the same bits.
pub assume_specification[ <FixedBitSet as Clone>::clone ](b: &FixedBitSet) -> (r: FixedBitSet)
    ensures
        bit_members(r) == bit_members(*b),
        bit_len(r) == bit_len(*b),
;

/// `FixedBitSet::count_ones` over the whole range: how many bits are enabled.
#[verifier::external_body]
pub(crate) fn count_all_ones(b: &FixedBitSet) -> (n: usize)
    ensures
        n == bit_members(*b).len(),
        n > 0 <==> exists|i: usize| bit_members(*b).contains(i),
{
    b.count_ones(..)
}

/// `FixedBitSet::ones`: the enabled positions, in ascending order.
#[verifier::external_body]
pub(crate) fn enabled_bits(b: &FixedBitSet) -> (r: Vec<usize>)
    ensures
        r@.to_set() == bit_members(*b),
        forall|i: int, j: int| 0 <= i < j < r@.len() ==> r@[i] < r@[j],
{
    b.ones().collect()
}

} // verus!
