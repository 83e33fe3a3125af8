//! The fixed-size bit set of the `fixedbitset` crate, as the library sees it.
use fixedbitset::FixedBitSet;
use vstd::prelude::*;

verus! {

#[verifier::external_type_specification]
#[verifier::external_body]
pub struct ExFixedBitSet(FixedBitSet);

/// The bits of a set, one per index below its length.
pub uninterp spec fn bits_of(b: FixedBitSet) -> Seq<bool>;

/// Relies on `FixedBitSet::with_capacity`: `bits` bits, all clear.
pub assume_specification[ FixedBitSet::with_capacity ](bits: usize) -> (r: FixedBitSet)
    ensures
        bits_of(r) == Seq::new(bits as nat, |_i: int| false),
;

/// Relies on `FixedBitSet::len`: the number of bits.
pub assume_specification[ FixedBitSet::len ](b: &FixedBitSet) -> (r: usize)
    ensures
        r == bits_of(*b).len(),
;

/// Relies on `FixedBitSet::set`: writes one bit; it panics past the length.
pub assume_specification[ FixedBitSet::set ](b: &mut FixedBitSet, bit: usize, enabled: bool)
    requires
        bit < bits_of(*old(b)).len(),
    ensures
        bits_of(*final(b)) == bits_of(*old(b)).update(bit as int, enabled),
;

/// Relies on `FixedBitSet::contains`: reads one bit.
pub assume_specification[ FixedBitSet::contains ](b: &FixedBitSet, bit: usize) -> (r: bool)
    requires
        bit < bits_of(*b).len(),
    ensures
        r == bits_of(*b)[bit as int],
;

/// Relies on `FixedBitSet::clear`: every bit cleared, the length kept.
pub assume_specification[ FixedBitSet::clear ](b: &mut FixedBitSet)
    ensures
        bits_of(*final(b)) == Seq::new(bits_of(*old(b)).len(), |_i: int| false),
;

} // verus!
