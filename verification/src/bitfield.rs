//! Sparse sets of identifiers, as the `BitField` of `fvm_ipld_bitfield`
//! keeps them, seen by the verifier as mathematical sets.

use fvm_ipld_bitfield::BitField;
use vstd::prelude::*;

verus! {

/// A compressed set of non-negative 64-bit identifiers.
#[verifier::external_type_specification]
#[verifier::external_body]
pub struct ExBitField(BitField);

/// The identifiers that a bit field holds.
pub uninterp spec fn bits(b: BitField) -> Set<u64>;

/// A set without members.
pub open spec fn is_void(s: Set<u64>) -> bool {
    forall|i: u64| !s.contains(i)
}

/// How many members of `mask` lie below `id`.
pub open spec fn removed_below(mask: Set<u64>, id: u64) -> nat {
    mask.filter(|m: u64| m < id).len()
}

/// Delete and compact: the members of `ids` that are not in `mask`, each
/// moved down by the number of members of `mask` below it.
pub open spec fn compacted(ids: Set<u64>, mask: Set<u64>) -> Set<u64> {
    Set::new(
        |j: u64|
            exists|i: u64|
                ids.contains(i) && !mask.contains(i) && j + removed_below(mask, i) == i,
    )
}

/// `BitField::new`: the empty bit field.
#[verifier::external_body]
pub(crate) fn no_ids() -> (b: BitField)
    ensures
        is_void(bits(b)),
{
    BitField::new()
}

/// `BitField::is_empty`: whether no bit is set.
#[verifier::external_body]
pub(crate) fn holds_nothing(b: &BitField) -> (r: bool)
    ensures
        r == is_void(bits(*b)),
{
    b.is_empty()
}

/// `BitOr` on two bit fields: the bits set in either.
#[verifier::external_body]
pub(crate) fn joined(a: &BitField, b: &BitField) -> (r: BitField)
    ensures
        bits(r) == bits(*a).union(bits(*b)),
{
    a | b
}

/// `BitField::cut`: the bits of `b` that remain when those of `mask` are
/// cut out, each shifted down by the number of cut bits below it.
#[verifier::external_body]
pub(crate) fn cut_out(b: &BitField, mask: &BitField) -> (r: BitField)
    ensures
        bits(r) == compacted(bits(*b), bits(*mask)),
{
    b.cut(mask)
}

/// `BitField::try_from_bits` on a list of identifiers: the bit field of the
/// listed identifiers, refused exactly when the list holds `u64::MAX`.
#[verifier::external_body]
pub(crate) fn from_ids(ids: &[u64]) -> (r: Option<BitField>)
    ensures
        r is None <==> ids@.contains(u64::MAX),
        r matches Some(b) ==> bits(b) == ids@.to_set(),
{
    BitField::try_from_bits(ids.iter().copied()).ok()
}

} // verus!
