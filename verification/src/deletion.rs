//! The caller-supplied deletion bitmap: a set of tombstoned vector ids that
//! a search must never return. The index neither owns nor persists it; it
//! only asks for membership, one id at a time.
use vstd::prelude::*;

verus! {

/// Declares roaring's compressed bitmap type so that signatures of this
/// library can carry it; its contents are visible to specifications only
/// through [`bitmap_ids`].
#[verifier::external_type_specification]
#[verifier::external_body]
pub struct ExRoaringBitmap(roaring::RoaringBitmap);

/// The set of ids a deletion bitmap holds.
pub uninterp spec fn bitmap_ids(b: roaring::RoaringBitmap) -> Set<u32>;

/// Relies on roaring::RoaringBitmap::contains: whether `value` is a member
/// of the set the bitmap holds.
pub assume_specification[ roaring::RoaringBitmap::contains ](
    b: &roaring::RoaringBitmap,
    value: u32,
) -> (r: bool)
    ensures
        r == bitmap_ids(*b).contains(value),
;

} // verus!
