//! The duplicate-index set: a compressed bitmap of input-order record indices.
//!
//! The set is a `roaring::RoaringBitmap`. Verus does not look inside it: what
//! it holds is named by [`bitmap_members`], and the three methods that the
//! library calls carry the contracts below, which are taken from the bitmap's
//! documentation and are not proved here.

use roaring::RoaringBitmap;
use vstd::prelude::*;

verus! {

/// `roaring::RoaringBitmap`, carried as an opaque value.
#[verifier::external_type_specification]
#[verifier::external_body]
pub struct ExRoaringBitmap(RoaringBitmap);

/// The integers that a bitmap holds.
pub uninterp spec fn bitmap_members(bitmap: RoaringBitmap) -> Set<u32>;

/// `RoaringBitmap::new` creates an empty bitmap.
pub assume_specification[ RoaringBitmap::new ]() -> (bitmap: RoaringBitmap)
    ensures
        bitmap_members(bitmap) == Set::<u32>::empty(),
;

/// `RoaringBitmap::insert` adds `value` to the set and leaves every other
/// member as it was; it returns whether `value` was absent before.
pub assume_specification[ RoaringBitmap::insert ](bitmap: &mut RoaringBitmap, value: u32) -> (absent:
    bool)
    ensures
        bitmap_members(*final(bitmap)) == bitmap_members(*old(bitmap)).insert(value),
        absent == !bitmap_members(*old(bitmap)).contains(value),
;

/// `RoaringBitmap::contains` tells whether `value` is in the set.
pub assume_specification[ RoaringBitmap::contains ](bitmap: &RoaringBitmap, value: u32) -> (present:
    bool)
    ensures
        present == bitmap_members(*bitmap).contains(value),
;

} // verus!
