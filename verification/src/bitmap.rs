//! The compressed bitmaps of the roaring crate, as sets of numbers.
//!
//! What is trusted of roaring is said of bitmaps in the form that roaring keeps
//! them in: the bitmaps that `RoaringBitmap::new` makes and that insertions and
//! the set operations change. The library holds no others.

use roaring::RoaringBitmap;
use vstd::prelude::*;

verus! {

/// Declares `roaring::RoaringBitmap`. Nothing is known of what is inside one but
/// what the functions below say.
#[verifier::external_type_specification]
#[verifier::external_body]
pub struct ExRoaringBitmap(RoaringBitmap);

/// The numbers that a bitmap holds.
pub uninterp spec fn bitmap_values(bitmap: RoaringBitmap) -> Set<u32>;

/// The bitmap is in the form that roaring keeps its bitmaps in: its containers
/// in the order of their keys, none of them empty, each an array or a bitmap
/// by the number of values it holds.
pub uninterp spec fn bitmap_in_form(bitmap: RoaringBitmap) -> bool;

/// The bytes that roaring writes for a bitmap holding exactly `values`.
pub uninterp spec fn serialized_values(values: Set<u32>) -> Seq<u8>;

/// The numbers that roaring reads out of `bytes`, in the order in which it hands
/// them out; `None` where it refuses the bytes.
pub uninterp spec fn deserialized_values(bytes: Seq<u8>) -> Option<Seq<u32>>;

/// Each number is smaller than every number behind it.
pub open spec fn ascending(values: Seq<u32>) -> bool {
    forall|i: int, j: int| 0 <= i < j < values.len() ==> values[i] < values[j]
}

/// Roaring reads exactly `values` out of `bytes`, in ascending order.
pub open spec fn reads_back(bytes: Seq<u8>, values: Set<u32>) -> bool {
    deserialized_values(bytes) matches Some(listed) && ascending(listed) && listed.to_set()
        == values
}

/// Calls `RoaringBitmap::new`. Trusted: the new bitmap holds nothing and is in form.
#[verifier::external_body]
pub(crate) fn bitmap_new() -> (bitmap: RoaringBitmap)
    ensures
        bitmap_values(bitmap) == Set::<u32>::empty(),
        bitmap_in_form(bitmap),
{
    RoaringBitmap::new()
}

/// Calls `RoaringBitmap::insert`. Trusted: the bitmap then holds `value` beside
/// what it held and is in form still, and the result says whether `value` is
/// new to it.
#[verifier::external_body]
pub(crate) fn bitmap_insert(bitmap: &mut RoaringBitmap, value: u32) -> (fresh: bool)
    requires
        bitmap_in_form(*old(bitmap)),
    ensures
        bitmap_values(*final(bitmap)) == bitmap_values(*old(bitmap)).insert(value),
        bitmap_in_form(*final(bitmap)),
        fresh == !bitmap_values(*old(bitmap)).contains(value),
{
    bitmap.insert(value)
}

/// Calls `RoaringBitmap::contains`. Trusted: the result says whether the bitmap
/// holds `value`.
#[verifier::external_body]
pub(crate) fn bitmap_contains(bitmap: &RoaringBitmap, value: u32) -> (held: bool)
    requires
        bitmap_in_form(*bitmap),
    ensures
        held == bitmap_values(*bitmap).contains(value),
{
    bitmap.contains(value)
}

/// Calls `RoaringBitmap::clone`. Trusted: the copy holds the same numbers, in
/// the same form.
#[verifier::external_body]
pub(crate) fn bitmap_clone(bitmap: &RoaringBitmap) -> (copy: RoaringBitmap)
    ensures
        bitmap_values(copy) == bitmap_values(*bitmap),
        bitmap_in_form(copy) == bitmap_in_form(*bitmap),
{
    bitmap.clone()
}

/// Calls `|=` of roaring, that is `BitOrAssign<&RoaringBitmap>` for
/// `RoaringBitmap`. Trusted: the bitmap then holds what either held, and is in
/// form still.
#[verifier::external_body]
pub(crate) fn bitmap_union_with(bitmap: &mut RoaringBitmap, other: &RoaringBitmap)
    requires
        bitmap_in_form(*old(bitmap)),
        bitmap_in_form(*other),
    ensures
        bitmap_values(*final(bitmap)) == bitmap_values(*old(bitmap)).union(bitmap_values(*other)),
        bitmap_in_form(*final(bitmap)),
{
    *bitmap |= other;
}

/// Calls `&=` of roaring, that is `BitAndAssign<&RoaringBitmap>` for
/// `RoaringBitmap`. Trusted: the bitmap then holds what both held, and is in
/// form still.
#[verifier::external_body]
pub(crate) fn bitmap_intersect_with(bitmap: &mut RoaringBitmap, other: &RoaringBitmap)
    requires
        bitmap_in_form(*old(bitmap)),
        bitmap_in_form(*other),
    ensures
        bitmap_values(*final(bitmap)) == bitmap_values(*old(bitmap)).intersect(
            bitmap_values(*other),
        ),
        bitmap_in_form(*final(bitmap)),
{
    *bitmap &= other;
}

/// Calls `-=` of roaring, that is `SubAssign<&RoaringBitmap>` for
/// `RoaringBitmap`. Trusted: the bitmap then holds what it held and `other` does
/// not, and is in form still.
#[verifier::external_body]
pub(crate) fn bitmap_difference_with(bitmap: &mut RoaringBitmap, other: &RoaringBitmap)
    requires
        bitmap_in_form(*old(bitmap)),
        bitmap_in_form(*other),
    ensures
        bitmap_values(*final(bitmap)) == bitmap_values(*old(bitmap)).difference(
            bitmap_values(*other),
        ),
        bitmap_in_form(*final(bitmap)),
{
    *bitmap -= other;
}

/// Calls `RoaringBitmap::iter` and collects what it yields. Trusted: these are the
/// numbers that the bitmap holds, each once, in ascending order.
#[verifier::external_body]
pub(crate) fn bitmap_to_vec(bitmap: &RoaringBitmap) -> (values: Vec<u32>)
    requires
        bitmap_in_form(*bitmap),
    ensures
        ascending(values@),
        values@.to_set() == bitmap_values(*bitmap),
{
    bitmap.iter().collect()
}

/// Calls `RoaringBitmap::serialize_into` on an empty vector. Trusted: the bytes
/// of a bitmap in form depend on the numbers held alone, and
/// `deserialize_from` reads the same numbers back out of them, in ascending
/// order.
#[verifier::external_body]
pub(crate) fn bitmap_serialize(bitmap: &RoaringBitmap) -> (bytes: Vec<u8>)
    requires
        bitmap_in_form(*bitmap),
    ensures
        bytes@ == serialized_values(bitmap_values(*bitmap)),
        reads_back(bytes@, bitmap_values(*bitmap)),
{
    let mut bytes = Vec::new();
    let _ = bitmap.serialize_into(&mut bytes);
    bytes
}

/// Calls `RoaringBitmap::deserialize_from` and collects what the bitmap it returns
/// yields. Trusted: the outcome depends on the bytes alone.
#[verifier::external_body]
pub(crate) fn bitmap_deserialize(bytes: &[u8]) -> (values: Option<Vec<u32>>)
    ensures
        match values {
            Some(values) => deserialized_values(bytes@) == Some(values@),
            None => deserialized_values(bytes@) is None,
        },
{
    match RoaringBitmap::deserialize_from(bytes) {
        Ok(bitmap) => Some(bitmap.iter().collect()),
        Err(_) => None,
    }
}

} // verus!
