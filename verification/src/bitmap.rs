//! Compressed bitmaps of document ids, held in `roaring` bitmaps.  Contracts
//! speak of the set of keys a bitmap holds; every operation below is a thin
//! layer over one `roaring` call.

use vstd::prelude::*;

verus! {

#[verifier::external_type_specification]
#[verifier::external_body]
pub struct ExRoaringBitmap(roaring::RoaringBitmap);

#[verifier::external_type_specification]
#[verifier::external_body]
pub struct ExRoaringTreemap(roaring::RoaringTreemap);

/// The set of 32-bit keys a `roaring::RoaringBitmap` holds.
pub uninterp spec fn bm(b: roaring::RoaringBitmap) -> Set<u32>;

/// The set of 64-bit keys a `roaring::RoaringTreemap` holds.
pub uninterp spec fn tm(b: roaring::RoaringTreemap) -> Set<u64>;

/// Relies on `RoaringBitmap::new`: an empty bitmap.
#[verifier::external_body]
pub fn bm_new() -> (r: roaring::RoaringBitmap)
    ensures
        bm(r) == Set::<u32>::empty(),
        bm(r).finite(),
{
    roaring::RoaringBitmap::new()
}

/// Relies on `RoaringBitmap::insert`: adds one key.
#[verifier::external_body]
pub fn bm_insert(b: &mut roaring::RoaringBitmap, v: u32)
    ensures
        bm(*final(b)) == bm(*old(b)).insert(v),
        bm(*final(b)).finite(),
{
    b.insert(v);
}

/// Relies on `RoaringBitmap::remove`: takes one key out.
#[verifier::external_body]
pub fn bm_remove(b: &mut roaring::RoaringBitmap, v: u32) -> (r: bool)
    ensures
        bm(*final(b)) == bm(*old(b)).remove(v),
        r == bm(*old(b)).contains(v),
        bm(*final(b)).finite(),
{
    b.remove(v)
}

/// Relies on `RoaringBitmap::contains`.
#[verifier::external_body]
pub fn bm_contains(b: &roaring::RoaringBitmap, v: u32) -> (r: bool)
    ensures
        r == bm(*b).contains(v),
{
    b.contains(v)
}

/// Relies on `RoaringBitmap::is_empty`.
#[verifier::external_body]
pub fn bm_is_empty(b: &roaring::RoaringBitmap) -> (r: bool)
    ensures
        r == (bm(*b) =~= Set::<u32>::empty()),
{
    b.is_empty()
}

/// Relies on `RoaringBitmap::len`: the number of keys held.
#[verifier::external_body]
pub fn bm_len(b: &roaring::RoaringBitmap) -> (r: u64)
    ensures
        r == bm(*b).len(),
{
    b.len()
}

/// Relies on `RoaringBitmap`'s `Clone`: the copy holds the same keys.
#[verifier::external_body]
pub fn bm_clone(b: &roaring::RoaringBitmap) -> (r: roaring::RoaringBitmap)
    ensures
        bm(r) == bm(*b),
        bm(r).finite(),
{
    b.clone()
}

/// Relies on `BitOrAssign`: set union.
#[verifier::external_body]
pub fn bm_union_with(b: &mut roaring::RoaringBitmap, other: &roaring::RoaringBitmap)
    ensures
        bm(*final(b)) == bm(*old(b)).union(bm(*other)),
        bm(*final(b)).finite(),
{
    *b |= other;
}

/// Relies on `BitAndAssign`: set intersection.
#[verifier::external_body]
pub fn bm_intersect_with(b: &mut roaring::RoaringBitmap, other: &roaring::RoaringBitmap)
    ensures
        bm(*final(b)) == bm(*old(b)).intersect(bm(*other)),
        bm(*final(b)).finite(),
{
    *b &= other;
}

/// Relies on `SubAssign`: set difference.
#[verifier::external_body]
pub fn bm_difference_with(b: &mut roaring::RoaringBitmap, other: &roaring::RoaringBitmap)
    ensures
        bm(*final(b)) == bm(*old(b)).difference(bm(*other)),
        bm(*final(b)).finite(),
{
    *b -= other;
}

/// Relies on `BitXorAssign`: symmetric difference.
#[verifier::external_body]
pub fn bm_xor_with(b: &mut roaring::RoaringBitmap, other: &roaring::RoaringBitmap)
    ensures
        bm(*final(b)) == bm(*old(b)).difference(bm(*other)).union(
            bm(*other).difference(bm(*old(b))),
        ),
        bm(*final(b)).finite(),
{
    *b ^= other;
}

/// Relies on `RoaringBitmap::iter`: keys come out once each, in increasing
/// order.
#[verifier::external_body]
pub fn bm_to_vec(b: &roaring::RoaringBitmap) -> (r: Vec<u32>)
    ensures
        forall|i: int, j: int| 0 <= i < j < r@.len() ==> r@[i] < r@[j],
        forall|i: int| 0 <= i < r@.len() ==> bm(*b).contains(#[trigger] r@[i]),
        forall|v: u32| bm(*b).contains(v) ==> r@.contains(v),
{
    b.iter().collect()
}


/// Relies on `RoaringTreemap::new`: an empty map.
#[verifier::external_body]
pub fn tm_new() -> (r: roaring::RoaringTreemap)
    ensures
        tm(r) == Set::<u64>::empty(),
        tm(r).finite(),
{
    roaring::RoaringTreemap::new()
}

/// Relies on `RoaringTreemap::insert`: adds one key.
#[verifier::external_body]
pub fn tm_insert(b: &mut roaring::RoaringTreemap, v: u64)
    ensures
        tm(*final(b)) == tm(*old(b)).insert(v),
        tm(*final(b)).finite(),
{
    b.insert(v);
}

/// Relies on `RoaringTreemap::contains`.
#[verifier::external_body]
pub fn tm_contains(b: &roaring::RoaringTreemap, v: u64) -> (r: bool)
    ensures
        r == tm(*b).contains(v),
{
    b.contains(v)
}

/// Relies on `RoaringTreemap::is_empty`.
#[verifier::external_body]
pub fn tm_is_empty(b: &roaring::RoaringTreemap) -> (r: bool)
    ensures
        r == (tm(*b) =~= Set::<u64>::empty()),
{
    b.is_empty()
}

/// Relies on `RoaringTreemap::len`: the number of keys held.
#[verifier::external_body]
pub fn tm_len(b: &roaring::RoaringTreemap) -> (r: u64)
    ensures
        r == tm(*b).len(),
{
    b.len()
}

/// Relies on `RoaringTreemap::iter` and `len`: each of the `len()` held
/// keys comes out exactly once, in increasing order.
#[verifier::external_body]
pub fn tm_to_vec(b: &roaring::RoaringTreemap) -> (r: Vec<u64>)
    ensures
        forall|i: int, j: int| 0 <= i < j < r@.len() ==> r@[i] < r@[j],
        forall|i: int| 0 <= i < r@.len() ==> tm(*b).contains(#[trigger] r@[i]),
        forall|v: u64| tm(*b).contains(v) ==> r@.contains(v),
        r@.len() == tm(*b).len(),
{
    b.iter().collect()
}

} // verus!
