//! Compressed sets of 32-bit ids.
//!
//! The functions here state what the operations of [`RoaringBitmap`] do to the
//! set of ids that a bitmap holds.

use roaring::RoaringBitmap;
use vstd::prelude::*;

verus! {

/// A compressed set of 32-bit ids.
#[verifier::external_type_specification]
#[verifier::external_body]
pub struct ExRoaringBitmap(roaring::RoaringBitmap);

/// The error of `std`'s readers and writers.
#[verifier::external_type_specification]
#[verifier::external_body]
pub struct ExIoError(std::io::Error);

/// The ids that a bitmap holds.
pub uninterp spec fn bitmap_ids(bitmap: RoaringBitmap) -> Set<u32>;

/// The portable serialized form of a bitmap. Two bitmaps that hold the same
/// ids in differently organised containers have different forms.
pub uninterp spec fn bitmap_bytes(bitmap: RoaringBitmap) -> Seq<u8>;

/// Every container of a bitmap is organised as the portable form has it: up to
/// 4096 ids as a list and more as bits, or as runs that do not touch. Only such
/// a bitmap is read back from its serialized form.
pub uninterp spec fn in_form(bitmap: RoaringBitmap) -> bool;

/// The serialized form of a bitmap once its containers are optimized, given the
/// form it has before.
pub uninterp spec fn optimized_bytes(form: Seq<u8>) -> Seq<u8>;

/// The ids of the serialized bitmap that `data` starts with and the number of
/// bytes it takes, or `None` if `data` does not start with one.
pub uninterp spec fn bitmap_parsed(data: Seq<u8>) -> Option<(Set<u32>, nat)>;

/// The ids in ascending order, each once.
pub open spec fn ascending(ids: Seq<u32>) -> bool {
    forall|i: int, j: int| 0 <= i < j < ids.len() ==> ids[i] < ids[j]
}

/// The members of a set, ascending.
pub open spec fn ascending_members(set: Set<u32>) -> Seq<u32> {
    choose|keys: Seq<u32>| #[trigger] ascending(keys) && keys.to_set() == set
}

/// Two ascending sequences with the same members are the same.
pub proof fn lemma_ascending_unique(a: Seq<u32>, b: Seq<u32>)
    requires
        ascending(a),
        ascending(b),
        a.to_set() == b.to_set(),
    ensures
        a == b,
    decreases a.len(),
{
    if a.len() == 0 || b.len() == 0 {
        if a.len() > 0 {
            assert(a.to_set().contains(a[0]));
        }
        if b.len() > 0 {
            assert(b.to_set().contains(b[0]));
        }
        assert(a =~= b);
    } else {
        let (x, y) = (a.last(), b.last());
        assert(b.to_set().contains(x)) by {
            assert(a.contains(a[a.len() - 1]));
        }
        assert(a.to_set().contains(y)) by {
            assert(b.contains(b[b.len() - 1]));
        }
        let i = choose|i: int| 0 <= i < b.len() && b[i] == x;
        let j = choose|j: int| 0 <= j < a.len() && a[j] == y;
        assert(x <= y);
        assert(y <= x);
        let (ai, bi) = (a.drop_last(), b.drop_last());
        assert forall|z: u32| ai.to_set().contains(z) == bi.to_set().contains(z) by {
            if ai.contains(z) {
                let k = choose|k: int| 0 <= k < ai.len() && ai[k] == z;
                assert(a[k] == z && z < x);
                assert(a.to_set().contains(z));
                assert(b.contains(z));
                let l = choose|l: int| 0 <= l < b.len() && b[l] == z;
                assert(bi[l] == z);
            }
            if bi.contains(z) {
                let k = choose|k: int| 0 <= k < bi.len() && bi[k] == z;
                assert(b[k] == z && z < y);
                assert(b.to_set().contains(z));
                assert(a.contains(z));
                let l = choose|l: int| 0 <= l < a.len() && a[l] == z;
                assert(ai[l] == z);
            }
        }
        assert(ai.to_set() =~= bi.to_set());
        lemma_ascending_unique(ai, bi);
        assert(a =~= ai.push(x));
        assert(b =~= bi.push(y));
    }
}

/// `RoaringBitmap::new`: a bitmap without ids.
#[verifier::external_body]
pub(crate) fn new_bitmap() -> (out: RoaringBitmap)
    ensures
        bitmap_ids(out) == Set::<u32>::empty(),
        in_form(out),
{
    RoaringBitmap::new()
}

/// `RoaringBitmap::clone`: a bitmap that holds the same ids in containers that
/// are organised alike.
#[verifier::external_body]
pub(crate) fn copy_bitmap(bitmap: &RoaringBitmap) -> (out: RoaringBitmap)
    ensures
        bitmap_ids(out) == bitmap_ids(*bitmap),
        bitmap_bytes(out) == bitmap_bytes(*bitmap),
        in_form(out) == in_form(*bitmap),
{
    bitmap.clone()
}

/// `RoaringBitmap::insert`: `id` is now held; the result says whether it was
/// absent before. The container it goes to is reorganised as its size asks.
#[verifier::external_body]
pub(crate) fn insert_id(bitmap: &mut RoaringBitmap, id: u32) -> (fresh: bool)
    ensures
        bitmap_ids(*final(bitmap)) == bitmap_ids(*old(bitmap)).insert(id),
        fresh == !bitmap_ids(*old(bitmap)).contains(id),
        in_form(*old(bitmap)) ==> in_form(*final(bitmap)),
{
    bitmap.insert(id)
}

/// `RoaringBitmap::remove`: `id` is no longer held; the result says whether it
/// was present before. The container it leaves is reorganised as its size asks.
#[verifier::external_body]
pub(crate) fn remove_id(bitmap: &mut RoaringBitmap, id: u32) -> (found: bool)
    ensures
        bitmap_ids(*final(bitmap)) == bitmap_ids(*old(bitmap)).remove(id),
        found == bitmap_ids(*old(bitmap)).contains(id),
        in_form(*old(bitmap)) ==> in_form(*final(bitmap)),
{
    bitmap.remove(id)
}

/// `RoaringBitmap::contains`: whether `id` is held.
#[verifier::external_body]
pub(crate) fn contains_id(bitmap: &RoaringBitmap, id: u32) -> (found: bool)
    ensures
        found == bitmap_ids(*bitmap).contains(id),
{
    bitmap.contains(id)
}

/// `RoaringBitmap::is_empty`: whether no id is held.
#[verifier::external_body]
pub(crate) fn is_empty_bitmap(bitmap: &RoaringBitmap) -> (empty: bool)
    ensures
        empty == (bitmap_ids(*bitmap) == Set::<u32>::empty()),
{
    bitmap.is_empty()
}

/// `RoaringBitmap::len`: the number of ids held.
#[verifier::external_body]
pub(crate) fn count_ids(bitmap: &RoaringBitmap) -> (count: u64)
    ensures
        count == bitmap_ids(*bitmap).len(),
{
    bitmap.len()
}

/// `RoaringBitmap::iter`: the ids in ascending order, each once.
#[verifier::external_body]
pub(crate) fn list_ids(bitmap: &RoaringBitmap) -> (ids: Vec<u32>)
    ensures
        ascending(ids@),
        ids@.to_set() == bitmap_ids(*bitmap),
{
    bitmap.iter().collect()
}

/// `RoaringBitmap::min`: the smallest id held, if there is one.
#[verifier::external_body]
pub(crate) fn smallest_id(bitmap: &RoaringBitmap) -> (id: Option<u32>)
    ensures
        id is None <==> bitmap_ids(*bitmap) == Set::<u32>::empty(),
        id matches Some(i) ==> bitmap_ids(*bitmap).contains(i) && forall|j: u32| #[trigger]
            bitmap_ids(*bitmap).contains(j) ==> i <= j,
{
    bitmap.min()
}

/// `&=` on bitmaps: the ids held by both remain.
#[verifier::external_body]
pub(crate) fn intersect_with(bitmap: &mut RoaringBitmap, other: &RoaringBitmap)
    ensures
        bitmap_ids(*final(bitmap)) == bitmap_ids(*old(bitmap)).intersect(bitmap_ids(*other)),
{
    *bitmap &= other;
}

/// `|=` on bitmaps: the ids held by either are now held. Containers that are
/// united are reorganised as their size asks.
#[verifier::external_body]
pub(crate) fn unite_with(bitmap: &mut RoaringBitmap, other: &RoaringBitmap)
    ensures
        bitmap_ids(*final(bitmap)) == bitmap_ids(*old(bitmap)).union(bitmap_ids(*other)),
        in_form(*old(bitmap)) && in_form(*other) ==> in_form(*final(bitmap)),
{
    *bitmap |= other;
}

/// `RoaringBitmap::optimize`: each container takes the smaller of its possible
/// forms, the ids held remain. Where the containers are organised as the
/// serialized form has them, it shows how, so the form that results depends on
/// the form before alone. It is not always shorter as a whole, since its header
/// can grow.
#[verifier::external_body]
pub(crate) fn optimize_bitmap(bitmap: &mut RoaringBitmap)
    ensures
        bitmap_ids(*final(bitmap)) == bitmap_ids(*old(bitmap)),
        in_form(*old(bitmap)) ==> in_form(*final(bitmap)) && bitmap_bytes(*final(bitmap)) == optimized_bytes(
            bitmap_bytes(*old(bitmap)),
        ),
{
    bitmap.optimize();
}

/// `RoaringBitmap::serialize_into` on a byte vector, which takes every write:
/// the portable form. If the containers are organised as it has them, it
/// delimits itself: whatever follows it, it is read back as a bitmap that holds
/// the same ids, and no further byte is read.
#[verifier::external_body]
pub(crate) fn write_bitmap(bitmap: &RoaringBitmap) -> (out: Vec<u8>)
    ensures
        out@ == bitmap_bytes(*bitmap),
        in_form(*bitmap) ==> forall|tail: Seq<u8>| #[trigger]
            bitmap_parsed(out@ + tail) == Some((bitmap_ids(*bitmap), out@.len())),
{
    let mut out = Vec::new();
    let _ = bitmap.serialize_into(&mut out);
    out
}

/// `RoaringBitmap::deserialize_from` on a byte slice: the bitmap that `data`
/// starts with and the bytes behind it, or an error if `data` does not start
/// with the portable form of one. Which of the two, and what the bitmap holds,
/// depends on `data` alone. Its containers are organised as they were read.
#[verifier::external_body]
pub(crate) fn read_bitmap(data: &[u8]) -> (out: Result<(RoaringBitmap, &[u8]), std::io::Error>)
    ensures
        out is Ok <==> bitmap_parsed(data@) is Some,
        out matches Ok((bitmap, rest)) ==> (bitmap_parsed(data@)->0).0 == bitmap_ids(bitmap) && (bitmap_parsed(
            data@,
        )->0).1 <= data@.len() && rest@ == data@.skip((bitmap_parsed(data@)->0).1 as int) && in_form(bitmap),
{
    let mut rest = data;
    RoaringBitmap::deserialize_from(&mut rest).map(|bitmap| (bitmap, rest))
}

} // verus!
