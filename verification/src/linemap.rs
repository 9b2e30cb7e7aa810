//! Tables from three-byte windows to lines.
//!
//! The functions here state what the operations of [`DashMap`] and of the
//! tables of [`fxhash`] do to the entries that a table holds. A [`DashMap`] can
//! be changed through a shared reference too. Nothing in this crate does so: a
//! table is changed through an exclusive reference, when no other thread has it,
//! and what is stated of it holds as long as nobody else changes it otherwise.

use dashmap::DashMap;
use fxhash::{FxBuildHasher, FxHashMap, FxHashSet};
use roaring::RoaringBitmap;
use vstd::prelude::*;

use crate::bitmap::{bitmap_bytes, bitmap_ids, in_form, optimize_bitmap, optimized_bytes};

verus! {

/// A concurrent hash map.
#[verifier::external_type_specification]
#[verifier::external_body]
#[verifier::reject_recursive_types(K)]
#[verifier::reject_recursive_types(V)]
#[verifier::reject_recursive_types(S)]
pub struct ExDashMap<K, V, S>(dashmap::DashMap<K, V, S>);

/// The hasher of `fxhash`'s tables.
#[verifier::external_type_specification]
#[verifier::external_body]
pub struct ExFxHasher(fxhash::FxHasher);

/// The builder of that hasher.
#[verifier::external_type_specification]
#[verifier::external_body]
#[verifier::reject_recursive_types(H)]
pub struct ExBuildHasherDefault<H>(std::hash::BuildHasherDefault<H>);

/// Per three-byte window, the lines that contain it. `[u8; 3]` keys eliminate
/// character decoding overhead entirely; bitmaps compress identical or dense
/// line ids down to minimal bit ranges.
pub type CompressedTrigramIndex = DashMap<[u8; 3], RoaringBitmap, FxBuildHasher>;

/// Per three-byte window, the lines of a chunk that contain it, in order.
pub type LocalIndex = FxHashMap<[u8; 3], Vec<u32>>;

/// Three-byte windows already met in a line.
pub type SeenWindows = FxHashSet<[u8; 3]>;

/// The lines under each window of an index.
pub uninterp spec fn line_sets(index: CompressedTrigramIndex) -> Map<Seq<u8>, Set<u32>>;

/// How the bitmap under each window of an index is stored: its serialized form,
/// and whether its containers are organised as that form has them.
pub uninterp spec fn line_forms(index: CompressedTrigramIndex) -> Map<Seq<u8>, (Seq<u8>, bool)>;

/// The lines under each window of a local index.
pub uninterp spec fn line_lists(index: LocalIndex) -> Map<Seq<u8>, Seq<u32>>;

/// The windows of a set.
pub uninterp spec fn windows_seen(seen: SeenWindows) -> Set<Seq<u8>>;

/// The lines under a window, none if it is not listed.
pub open spec fn lines_at(sets: Map<Seq<u8>, Set<u32>>, window: Seq<u8>) -> Set<u32> {
    if sets.contains_key(window) {
        sets[window]
    } else {
        Set::empty()
    }
}

/// The lines under a window, none if it is not listed.
pub open spec fn list_at(lists: Map<Seq<u8>, Seq<u32>>, window: Seq<u8>) -> Seq<u32> {
    if lists.contains_key(window) {
        lists[window]
    } else {
        Seq::empty()
    }
}

/// Every bitmap is organised as its stored form has it.
pub open spec fn all_in_form(forms: Map<Seq<u8>, (Seq<u8>, bool)>) -> bool {
    forall|w: Seq<u8>| #[trigger] forms.contains_key(w) ==> forms[w].1
}

/// The stored form of every bitmap is that of an optimized one.
pub open spec fn all_optimized(forms: Map<Seq<u8>, (Seq<u8>, bool)>) -> bool {
    forall|w: Seq<u8>| #[trigger]
        forms.contains_key(w) ==> exists|bytes: Seq<u8>| forms[w].0 == #[trigger] optimized_bytes(bytes)
}

/// `DashMap::with_hasher`: an index without entries.
#[verifier::external_body]
pub(crate) fn new_index() -> (index: CompressedTrigramIndex)
    ensures
        forall|w: Seq<u8>| !#[trigger] line_sets(index).contains_key(w),
        forall|w: Seq<u8>| !#[trigger] line_forms(index).contains_key(w),
{
    DashMap::with_hasher(FxBuildHasher::default())
}

/// `DashMap::entry`, and `RoaringBitmap::extend` on what it leads to: the lines
/// are added under `window`, which is then listed. Nothing else changes; the
/// bitmap under `window` stays organised as its stored form has it. How its
/// bytes change is not stated.
#[verifier::external_body]
pub(crate) fn add_lines(index: &mut CompressedTrigramIndex, window: [u8; 3], lines: Vec<u32>)
    ensures
        line_sets(*final(index)) == line_sets(*old(index)).insert(
            window@,
            lines_at(line_sets(*old(index)), window@).union(lines@.to_set()),
        ),
        line_forms(*final(index)).remove(window@) == line_forms(*old(index)).remove(window@),
        line_forms(*final(index)).contains_key(window@),
        all_in_form(line_forms(*old(index))) ==> line_forms(*final(index))[window@].1,
{
    index.entry(window).or_default().extend(lines);
}

/// `DashMap::get`: a copy of the lines under `window`, if it is listed.
#[verifier::external_body]
pub(crate) fn get_lines(index: &CompressedTrigramIndex, window: [u8; 3]) -> (lines: Option<RoaringBitmap>)
    ensures
        lines is Some <==> line_sets(*index).contains_key(window@),
        lines matches Some(bitmap) ==> bitmap_ids(bitmap) == line_sets(*index)[window@],
{
    index.get(&window).map(|entry| entry.value().clone())
}

/// `DashMap::iter`: the window of every entry, in no stated order.
#[verifier::external_body]
pub(crate) fn list_windows(index: &CompressedTrigramIndex) -> (windows: Vec<[u8; 3]>)
    ensures
        forall|i: int| 0 <= i < windows@.len() ==> line_sets(*index).contains_key((#[trigger] windows@[i])@),
        forall|w: Seq<u8>| #[trigger]
            line_sets(*index).contains_key(w) ==> exists|i: int| 0 <= i < windows@.len() && (#[trigger] windows@[i])@ == w,
{
    index.iter().map(|entry| *entry.key()).collect()
}

/// `DashMap::alter_all` with [`compact_lines`]: every entry is replaced by what
/// that makes of it, which holds the same lines in an optimized form, if it was
/// organised as its stored form has it.
#[verifier::external_body]
pub(crate) fn compact_entries(index: &mut CompressedTrigramIndex)
    ensures
        line_sets(*final(index)) == line_sets(*old(index)),
        line_forms(*final(index)).dom() == line_forms(*old(index)).dom(),
        forall|w: Seq<u8>| #[trigger]
            line_forms(*final(index)).contains_key(w) && line_forms(*old(index))[w].1 ==> line_forms(*final(index))[w]
                == (optimized_bytes(line_forms(*old(index))[w].0), true),
{
    index.alter_all(compact_lines)
}

/// The same lines in a bitmap whose containers are optimized.
fn compact_lines(_window: &[u8; 3], lines: RoaringBitmap) -> (out: RoaringBitmap)
    ensures
        bitmap_ids(out) == bitmap_ids(lines),
        in_form(lines) ==> in_form(out) && bitmap_bytes(out) == optimized_bytes(bitmap_bytes(lines)),
{
    let mut out = lines;
    optimize_bitmap(&mut out);
    out
}

/// `FxHashMap::default`: a local index without entries.
#[verifier::external_body]
pub(crate) fn new_local() -> (index: LocalIndex)
    ensures
        forall|w: Seq<u8>| !#[trigger] line_lists(index).contains_key(w),
{
    FxHashMap::default()
}

/// `HashMap::remove` on a local index: the list under `window`, if it is listed,
/// is taken out and handed over.
#[verifier::external_body]
fn take_list(index: &mut LocalIndex, window: [u8; 3]) -> (lines: Option<Vec<u32>>)
    ensures
        line_lists(*final(index)) == line_lists(*old(index)).remove(window@),
        lines is Some <==> line_lists(*old(index)).contains_key(window@),
        lines matches Some(list) ==> list@ == line_lists(*old(index))[window@],
{
    index.remove(&window)
}

/// `HashMap::insert` on a local index: `lines` now stands under `window`.
#[verifier::external_body]
fn put_list(index: &mut LocalIndex, window: [u8; 3], lines: Vec<u32>)
    ensures
        line_lists(*final(index)) == line_lists(*old(index)).insert(window@, lines@),
{
    index.insert(window, lines);
}

/// Append the line under `window`, which is then listed.
pub(crate) fn push_line(index: &mut LocalIndex, window: [u8; 3], line: u32)
    ensures
        line_lists(*final(index)) == line_lists(*old(index)).insert(
            window@,
            list_at(line_lists(*old(index)), window@).push(line),
        ),
{
    let ghost before = line_lists(*index);
    let mut lines: Vec<u32> = match take_list(index, window) {
        Some(lines) => lines,
        None => Vec::new(),
    };
    lines.push(line);
    put_list(index, window, lines);
    assert(before.remove(window@).insert(window@, lines@) =~= before.insert(window@, lines@));
}

/// `HashMap::into_iter` on a local index: every entry once, in no stated order.
#[verifier::external_body]
pub(crate) fn list_entries(index: LocalIndex) -> (entries: Vec<([u8; 3], Vec<u32>)>)
    ensures
        forall|i: int, j: int| 0 <= i < j < entries@.len() ==> (#[trigger] entries@[i]).0@ != (#[trigger] entries@[j]).0@,
        forall|i: int|
            0 <= i < entries@.len() ==> line_lists(index).contains_key((#[trigger] entries@[i]).0@) && line_lists(
                index,
            )[entries@[i].0@] == entries@[i].1@,
        forall|w: Seq<u8>| #[trigger]
            line_lists(index).contains_key(w) ==> exists|i: int| 0 <= i < entries@.len() && (#[trigger] entries@[i]).0@ == w,
{
    index.into_iter().collect()
}

/// `FxHashSet::default`: a set without windows.
#[verifier::external_body]
pub(crate) fn new_seen() -> (seen: SeenWindows)
    ensures
        windows_seen(seen) == Set::<Seq<u8>>::empty(),
{
    FxHashSet::default()
}

/// `HashSet::insert` on windows: `window` is now a member; the result says
/// whether it was not one before.
#[verifier::external_body]
pub(crate) fn mark_seen(seen: &mut SeenWindows, window: [u8; 3]) -> (fresh: bool)
    ensures
        windows_seen(*final(seen)) == windows_seen(*old(seen)).insert(window@),
        fresh == !windows_seen(*old(seen)).contains(window@),
{
    seen.insert(window)
}

} // verus!
