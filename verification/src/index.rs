//! The persisted trigram inverted index.
//!
//! Each distinct trigram maps to a [`RoaringBitmap`] of file ids that contain
//! it. Roaring bitmaps compress sorted integer sets aggressively (a trigram
//! present in every file of a 5k-file repo is a single bit-range, not 5k ids)
//! and intersect with SIMD-accelerated bitwise operations, which is exactly the
//! hot path of candidate selection. The on-disk format is a compact,
//! version-tagged binary blob.
//!
//! Paths are stored **relative to the index root** so an index is portable and
//! its output is clean.

use roaring::RoaringBitmap;
use rustc_hash::{FxHashMap, FxHashSet};
use vstd::prelude::*;
use vstd::slice::slice_subrange;

use crate::bitmap::{
    ascending, bitmap_bytes, bitmap_ids, contains_id, copy_bitmap, count_ids, in_form, insert_id, intersect_with, is_empty_bitmap, list_ids,
    new_bitmap, remove_id, smallest_id, unite_with,
};
use crate::fx;
use crate::paths::{all_differ, components, components_of, lists, same_path};
use crate::query::{recorded, Postings};
use crate::scanner::{binary, leading, starts_binary};
use crate::strings::{copy_bytes, strings_of, Strings};
use crate::trigram::{extract_distinct_folded, folded_set, lower, lower_byte, pack, trigrams, Trigram};

verus! {

/// How many leading bytes are sampled to tell a binary file from one to index.
pub const INDEX_SAMPLE: usize = 512;

#[derive(Debug, Clone, Copy, PartialEq, Eq, Structural)]
pub struct FileMeta {
    pub mtime_secs: i64,
    pub size: u64,
}

/// The metadata of a file of which none is known.
pub open spec fn no_meta() -> FileMeta {
    FileMeta { mtime_secs: 0, size: 0 }
}

impl Default for FileMeta {
    fn default() -> (out: FileMeta)
        ensures
            out == no_meta(),
    {
        FileMeta { mtime_secs: 0, size: 0 }
    }
}

#[derive(Debug)]
pub struct Index {
    /// File paths relative to the index root, sorted. The array index is the
    /// file id used in posting bitmaps.
    pub files: Vec<Vec<u8>>,
    /// Parallel to [`files`]; metadata used to detect changes for updates.
    pub metas: Vec<FileMeta>,
    pub postings: Postings,
    /// Ids whose files have been removed by an incremental update. Kept (not
    /// compacted) so the file ids in postings stay stable; resolved/iterated
    /// results skip them, and a later add may reuse the slot.
    pub removed_ids: RoaringBitmap,
    pub build_time_us: u128,
}

/// What could be read of a file: its metadata and its content.
#[derive(Debug)]
pub struct FileState {
    pub meta: Option<FileMeta>,
    pub bytes: Option<Vec<u8>>,
}

/// The trigrams that a file is indexed under: those of its content and of its
/// lowercased form, none if its leading sample marks it binary.
pub open spec fn content_trigrams(bytes: Seq<u8>) -> Set<Trigram> {
    if binary(leading(bytes, INDEX_SAMPLE as nat)) {
        Set::empty()
    } else {
        folded_set(bytes)
    }
}

impl FileState {
    /// The trigrams of the content that could be read.
    pub open spec fn trigrams(self) -> Set<Trigram> {
        match self.bytes {
            Some(bytes) => content_trigrams(bytes@),
            None => Set::empty(),
        }
    }

    /// Both metadata and content could be read.
    pub open spec fn is_complete(self) -> bool {
        self.meta is Some && self.bytes is Some
    }

    /// The trigrams that a fresh index holds for the file: it skips a file of
    /// which something could not be read.
    pub open spec fn built_trigrams(self) -> Set<Trigram> {
        if self.is_complete() {
            self.trigrams()
        } else {
            Set::empty()
        }
    }
}

/// The ids under `t`.
pub open spec fn ids_at(postings: Map<Trigram, RoaringBitmap>, t: Trigram) -> Set<u32> {
    if postings.contains_key(t) {
        bitmap_ids(postings[t])
    } else {
        Set::empty()
    }
}

/// Every bitmap of the postings is organised as its stored form has it.
pub open spec fn postings_in_form(postings: Map<Trigram, RoaringBitmap>) -> bool {
    forall|t: Trigram| #[trigger] postings.contains_key(t) ==> in_form(postings[t])
}

/// `after` is `before` with `id` added under each of the trigrams `set`.
pub open spec fn id_added(
    before: Map<Trigram, RoaringBitmap>,
    after: Map<Trigram, RoaringBitmap>,
    set: Set<Trigram>,
    id: u32,
) -> bool {
    &&& after.dom() == before.dom().union(set)
    &&& forall|t: Trigram| #[trigger]
        ids_at(after, t) == if set.contains(t) {
            ids_at(before, t).insert(id)
        } else {
            ids_at(before, t)
        }
}

/// `after` is `before` with `id` taken away under each of the trigrams `set`.
pub open spec fn id_taken(
    before: Map<Trigram, RoaringBitmap>,
    after: Map<Trigram, RoaringBitmap>,
    set: Set<Trigram>,
    id: u32,
) -> bool {
    &&& after.dom() == before.dom()
    &&& forall|t: Trigram| #[trigger]
        ids_at(after, t) == if set.contains(t) {
            ids_at(before, t).remove(id)
        } else {
            ids_at(before, t)
        }
}

/// Add `id` under `t`.
fn add_id(postings: &mut Postings, t: Trigram, id: u32)
    ensures
        postings_in_form(old(postings)@) ==> postings_in_form(final(postings)@),
        id_added(old(postings)@, final(postings)@, set![t], id),
{
    let ghost before = postings@;
    let mut bitmap = match fx::map_remove(postings, &t) {
        Some(bitmap) => bitmap,
        None => new_bitmap(),
    };
    insert_id(&mut bitmap, id);
    fx::map_insert(postings, t, bitmap);
    proof {
        assert(postings@.dom() =~= before.dom().union(set![t]));
        assert forall|u: Trigram| #[trigger] ids_at(postings@, u) == if set![t].contains(u) {
            ids_at(before, u).insert(id)
        } else {
            ids_at(before, u)
        } by {}
    }
}

/// Take `id` away under `t`.
fn take_id(postings: &mut Postings, t: Trigram, id: u32)
    ensures
        postings_in_form(old(postings)@) ==> postings_in_form(final(postings)@),
        id_taken(old(postings)@, final(postings)@, set![t], id),
{
    let ghost before = postings@;
    if let Some(bitmap) = fx::map_remove(postings, &t) {
        let mut bitmap = bitmap;
        remove_id(&mut bitmap, id);
        fx::map_insert(postings, t, bitmap);
    }
    proof {
        assert(postings@.dom() =~= before.dom());
        assert forall|u: Trigram| #[trigger] ids_at(postings@, u) == if set![t].contains(u) {
            ids_at(before, u).remove(id)
        } else {
            ids_at(before, u)
        } by {
            if !before.contains_key(t) {
                assert(postings@ =~= before);
                assert(ids_at(before, t).remove(id) =~= ids_at(before, t));
            }
        }
    }
}

/// Add `id` under each of the trigrams.
fn add_ids(postings: &mut Postings, trigrams: &Vec<Trigram>, id: u32)
    ensures
        postings_in_form(old(postings)@) ==> postings_in_form(final(postings)@),
        id_added(old(postings)@, final(postings)@, trigrams@.to_set(), id),
{
    let ghost before = postings@;
    let mut i: usize = 0;
    assert(trigrams@.take(0).to_set() =~= Set::empty());
    assert(before.dom() =~= before.dom().union(Set::empty()));
    while i < trigrams.len()
        invariant
            i <= trigrams@.len(),
            id_added(before, postings@, trigrams@.take(i as int).to_set(), id),
            postings_in_form(before) ==> postings_in_form(postings@),
        decreases trigrams@.len() - i,
    {
        let ghost mid = postings@;
        let ghost done = trigrams@.take(i as int).to_set();
        let t = trigrams[i];
        add_id(postings, t, id);
        proof {
            trigrams@.lemma_take_succ_push(i as int);
            trigrams@.take(i as int).lemma_push_to_set_commute(t);
            let more = trigrams@.take(i + 1).to_set();
            assert(more =~= done.insert(t));
            assert(postings@.dom() =~= before.dom().union(more));
            assert forall|u: Trigram| #[trigger] ids_at(postings@, u) == if more.contains(u) {
                ids_at(before, u).insert(id)
            } else {
                ids_at(before, u)
            } by {
                assert(ids_at(mid, u) == if done.contains(u) {
                    ids_at(before, u).insert(id)
                } else {
                    ids_at(before, u)
                });
                assert(ids_at(before, u).insert(id).insert(id) =~= ids_at(before, u).insert(id));
            }
        }
        i += 1;
    }
    assert(trigrams@.take(i as int) =~= trigrams@);
}

/// Take `id` away under each of the trigrams.
fn take_ids(postings: &mut Postings, trigrams: &Vec<Trigram>, id: u32)
    ensures
        postings_in_form(old(postings)@) ==> postings_in_form(final(postings)@),
        id_taken(old(postings)@, final(postings)@, trigrams@.to_set(), id),
{
    let ghost before = postings@;
    let mut i: usize = 0;
    assert(trigrams@.take(0).to_set() =~= Set::empty());
    while i < trigrams.len()
        invariant
            i <= trigrams@.len(),
            id_taken(before, postings@, trigrams@.take(i as int).to_set(), id),
            postings_in_form(before) ==> postings_in_form(postings@),
        decreases trigrams@.len() - i,
    {
        let ghost mid = postings@;
        let ghost done = trigrams@.take(i as int).to_set();
        let t = trigrams[i];
        take_id(postings, t, id);
        proof {
            trigrams@.lemma_take_succ_push(i as int);
            trigrams@.take(i as int).lemma_push_to_set_commute(t);
            let more = trigrams@.take(i + 1).to_set();
            assert(more =~= done.insert(t));
            assert forall|u: Trigram| #[trigger] ids_at(postings@, u) == if more.contains(u) {
                ids_at(before, u).remove(id)
            } else {
                ids_at(before, u)
            } by {
                assert(ids_at(mid, u) == if done.contains(u) {
                    ids_at(before, u).remove(id)
                } else {
                    ids_at(before, u)
                });
                assert(ids_at(before, u).remove(id).remove(id) =~= ids_at(before, u).remove(id));
            }
        }
        i += 1;
    }
    assert(trigrams@.take(i as int) =~= trigrams@);
}

/// The trigrams of a file's content (none for binary files).
pub fn content_trigram_set(bytes: &[u8]) -> (out: FxHashSet<Trigram>)
    ensures
        out@ == content_trigrams(bytes@),
{
    if starts_binary(bytes, INDEX_SAMPLE) {
        FxHashSet::default()
    } else {
        extract_distinct_folded(bytes)
    }
}

/// A file's distinct folded trigram set (empty for binary or unreadable files).
fn state_trigram_set(state: &FileState) -> (out: FxHashSet<Trigram>)
    ensures
        out@ == state.trigrams(),
{
    match &state.bytes {
        Some(bytes) => content_trigram_set(bytes),
        None => FxHashSet::default(),
    }
}

/// Index a file's (case-folded) trigrams into `map` under `id`, and return its
/// metadata. Binary files are recorded but not indexed; a file of which
/// something could not be read is neither.
pub fn index_file(state: &FileState, id: u32, map: &mut Postings) -> (meta: Option<FileMeta>)
    ensures
        postings_in_form(old(map)@) ==> postings_in_form(final(map)@),
        id_added(old(map)@, final(map)@, state.built_trigrams(), id),
        meta == if state.is_complete() {
            state.meta
        } else {
            None
        },
{
    let ghost before = map@;
    match (state.meta, &state.bytes) {
        (Some(meta), Some(bytes)) => {
            let set = content_trigram_set(bytes);
            let list = fx::set_items(&set);
            add_ids(map, &list, id);
            Some(meta)
        },
        _ => {
            assert(before.dom() =~= before.dom().union(Set::empty()));
            None
        },
    }
}

/// The postings and metadata of a run of files.
#[derive(Debug)]
pub struct ChunkResult {
    pub map: Postings,
    pub metas: Vec<(u32, FileMeta)>,
}

/// `postings` are exactly those of the files with the ids from `base` on:
/// an id stands under a trigram where the file has it, and no trigram is
/// listed that no file has.
pub open spec fn indexes(postings: Map<Trigram, RoaringBitmap>, states: Seq<FileState>, base: int) -> bool {
    &&& forall|t: Trigram, id: u32| #[trigger]
        ids_at(postings, t).contains(id) <==> base <= id < base + states.len() && states[id
            - base].built_trigrams().contains(t)
    &&& forall|t: Trigram| #[trigger]
        postings.contains_key(t) <==> exists|i: int|
            0 <= i < states.len() && (#[trigger] states[i]).built_trigrams().contains(t)
}

/// The metadata of the files that could be read, with their ids.
pub open spec fn state_metas(states: Seq<FileState>, base: int) -> Seq<(u32, FileMeta)>
    decreases states.len(),
{
    if states.len() == 0 {
        Seq::empty()
    } else {
        let init = state_metas(states.drop_last(), base);
        if states.last().is_complete() {
            init.push(((base + states.len() - 1) as u32, states.last().meta->0))
        } else {
            init
        }
    }
}

proof fn lemma_indexes_push(
    before: Map<Trigram, RoaringBitmap>,
    after: Map<Trigram, RoaringBitmap>,
    states: Seq<FileState>,
    n: int,
    base: int,
)
    requires
        0 <= n < states.len(),
        0 <= base,
        base + states.len() <= 0x1_0000_0000,
        indexes(before, states.take(n), base),
        id_added(before, after, states[n].built_trigrams(), (base + n) as u32),
    ensures
        indexes(after, states.take(n + 1), base),
{
    let (less, more) = (states.take(n), states.take(n + 1));
    let set = states[n].built_trigrams();
    assert forall|t: Trigram, id: u32| #[trigger] ids_at(after, t).contains(id) == (base <= id < base + more.len()
        && more[id - base].built_trigrams().contains(t)) by {
        assert(ids_at(before, t).contains(id) == (base <= id < base + less.len() && less[id
            - base].built_trigrams().contains(t)));
        assert(ids_at(after, t) == if set.contains(t) {
            ids_at(before, t).insert((base + n) as u32)
        } else {
            ids_at(before, t)
        });
    }
    assert forall|t: Trigram| #[trigger] after.contains_key(t) == (exists|i: int|
        0 <= i < more.len() && (#[trigger] more[i]).built_trigrams().contains(t)) by {
        assert(after.contains_key(t) == (before.contains_key(t) || set.contains(t)));
        if before.contains_key(t) {
            let i = choose|i: int| 0 <= i < less.len() && (#[trigger] less[i]).built_trigrams().contains(t);
            assert(more[i].built_trigrams().contains(t));
        }
        if set.contains(t) {
            assert(more[n].built_trigrams().contains(t));
        }
        if exists|i: int| 0 <= i < more.len() && (#[trigger] more[i]).built_trigrams().contains(t) {
            let i = choose|i: int| 0 <= i < more.len() && (#[trigger] more[i]).built_trigrams().contains(t);
            if i < n {
                assert(less[i].built_trigrams().contains(t));
            }
        }
    }
}

/// Index a run of files; the first has the id `base_id`.
pub fn index_chunk(states: &[FileState], base_id: u32) -> (out: ChunkResult)
    requires
        base_id + states@.len() <= 0x1_0000_0000,
    ensures
        indexes(out.map@, states@, base_id as int),
        out.metas@ == state_metas(states@, base_id as int),
        forall|i: int|
            0 <= i < out.metas@.len() ==> base_id <= (#[trigger] out.metas@[i]).0 < base_id + states@.len(),
        postings_in_form(out.map@),
{
    let mut map: Postings = FxHashMap::default();
    let mut metas: Vec<(u32, FileMeta)> = Vec::new();
    let mut i: usize = 0;
    while i < states.len()
        invariant
            i <= states@.len(),
            base_id + states@.len() <= 0x1_0000_0000,
            indexes(map@, states@.take(i as int), base_id as int),
            metas@ == state_metas(states@.take(i as int), base_id as int),
            forall|k: int| 0 <= k < metas@.len() ==> base_id <= (#[trigger] metas@[k]).0 < base_id + i,
            postings_in_form(map@),
        decreases states@.len() - i,
    {
        let ghost before = map@;
        let id = base_id + i as u32;
        let meta = index_file(&states[i], id, &mut map);
        proof {
            lemma_indexes_push(before, map@, states@, i as int, base_id as int);
            assert(states@.take(i + 1).drop_last() =~= states@.take(i as int));
        }
        if let Some(meta) = meta {
            metas.push((id, meta));
        }
        i += 1;
    }
    assert(states@.take(i as int) =~= states@);
    ChunkResult { map, metas }
}

/// How many files are handed to a worker at a time: an equal share, but no
/// fewer than 64 unless there are fewer files.
pub open spec fn share(n: nat, workers: nat) -> nat {
    let even = if n / workers < 64 {
        64
    } else {
        n / workers
    };
    let most = if n < 1 {
        1
    } else {
        n
    };
    if even < most {
        even
    } else {
        most
    }
}

/// How many of `n` files are handed to each of `workers` at a time.
pub fn chunk_size(n: usize, workers: usize) -> (out: usize)
    requires
        workers > 0,
    ensures
        out == share(n as nat, workers as nat),
        out > 0,
{
    let even: usize = if n / workers < 64 {
        64
    } else {
        n / workers
    };
    let most: usize = if n < 1 {
        1
    } else {
        n
    };
    if even < most {
        even
    } else {
        most
    }
}

/// Add everything that `from` lists to `into`.
fn merge_postings(into: &mut Postings, from: &Postings)
    ensures
        postings_in_form(old(into)@) && postings_in_form(from@) ==> postings_in_form(final(into)@),
        final(into)@.dom() == old(into)@.dom().union(from@.dom()),
        forall|t: Trigram| #[trigger]
            ids_at(final(into)@, t) == ids_at(old(into)@, t).union(ids_at(from@, t)),
{
    let ghost before = into@;
    let keys = fx::map_keys(from);
    let mut i: usize = 0;
    assert(keys@.take(0).to_set() =~= Set::empty());
    assert(before.dom() =~= before.dom().union(Set::empty()));
    while i < keys.len()
        invariant
            i <= keys@.len(),
            keys@.to_set() == from@.dom(),
            into@.dom() == before.dom().union(keys@.take(i as int).to_set()),
            postings_in_form(before) && postings_in_form(from@) ==> postings_in_form(into@),
            forall|t: Trigram| #[trigger]
                ids_at(into@, t) == if keys@.take(i as int).to_set().contains(t) {
                    ids_at(before, t).union(ids_at(from@, t))
                } else {
                    ids_at(before, t)
                },
        decreases keys@.len() - i,
    {
        let t = keys[i];
        let ghost mid = into@;
        let ghost done = keys@.take(i as int).to_set();
        proof {
            assert(keys@.contains(t));
            assert(from@.dom().contains(t));
        }
        let mut bitmap = match fx::map_remove(into, &t) {
            Some(bitmap) => bitmap,
            None => new_bitmap(),
        };
        if let Some(other) = fx::map_get(from, &t) {
            unite_with(&mut bitmap, other);
        }
        fx::map_insert(into, t, bitmap);
        proof {
            keys@.lemma_take_succ_push(i as int);
            keys@.take(i as int).lemma_push_to_set_commute(t);
            let more = keys@.take(i + 1).to_set();
            assert(more =~= done.insert(t));
            assert(into@.dom() =~= before.dom().union(more));
            assert forall|u: Trigram| #[trigger] ids_at(into@, u) == if more.contains(u) {
                ids_at(before, u).union(ids_at(from@, u))
            } else {
                ids_at(before, u)
            } by {
                assert(ids_at(mid, u) == if done.contains(u) {
                    ids_at(before, u).union(ids_at(from@, u))
                } else {
                    ids_at(before, u)
                });
                if u == t {
                    assert(ids_at(into@, t) =~= ids_at(before, t).union(ids_at(from@, t)));
                }
            }
        }
        i += 1;
    }
    assert(keys@.take(i as int) =~= keys@);
    assert forall|t: Trigram| #[trigger] ids_at(into@, t) == ids_at(before, t).union(ids_at(from@, t)) by {
        if !from@.dom().contains(t) {
            assert(ids_at(before, t).union(ids_at(from@, t)) =~= ids_at(before, t));
        }
    }
}

/// `metas` with each of `news` put at its place.
pub open spec fn metas_with(metas: Seq<FileMeta>, news: Seq<(u32, FileMeta)>) -> Seq<FileMeta>
    decreases news.len(),
{
    if news.len() == 0 {
        metas
    } else {
        metas_with(metas, news.drop_last()).update(news.last().0 as int, news.last().1)
    }
}

/// The metadata of all chunks, in order.
pub open spec fn chunk_metas(partials: Seq<ChunkResult>) -> Seq<(u32, FileMeta)>
    decreases partials.len(),
{
    if partials.len() == 0 {
        Seq::empty()
    } else {
        chunk_metas(partials.drop_last()) + partials.last().metas@
    }
}

/// Put each of `news` at its place in `metas`.
fn set_metas(metas: &mut Vec<FileMeta>, news: &Vec<(u32, FileMeta)>)
    requires
        forall|i: int| 0 <= i < news@.len() ==> (#[trigger] news@[i]).0 < old(metas)@.len(),
    ensures
        final(metas)@ == metas_with(old(metas)@, news@),
        final(metas)@.len() == old(metas)@.len(),
{
    let ghost before = metas@;
    let mut i: usize = 0;
    assert(news@.take(0) =~= Seq::empty());
    while i < news.len()
        invariant
            i <= news@.len(),
            before == old(metas)@,
            forall|i: int| 0 <= i < news@.len() ==> (#[trigger] news@[i]).0 < before.len(),
            metas@ == metas_with(before, news@.take(i as int)),
            metas@.len() == before.len(),
        decreases news@.len() - i,
    {
        let (id, meta) = news[i];
        assert(news@[i as int].0 < before.len());
        metas.set(id as usize, meta);
        assert(news@.take(i + 1).drop_last() =~= news@.take(i as int));
        i += 1;
    }
    assert(news@.take(i as int) =~= news@);
}

proof fn lemma_metas_with_add(metas: Seq<FileMeta>, a: Seq<(u32, FileMeta)>, b: Seq<(u32, FileMeta)>)
    ensures
        metas_with(metas, a + b) == metas_with(metas_with(metas, a), b),
    decreases b.len(),
{
    if b.len() == 0 {
        assert(a + b =~= a);
    } else {
        assert((a + b).drop_last() =~= a + b.drop_last());
        lemma_metas_with_add(metas, a, b.drop_last());
    }
}

/// `t` leads to `id` in one of the chunks.
pub open spec fn in_some_chunk(partials: Seq<ChunkResult>, t: Trigram, id: u32) -> bool {
    exists|k: int| 0 <= k < partials.len() && ids_at((#[trigger] partials[k]).map@, t).contains(id)
}

/// `t` is listed in one of the chunks.
pub open spec fn listed_in_some_chunk(partials: Seq<ChunkResult>, t: Trigram) -> bool {
    exists|k: int| 0 <= k < partials.len() && (#[trigger] partials[k]).map@.contains_key(t)
}

proof fn lemma_in_some_chunk(partials: Seq<ChunkResult>, n: int, t: Trigram, id: u32)
    requires
        0 <= n < partials.len(),
    ensures
        in_some_chunk(partials.take(n + 1), t, id) <==> in_some_chunk(partials.take(n), t, id) || ids_at(
            partials[n].map@,
            t,
        ).contains(id),
        listed_in_some_chunk(partials.take(n + 1), t) <==> listed_in_some_chunk(partials.take(n), t)
            || partials[n].map@.contains_key(t),
{
    let (less, more) = (partials.take(n), partials.take(n + 1));
    assert(more[n] == partials[n]);
    assert forall|k: int| 0 <= k < n implies #[trigger] less[k] == more[k] by {}
    assert forall|k: int| 0 <= k < n implies #[trigger] more[k] == less[k] by {}
}

/// Assemble a fresh index from the files and the chunks they were indexed in.
pub fn build(files: Vec<Vec<u8>>, partials: &Vec<ChunkResult>, build_time_us: u128) -> (index: Index)
    requires
        forall|k: int, i: int|
            0 <= k < partials@.len() && 0 <= i < partials@[k].metas@.len() ==> (#[trigger] partials@[k].metas@[i]).0
                < files@.len(),
    ensures
        index.files == files,
        index.metas@ == metas_with(Seq::new(files@.len(), |i: int| no_meta()), chunk_metas(partials@)),
        forall|t: Trigram, id: u32| #[trigger]
            ids_at(index.postings@, t).contains(id) <==> in_some_chunk(partials@, t, id),
        forall|t: Trigram| #[trigger] index.postings@.contains_key(t) <==> listed_in_some_chunk(partials@, t),
        bitmap_ids(index.removed_ids) == Set::<u32>::empty(),
        index.build_time_us == build_time_us,
        (forall|k: int| 0 <= k < partials@.len() ==> postings_in_form((#[trigger] partials@[k]).map@))
            ==> index.in_form(),
{
    let ghost kept = forall|k: int| 0 <= k < partials@.len() ==> postings_in_form((#[trigger] partials@[k]).map@);
    let ghost blank = Seq::new(files@.len(), |i: int| no_meta());
    let mut postings: Postings = FxHashMap::default();
    let mut metas: Vec<FileMeta> = Vec::with_capacity(files.len());
    let mut n: usize = 0;
    while n < files.len()
        invariant
            n <= files@.len(),
            blank == Seq::new(files@.len(), |i: int| no_meta()),
            metas@ =~= blank.take(n as int),
        decreases files@.len() - n,
    {
        metas.push(FileMeta::default());
        n += 1;
    }
    assert(metas@ =~= blank);
    let mut i: usize = 0;
    assert(partials@.take(0) =~= Seq::empty());
    while i < partials.len()
        invariant
            i <= partials@.len(),
            metas@.len() == files@.len(),
            blank == Seq::new(files@.len(), |i: int| no_meta()),
            forall|k: int, i: int|
                0 <= k < partials@.len() && 0 <= i < partials@[k].metas@.len() ==> (
                #[trigger] partials@[k].metas@[i]).0 < files@.len(),
            metas@ == metas_with(blank, chunk_metas(partials@.take(i as int))),
            forall|t: Trigram, id: u32| #[trigger]
                ids_at(postings@, t).contains(id) <==> in_some_chunk(partials@.take(i as int), t, id),
            forall|t: Trigram| #[trigger]
                postings@.contains_key(t) <==> listed_in_some_chunk(partials@.take(i as int), t),
            kept == (forall|k: int|
                0 <= k < partials@.len() ==> postings_in_form((#[trigger] partials@[k]).map@)),
            kept ==> postings_in_form(postings@),
        decreases partials@.len() - i,
    {
        let ghost before = postings@;
        set_metas(&mut metas, &partials[i].metas);
        merge_postings(&mut postings, &partials[i].map);
        proof {
            assert(partials@.take(i + 1).drop_last() =~= partials@.take(i as int));
            lemma_metas_with_add(blank, chunk_metas(partials@.take(i as int)), partials@[i as int].metas@);
            assert forall|t: Trigram, id: u32| #[trigger] ids_at(postings@, t).contains(id) == in_some_chunk(
                partials@.take(i + 1),
                t,
                id,
            ) by {
                lemma_in_some_chunk(partials@, i as int, t, id);
                assert(ids_at(before, t).contains(id) == in_some_chunk(partials@.take(i as int), t, id));
            }
            assert forall|t: Trigram| #[trigger] postings@.contains_key(t) == listed_in_some_chunk(
                partials@.take(i + 1),
                t,
            ) by {
                lemma_in_some_chunk(partials@, i as int, t, 0);
                assert(before.contains_key(t) == listed_in_some_chunk(partials@.take(i as int), t));
                assert(postings@.dom().contains(t) == (before.dom().contains(t) || partials@[i as int].map@.dom().contains(
                    t,
                )));
            }
        }
        i += 1;
    }
    assert(partials@.take(i as int) =~= partials@);
    Index { files, metas, postings, removed_ids: new_bitmap(), build_time_us }
}

/// Where chunk number `k` ends.
pub open spec fn chunk_end(total: nat, size: nat, k: nat) -> int {
    if (k + 1) * size < total {
        ((k + 1) * size) as int
    } else {
        total as int
    }
}

/// The files of chunk number `k`.
pub open spec fn chunk_of(states: Seq<FileState>, size: nat, k: nat) -> Seq<FileState> {
    states.subrange((k * size) as int, chunk_end(states.len(), size, k))
}

/// Chunk number `k` of `size` files is indexed from the id of its first file on.
pub open spec fn is_chunk(partials: Seq<ChunkResult>, states: Seq<FileState>, size: nat, k: nat) -> bool {
    let piece = chunk_of(states, size, k);
    &&& k * size <= states.len()
    &&& indexes(partials[k as int].map@, piece, (k * size) as int)
    &&& partials[k as int].metas@ == state_metas(piece, (k * size) as int)
}

/// `partials` are the chunks of `size` files (the last may be shorter) that
/// `states` fall into, each indexed from the id of its first file on.
pub open spec fn are_chunks(partials: Seq<ChunkResult>, states: Seq<FileState>, size: nat) -> bool {
    &&& size > 0
    &&& states.len() <= partials.len() * size
    &&& forall|k: nat| k < partials.len() ==> #[trigger] is_chunk(partials, states, size, k)
}

/// What is recorded of the metadata of `states`.
pub open spec fn built_metas(states: Seq<FileState>) -> Seq<FileMeta> {
    Seq::new(
        states.len(),
        |i: int|
            if states[i].is_complete() {
                states[i].meta->0
            } else {
                no_meta()
            },
    )
}

proof fn lemma_state_metas_add(a: Seq<FileState>, b: Seq<FileState>, base: int)
    ensures
        state_metas(a + b, base) == state_metas(a, base) + state_metas(b, base + a.len()),
    decreases b.len(),
{
    if b.len() == 0 {
        assert(a + b =~= a);
        assert(state_metas(a, base) + state_metas(b, base + a.len()) =~= state_metas(a, base));
    } else {
        assert((a + b).drop_last() =~= a + b.drop_last());
        lemma_state_metas_add(a, b.drop_last(), base);
        assert(state_metas(a + b, base) =~= state_metas(a, base) + state_metas(b, base + a.len()));
    }
}

proof fn lemma_chunk_metas(partials: Seq<ChunkResult>, states: Seq<FileState>, size: nat, n: nat)
    requires
        are_chunks(partials, states, size),
        n <= partials.len(),
    ensures
        chunk_metas(partials.take(n as int)) == state_metas(
            states.take(
                if n * size < states.len() {
                    (n * size) as int
                } else {
                    states.len() as int
                },
            ),
            0,
        ),
    decreases n,
{
    let end = if n * size < states.len() {
        (n * size) as int
    } else {
        states.len() as int
    };
    if n == 0 {
        assert(partials.take(0) =~= Seq::empty());
        assert(states.take(0) =~= Seq::empty());
        assert(end == 0) by (nonlinear_arith)
            requires
                n == 0,
                end == if n * size < states.len() {
                    (n * size) as int
                } else {
                    states.len() as int
                },
        ;
    } else {
        let k = (n - 1) as nat;
        lemma_chunk_metas(partials, states, size, k);
        assert(partials.take(n as int).drop_last() =~= partials.take(k as int));
        assert(partials.take(n as int).last() == partials[k as int]);
        let start = (k * size) as int;
        assert(is_chunk(partials, states, size, k));
        assert(k * size < states.len() || start == states.len());
        let prev = if k * size < states.len() {
            (k * size) as int
        } else {
            states.len() as int
        };
        assert(prev == start);
        assert(end == chunk_end(states.len(), size, k));
        assert(start <= end) by (nonlinear_arith)
            requires
                start == k * size,
                start <= states.len(),
                n == k + 1,
                end == if n * size < states.len() {
                    (n * size) as int
                } else {
                    states.len() as int
                },
        ;
        let piece = chunk_of(states, size, k);
        assert(states.take(start) + piece =~= states.take(end));
        lemma_state_metas_add(states.take(start), piece, 0);
    }
}

proof fn lemma_built_metas(states: Seq<FileState>, blank: Seq<FileMeta>, n: int)
    requires
        states.len() <= 0x1_0000_0000,
        0 <= n <= states.len(),
        blank == Seq::new(states.len(), |i: int| no_meta()),
    ensures
        metas_with(blank, state_metas(states.take(n), 0)) == Seq::new(
            states.len(),
            |i: int|
                if i < n {
                    built_metas(states)[i]
                } else {
                    no_meta()
                },
        ),
    decreases n,
{
    let now = metas_with(blank, state_metas(states.take(n), 0));
    let goal = Seq::new(
        states.len(),
        |i: int|
            if i < n {
                built_metas(states)[i]
            } else {
                no_meta()
            },
    );
    if n > 0 {
        lemma_built_metas(states, blank, n - 1);
        assert(states.take(n).drop_last() =~= states.take(n - 1));
        assert(states.take(n).last() == states[n - 1]);
        if states[n - 1].is_complete() {
            let init = state_metas(states.take(n - 1), 0);
            let last = ((n - 1) as u32, states[n - 1].meta->0);
            assert(init.push(last).drop_last() =~= init);
        }
    }
    assert(now =~= goal);
}

/// A fresh index does not depend on how the files were split into chunks: its
/// postings are exactly those of the files, and its metadata is theirs.
pub proof fn build_does_not_depend_on_chunks(
    partials: Seq<ChunkResult>,
    states: Seq<FileState>,
    size: nat,
    postings: Map<Trigram, RoaringBitmap>,
)
    requires
        states.len() <= 0x1_0000_0000,
        are_chunks(partials, states, size),
        forall|t: Trigram, id: u32| #[trigger]
            ids_at(postings, t).contains(id) <==> in_some_chunk(partials, t, id),
        forall|t: Trigram| #[trigger] postings.contains_key(t) <==> listed_in_some_chunk(partials, t),
    ensures
        indexes(postings, states, 0),
        metas_with(Seq::new(states.len(), |i: int| no_meta()), chunk_metas(partials)) == built_metas(states),
{
    assert forall|t: Trigram, id: u32| #[trigger] ids_at(postings, t).contains(id) == (0 <= id < states.len()
        && states[id as int].built_trigrams().contains(t)) by {
        if in_some_chunk(partials, t, id) {
            let k = choose|k: int| 0 <= k < partials.len() && ids_at((#[trigger] partials[k]).map@, t).contains(id);
            let piece = chunk_of(states, size, k as nat);
            let start = k * size;
            assert(is_chunk(partials, states, size, k as nat));
            assert(start <= chunk_end(states.len(), size, k as nat)) by (nonlinear_arith)
                requires
                    start == k * size,
                    start <= states.len(),
                    k >= 0,
            ;
            assert(piece[id - start] == states[id as int]);
        }
        if id < states.len() && states[id as int].built_trigrams().contains(t) {
            let k = id as int / size as int;
            vstd::arithmetic::div_mod::lemma_fundamental_div_mod(id as int, size as int);
            assert(0 <= k && k * size <= id < (k + 1) * size) by (nonlinear_arith)
                requires
                    id as int == size * k + (id as int % size as int),
                    0 <= (id as int % size as int) < size,
                    size > 0,
                    id >= 0,
            ;
            assert(k < partials.len()) by (nonlinear_arith)
                requires
                    k * size <= id,
                    id < states.len(),
                    states.len() <= partials.len() * size,
                    size > 0,
            ;
            let piece = chunk_of(states, size, k as nat);
            assert(is_chunk(partials, states, size, k as nat));
            assert(piece[id - k * size] == states[id as int]);
            assert(ids_at(partials[k].map@, t).contains(id));
        }
    }
    assert forall|t: Trigram| #[trigger] postings.contains_key(t) == (exists|i: int|
        0 <= i < states.len() && (#[trigger] states[i]).built_trigrams().contains(t)) by {
        if listed_in_some_chunk(partials, t) {
            let k = choose|k: int| 0 <= k < partials.len() && (#[trigger] partials[k]).map@.contains_key(t);
            assert(is_chunk(partials, states, size, k as nat));
            let piece = chunk_of(states, size, k as nat);
            let i = choose|i: int| 0 <= i < piece.len() && (#[trigger] piece[i]).built_trigrams().contains(t);
            let start = k * size;
            assert(0 <= start <= chunk_end(states.len(), size, k as nat)) by (nonlinear_arith)
                requires
                    start == k * size,
                    start <= states.len(),
                    k >= 0,
            ;
            assert(states[start + i] == piece[i]);
        }
        if exists|i: int| 0 <= i < states.len() && (#[trigger] states[i]).built_trigrams().contains(t) {
            let i = choose|i: int| 0 <= i < states.len() && (#[trigger] states[i]).built_trigrams().contains(t);
            assert(ids_at(postings, t).contains(i as u32));
            assert(postings.contains_key(t));
        }
    }
    lemma_chunk_metas(partials, states, size, partials.len());
    assert(partials.take(partials.len() as int) =~= partials);
    assert(states.take(states.len() as int) =~= states);
    let blank = Seq::new(states.len(), |i: int| no_meta());
    lemma_built_metas(states, blank, states.len() as int);
    assert(metas_with(blank, chunk_metas(partials)) =~= built_metas(states));
}

/// Build a fresh index from what was read of the files, a chunk at a time.
pub fn build_from_states(
    files: Vec<Vec<u8>>,
    states: &Vec<FileState>,
    workers: usize,
    build_time_us: u128,
) -> (index: Index)
    requires
        files@.len() == states@.len() <= 0x1_0000_0000,
        workers > 0,
    ensures
        index.files == files,
        index.metas@ == built_metas(states@),
        indexes(index.postings@, states@, 0),
        bitmap_ids(index.removed_ids) == Set::<u32>::empty(),
        index.build_time_us == build_time_us,
        index.well_formed(),
        index.in_form(),
{
    let n = states.len();
    let size = chunk_size(n, workers);
    let mut partials: Vec<ChunkResult> = Vec::new();
    let mut start: usize = 0;
    let ghost step = size as nat;
    assert(0 * step == 0);
    while start < n
        invariant
            n == states@.len() == files@.len() <= 0x1_0000_0000,
            step == size > 0,
            start <= n,
            start < n ==> start == partials@.len() * step,
            start <= partials@.len() * step,
            forall|k: nat| k < partials@.len() ==> #[trigger] is_chunk(partials@, states@, step, k),
            forall|k: int, i: int|
                0 <= k < partials@.len() && 0 <= i < partials@[k].metas@.len() ==> (#[trigger] partials@[k].metas@[i]).0
                    < files@.len(),
            forall|k: int| 0 <= k < partials@.len() ==> postings_in_form((#[trigger] partials@[k]).map@),
        decreases n - start,
    {
        let end = if n - start < size {
            n
        } else {
            start + size
        };
        let part = slice_subrange(states.as_slice(), start, end);
        let ghost before = partials@;
        let chunk = index_chunk(part, start as u32);
        partials.push(chunk);
        proof {
            let count = before.len();
            assert forall|k: int, i: int|
                0 <= k < partials@.len() && 0 <= i < partials@[k].metas@.len() implies (#[trigger] partials@[k].metas@[i]).0
                < files@.len() by {
                if k < count {
                    assert(partials@[k] == before[k]);
                    assert(before[k].metas@[i].0 < files@.len());
                } else {
                    assert(chunk.metas@[i].0 < start + part@.len());
                }
            }
            assert((count + 1) * step == count * step + step) by (nonlinear_arith);
            assert(part@ =~= chunk_of(states@, step, count));
            assert forall|k: nat| k < partials@.len() implies #[trigger] is_chunk(partials@, states@, step, k) by {
                if k < count {
                    assert(is_chunk(before, states@, step, k));
                }
            }
        }
        start = end;
    }
    let index = build(files, &partials, build_time_us);
    proof {
        build_does_not_depend_on_chunks(partials@, states@, size as nat, index.postings@);
        assert forall|t: Trigram, id: u32| #[trigger]
            ids_at(index.postings@, t).contains(id) implies id < index.files@.len() && !bitmap_ids(
            index.removed_ids,
        ).contains(id) by {}
    }
    index
}

/// What an index holds under one file id.
#[verifier::ext_equal]
pub struct Slot {
    pub path: Seq<u8>,
    pub meta: FileMeta,
    /// The trigrams whose postings list the id.
    pub trigrams: Set<Trigram>,
    /// The file has not been removed.
    pub live: bool,
}

impl Index {
    /// Metadata is parallel to the files, ids fit, removed ids are ids of
    /// files, and postings list only ids of files that are not removed.
    pub open spec fn well_formed(self) -> bool {
        &&& self.metas@.len() == self.files@.len() <= 0x1_0000_0000
        &&& forall|id: u32| #[trigger] bitmap_ids(self.removed_ids).contains(id) ==> id < self.files@.len()
        &&& forall|t: Trigram, id: u32| #[trigger]
            ids_at(self.postings@, t).contains(id) ==> id < self.files@.len() && !bitmap_ids(self.removed_ids).contains(
                id,
            )
    }

    /// Every bitmap of the index is organised as its stored form has it.
    pub open spec fn in_form(self) -> bool {
        postings_in_form(self.postings@) && in_form(self.removed_ids)
    }

    /// What the index holds, by file id.
    pub open spec fn slots(self) -> Seq<Slot> {
        Seq::new(
            self.files@.len(),
            |i: int|
                Slot {
                    path: self.files@[i]@,
                    meta: self.metas@[i],
                    trigrams: recorded(self.postings@, i as u32),
                    live: !bitmap_ids(self.removed_ids).contains(i as u32),
                },
        )
    }
}

/// A removed file: its slot stays, without trigrams.
pub open spec fn slot_removed(slot: Slot) -> Slot {
    Slot { trigrams: Set::empty(), live: false, ..slot }
}

/// A changed file: the trigrams it has now, and its metadata if it could be
/// read.
pub open spec fn slot_changed(slot: Slot, state: FileState) -> Slot {
    Slot {
        trigrams: state.trigrams(),
        meta: match state.meta {
            Some(meta) => meta,
            None => slot.meta,
        },
        ..slot
    }
}

/// A new file.
pub open spec fn slot_added(path: Seq<u8>, state: FileState) -> Slot {
    Slot {
        path,
        meta: match state.meta {
            Some(meta) => meta,
            None => no_meta(),
        },
        trigrams: state.trigrams(),
        live: true,
    }
}

/// The first slot of a removed file, or the number of slots.
pub open spec fn first_dead(slots: Seq<Slot>) -> int
    decreases slots.len(),
{
    if slots.len() == 0 {
        0
    } else if first_dead(slots.drop_last()) < slots.len() - 1 {
        first_dead(slots.drop_last())
    } else if slots.last().live {
        slots.len() as int
    } else {
        slots.len() - 1
    }
}

/// `slots` with a new file in the first slot of a removed one, or at the end.
pub open spec fn with_added(slots: Seq<Slot>, slot: Slot) -> Seq<Slot> {
    let at = first_dead(slots);
    if at < slots.len() {
        slots.update(at, slot)
    } else {
        slots.push(slot)
    }
}

proof fn lemma_first_dead(slots: Seq<Slot>)
    ensures
        0 <= first_dead(slots) <= slots.len(),
        first_dead(slots) < slots.len() ==> !slots[first_dead(slots)].live,
        forall|i: int| 0 <= i < first_dead(slots) ==> (#[trigger] slots[i]).live,
    decreases slots.len(),
{
    if slots.len() > 0 {
        let init = slots.drop_last();
        lemma_first_dead(init);
        assert forall|i: int| 0 <= i < init.len() implies #[trigger] slots[i] == init[i] by {}
    }
}

/// The trigrams currently indexed for `id`, reconstructed from the posting
/// bitmaps. This is exactly the file's indexed folded-trigram set.
fn trigrams_of(postings: &Postings, id: u32) -> (out: Vec<Trigram>)
    ensures
        out@.to_set() == recorded(postings@, id),
{
    let keys = fx::map_keys(postings);
    let mut out: Vec<Trigram> = Vec::new();
    let mut i: usize = 0;
    while i < keys.len()
        invariant
            i <= keys@.len(),
            keys@.to_set() == postings@.dom(),
            forall|t: Trigram| #[trigger]
                out@.contains(t) <==> keys@.take(i as int).contains(t) && recorded(postings@, id).contains(t),
        decreases keys@.len() - i,
    {
        let t = keys[i];
        let ghost before = out@;
        proof {
            assert(keys@.contains(t));
            assert(postings@.dom().contains(t));
            keys@.lemma_take_succ_push(i as int);
        }
        if let Some(bitmap) = fx::map_get(postings, &t) {
            if contains_id(bitmap, id) {
                out.push(t);
            }
        }
        proof {
            broadcast use vstd::seq_lib::group_seq_properties;

            assert(keys@.take(i + 1) =~= keys@.take(i as int).push(t));
            assert forall|u: Trigram| #[trigger] out@.contains(u) == (keys@.take(i + 1).contains(u) && recorded(
                postings@,
                id,
            ).contains(u)) by {
                assert(before.contains(u) == (keys@.take(i as int).contains(u) && recorded(postings@, id).contains(u)));
            }
        }
        i += 1;
    }
    proof {
        assert(keys@.take(i as int) =~= keys@);
        assert forall|t: Trigram| out@.to_set().contains(t) == recorded(postings@, id).contains(t) by {
            assert(out@.contains(t) == (keys@.contains(t) && recorded(postings@, id).contains(t)));
            assert(keys@.to_set().contains(t) == keys@.contains(t));
        }
        assert(out@.to_set() =~= recorded(postings@, id));
    }
    out
}

proof fn lemma_recorded(postings: Map<Trigram, RoaringBitmap>, t: Trigram, id: u32)
    ensures
        recorded(postings, id).contains(t) <==> ids_at(postings, t).contains(id),
{
}

/// Taking an id away touches that id alone.
proof fn lemma_id_taken(
    before: Map<Trigram, RoaringBitmap>,
    after: Map<Trigram, RoaringBitmap>,
    set: Set<Trigram>,
    id: u32,
    other: u32,
)
    requires
        id_taken(before, after, set, id),
    ensures
        recorded(after, other) == if other == id {
            recorded(before, id).difference(set)
        } else {
            recorded(before, other)
        },
{
    let goal = if other == id {
        recorded(before, id).difference(set)
    } else {
        recorded(before, other)
    };
    assert forall|t: Trigram| recorded(after, other).contains(t) == goal.contains(t) by {
        lemma_recorded(before, t, other);
        lemma_recorded(after, t, other);
        assert(ids_at(after, t) == if set.contains(t) {
            ids_at(before, t).remove(id)
        } else {
            ids_at(before, t)
        });
    }
    assert(recorded(after, other) =~= goal);
}

/// Adding an id touches that id alone.
proof fn lemma_id_added(
    before: Map<Trigram, RoaringBitmap>,
    after: Map<Trigram, RoaringBitmap>,
    set: Set<Trigram>,
    id: u32,
    other: u32,
)
    requires
        id_added(before, after, set, id),
    ensures
        recorded(after, other) == if other == id {
            recorded(before, id).union(set)
        } else {
            recorded(before, other)
        },
{
    let goal = if other == id {
        recorded(before, id).union(set)
    } else {
        recorded(before, other)
    };
    assert forall|t: Trigram| recorded(after, other).contains(t) == goal.contains(t) by {
        lemma_recorded(before, t, other);
        lemma_recorded(after, t, other);
        assert(ids_at(after, t) == if set.contains(t) {
            ids_at(before, t).insert(id)
        } else {
            ids_at(before, t)
        });
    }
    assert(recorded(after, other) =~= goal);
}

/// Remove a file's contribution from every posting and mark its id dead.
pub fn remove_file(index: &mut Index, id: u32)
    requires
        old(index).well_formed(),
        id < old(index).files@.len(),
    ensures
        final(index).well_formed(),
        old(index).in_form() ==> final(index).in_form(),
        final(index).slots() == old(index).slots().update(id as int, slot_removed(old(index).slots()[id as int])),
        final(index).postings@.dom() == old(index).postings@.dom(),
        final(index).build_time_us == old(index).build_time_us,
{
    let ghost before = *index;
    let trigrams = trigrams_of(&index.postings, id);
    take_ids(&mut index.postings, &trigrams, id);
    insert_id(&mut index.removed_ids, id);
    proof {
        let set = trigrams@.to_set();
        assert forall|j: u32| recorded(index.postings@, j) == if j == id {
            Set::<Trigram>::empty()
        } else {
            recorded(before.postings@, j)
        } by {
            lemma_id_taken(before.postings@, index.postings@, set, id, j);
            assert(recorded(before.postings@, id).difference(set) =~= Set::empty());
        }
        assert forall|t: Trigram, j: u32| #[trigger] ids_at(index.postings@, t).contains(j) implies j
            < index.files@.len() && !bitmap_ids(index.removed_ids).contains(j) by {
            lemma_recorded(index.postings@, t, j);
            lemma_recorded(before.postings@, t, j);
            assert(recorded(index.postings@, j) == if j == id {
                Set::<Trigram>::empty()
            } else {
                recorded(before.postings@, j)
            });
            assert(ids_at(before.postings@, t).contains(j));
        }
        assert(index.slots() =~= before.slots().update(id as int, slot_removed(before.slots()[id as int])));
    }
}

/// The members of `a` that `b` lacks.
fn difference(a: &FxHashSet<Trigram>, b: &FxHashSet<Trigram>) -> (out: Vec<Trigram>)
    ensures
        out@.to_set() == a@.difference(b@),
{
    let items = fx::set_items(a);
    let mut out: Vec<Trigram> = Vec::new();
    let mut i: usize = 0;
    while i < items.len()
        invariant
            i <= items@.len(),
            forall|t: Trigram| #[trigger]
                out@.contains(t) <==> items@.take(i as int).contains(t) && !b@.contains(t),
        decreases items@.len() - i,
    {
        let t = items[i];
        let ghost before = out@;
        if !fx::set_contains(b, &t) {
            out.push(t);
        }
        proof {
            broadcast use vstd::seq_lib::group_seq_properties;

            items@.lemma_take_succ_push(i as int);
            assert forall|u: Trigram| #[trigger] out@.contains(u) == (items@.take(i + 1).contains(u) && !b@.contains(
                u,
            )) by {
                assert(before.contains(u) == (items@.take(i as int).contains(u) && !b@.contains(u)));
            }
        }
        i += 1;
    }
    proof {
        assert(items@.take(i as int) =~= items@);
        assert forall|t: Trigram| out@.to_set().contains(t) == a@.difference(b@).contains(t) by {
            assert(out@.contains(t) == (items@.contains(t) && !b@.contains(t)));
            assert(items@.to_set().contains(t) == items@.contains(t));
        }
        assert(out@.to_set() =~= a@.difference(b@));
    }
    out
}

/// Collect trigrams into a set.
fn to_set(trigrams: &Vec<Trigram>) -> (out: FxHashSet<Trigram>)
    ensures
        out@ == trigrams@.to_set(),
{
    let mut out: FxHashSet<Trigram> = FxHashSet::default();
    let mut i: usize = 0;
    assert(trigrams@.take(0).to_set() =~= Set::empty());
    while i < trigrams.len()
        invariant
            i <= trigrams@.len(),
            out@ == trigrams@.take(i as int).to_set(),
        decreases trigrams@.len() - i,
    {
        fx::set_insert(&mut out, trigrams[i]);
        proof {
            trigrams@.lemma_take_succ_push(i as int);
            trigrams@.take(i as int).lemma_push_to_set_commute(trigrams@[i as int]);
        }
        i += 1;
    }
    assert(trigrams@.take(i as int) =~= trigrams@);
    out
}

/// Patch a changed file: remove trigrams it no longer has, add new ones. Keeps
/// its id stable. Its metadata is refreshed if the file is readable.
pub fn patch_changed(index: &mut Index, id: u32, state: &FileState)
    requires
        old(index).well_formed(),
        id < old(index).files@.len(),
        old(index).slots()[id as int].live,
    ensures
        final(index).well_formed(),
        old(index).in_form() ==> final(index).in_form(),
        final(index).slots() == old(index).slots().update(id as int, slot_changed(old(index).slots()[id as int], *state)),
        final(index).postings@.dom() == old(index).postings@.dom().union(state.trigrams()),
        final(index).build_time_us == old(index).build_time_us,
{
    let ghost before = *index;
    let old_list = trigrams_of(&index.postings, id);
    let old_set = to_set(&old_list);
    let new_set = state_trigram_set(state);
    let stale = difference(&old_set, &new_set);
    let fresh = difference(&new_set, &old_set);
    take_ids(&mut index.postings, &stale, id);
    let ghost mid = index.postings@;
    add_ids(&mut index.postings, &fresh, id);
    if let Some(meta) = state.meta {
        index.metas.set(id as usize, meta);
    }
    proof {
        assert forall|j: u32| recorded(index.postings@, j) == if j == id {
            state.trigrams()
        } else {
            recorded(before.postings@, j)
        } by {
            lemma_id_taken(before.postings@, mid, stale@.to_set(), id, j);
            lemma_id_added(mid, index.postings@, fresh@.to_set(), id, j);
            assert(recorded(before.postings@, id).difference(stale@.to_set()).union(fresh@.to_set())
                =~= state.trigrams());
        }
        assert(index.postings@.dom() =~= before.postings@.dom().union(state.trigrams())) by {
            assert forall|t: Trigram| state.trigrams().contains(t) && !fresh@.to_set().contains(t) implies before.postings@.dom().contains(
                t,
            ) by {
                assert(recorded(before.postings@, id).contains(t));
            }
        }
        assert forall|t: Trigram, j: u32| #[trigger] ids_at(index.postings@, t).contains(j) implies j
            < index.files@.len() && !bitmap_ids(index.removed_ids).contains(j) by {
            lemma_recorded(index.postings@, t, j);
            lemma_recorded(before.postings@, t, j);
            assert(recorded(index.postings@, j) == if j == id {
                state.trigrams()
            } else {
                recorded(before.postings@, j)
            });
            if j != id {
                assert(ids_at(before.postings@, t).contains(j));
            }
        }
        assert(index.slots() =~= before.slots().update(id as int, slot_changed(before.slots()[id as int], *state)));
    }
}

/// Index a brand-new file, reusing a dead id if one is available.
pub fn add_file(index: &mut Index, rel: &[u8], state: &FileState)
    requires
        old(index).well_formed(),
        bitmap_ids(old(index).removed_ids) == Set::<u32>::empty() ==> old(index).files@.len() < 0x1_0000_0000,
    ensures
        final(index).well_formed(),
        old(index).in_form() ==> final(index).in_form(),
        final(index).slots() == with_added(old(index).slots(), slot_added(rel@, *state)),
        final(index).postings@.dom() == old(index).postings@.dom().union(state.trigrams()),
        final(index).build_time_us == old(index).build_time_us,
{
    let ghost before = *index;
    let meta = match state.meta {
        Some(meta) => meta,
        None => FileMeta::default(),
    };
    let dead = smallest_id(&index.removed_ids);
    let id: u32 = match dead {
        Some(dead) => {
            remove_id(&mut index.removed_ids, dead);
            index.files.set(dead as usize, copy_bytes(rel));
            index.metas.set(dead as usize, meta);
            dead
        },
        None => {
            let id = index.files.len() as u32;
            index.files.push(copy_bytes(rel));
            index.metas.push(meta);
            id
        },
    };
    let set = state_trigram_set(state);
    let list = fx::set_items(&set);
    add_ids(&mut index.postings, &list, id);
    proof {
        lemma_first_dead(before.slots());
        let at = first_dead(before.slots());
        if let Some(d) = dead {
            assert(!before.slots()[d as int].live);
            if at < d {
                assert(bitmap_ids(before.removed_ids).contains(at as u32));
            }
            assert(at == d);
        } else {
            if at < before.slots().len() {
                assert(bitmap_ids(before.removed_ids).contains(at as u32));
            }
            assert(at == before.slots().len());
        }
        assert(id == at);
        assert(recorded(before.postings@, id) =~= Set::empty()) by {
            assert forall|t: Trigram| !recorded(before.postings@, id).contains(t) by {
                lemma_recorded(before.postings@, t, id);
                if ids_at(before.postings@, t).contains(id) {
                    assert(false);
                }
            }
        }
        assert forall|j: u32| recorded(index.postings@, j) == if j == id {
            state.trigrams()
        } else {
            recorded(before.postings@, j)
        } by {
            lemma_id_added(before.postings@, index.postings@, list@.to_set(), id, j);
            assert(recorded(before.postings@, id).union(list@.to_set()) =~= state.trigrams());
        }
        assert forall|t: Trigram, j: u32| #[trigger] ids_at(index.postings@, t).contains(j) implies j
            < index.files@.len() && !bitmap_ids(index.removed_ids).contains(j) by {
            lemma_recorded(index.postings@, t, j);
            lemma_recorded(before.postings@, t, j);
            assert(recorded(index.postings@, j) == if j == id {
                state.trigrams()
            } else {
                recorded(before.postings@, j)
            });
            if j != id {
                assert(ids_at(before.postings@, t).contains(j));
            }
        }
        assert(index.slots() =~= with_added(before.slots(), slot_added(rel@, *state)));
    }
}

/// The last of the first `n` slots that holds the live file `path`.
pub open spec fn known_upto(slots: Seq<Slot>, path: Seq<u8>, n: nat) -> Option<u32>
    decreases n,
{
    if n == 0 {
        None
    } else if slots[n - 1].live && same_path(slots[n - 1].path, path) {
        Some((n - 1) as u32)
    } else {
        known_upto(slots, path, (n - 1) as nat)
    }
}

/// The id of the live file `path`, if the index has it.
pub open spec fn known_id(slots: Seq<Slot>, path: Seq<u8>) -> Option<u32> {
    known_upto(slots, path, slots.len())
}

/// A file differs from what was recorded of it: its metadata is another or
/// cannot be read.
pub open spec fn differs(now: Option<FileMeta>, recorded: FileMeta) -> bool {
    now != Some(recorded)
}

/// The files among the first `n` of `current` that the index does not have.
pub open spec fn added_upto(slots: Seq<Slot>, current: Strings, n: nat) -> Seq<int>
    decreases n,
{
    if n == 0 {
        Seq::empty()
    } else {
        let init = added_upto(slots, current, (n - 1) as nat);
        if known_id(slots, current[n - 1]) is None {
            init.push(n - 1)
        } else {
            init
        }
    }
}

/// The files among the first `n` of `current` that the index has and that
/// differ from what it recorded, with their ids.
pub open spec fn changed_upto(slots: Seq<Slot>, current: Strings, metas: Seq<Option<FileMeta>>, n: nat) -> Seq<(u32, int)>
    decreases n,
{
    if n == 0 {
        Seq::empty()
    } else {
        let init = changed_upto(slots, current, metas, (n - 1) as nat);
        match known_id(slots, current[n - 1]) {
            Some(id) => if differs(metas[n - 1], slots[id as int].meta) {
                init.push((id, n - 1))
            } else {
                init
            },
            None => init,
        }
    }
}

/// The ids among the first `n` whose live files are no longer there.
pub open spec fn removed_upto(slots: Seq<Slot>, current: Strings, n: nat) -> Seq<u32>
    decreases n,
{
    if n == 0 {
        Seq::empty()
    } else {
        let init = removed_upto(slots, current, (n - 1) as nat);
        if slots[n - 1].live && !lists(current, slots[n - 1].path) {
            init.push((n - 1) as u32)
        } else {
            init
        }
    }
}

/// How the files under the root differ from what an index holds.
#[derive(Debug)]
pub struct UpdatePlan {
    /// Positions, in the list of current files, of those that are new.
    pub added: Vec<usize>,
    /// Ids of the files that changed, with their positions.
    pub changed: Vec<(u32, usize)>,
    /// Ids of the files that are gone.
    pub removed: Vec<u32>,
    /// How many current files are neither new nor changed.
    pub unchanged: usize,
}

/// Positions as integers.
pub open spec fn position_ints(positions: Seq<usize>) -> Seq<int> {
    positions.map_values(|p: usize| p as int)
}

/// Ids with positions as integers.
pub open spec fn changed_ints(changed: Seq<(u32, usize)>) -> Seq<(u32, int)> {
    changed.map_values(|c: (u32, usize)| (c.0, c.1 as int))
}

impl UpdatePlan {
    /// The plan says how `current`, with the metadata `metas`, differs from the
    /// index.
    pub open spec fn is_plan(self, slots: Seq<Slot>, current: Strings, metas: Seq<Option<FileMeta>>) -> bool {
        &&& position_ints(self.added@) == added_upto(slots, current, current.len())
        &&& changed_ints(self.changed@) == changed_upto(slots, current, metas, current.len())
        &&& self.removed@ == removed_upto(slots, current, slots.len())
        &&& self.unchanged == current.len() - self.added@.len() - self.changed@.len()
    }

    /// Nothing differs.
    pub open spec fn is_empty(self) -> bool {
        self.added@.len() == 0 && self.changed@.len() == 0 && self.removed@.len() == 0
    }
}

/// Whether a file differs from what was recorded of it.
pub fn changed_since(now: &Option<FileMeta>, recorded: &FileMeta) -> (out: bool)
    ensures
        out == differs(*now, *recorded),
        out <==> (now matches Some(meta) ==> meta.mtime_secs != recorded.mtime_secs || meta.size != recorded.size),
{
    match now {
        Some(meta) => meta.mtime_secs != recorded.mtime_secs || meta.size != recorded.size,
        None => true,
    }
}

/// The live files of an index, by path.
fn live_table(index: &Index) -> (table: fx::PathTable)
    requires
        index.files@.len() <= 0x1_0000_0000,
    ensures
        forall|path: Seq<u8>| #[trigger]
            known_id(index.slots(), path) == if fx::table_entries(table).contains_key(components(path)) {
                Some(fx::table_entries(table)[components(path)])
            } else {
                None
            },
{
    let mut table = fx::new_table();
    let ghost slots = index.slots();
    let mut n: usize = 0;
    while n < index.files.len()
        invariant
            n <= index.files@.len() <= 0x1_0000_0000,
            slots == index.slots(),
            forall|path: Seq<u8>| #[trigger]
                known_upto(slots, path, n as nat) == if fx::table_entries(table).contains_key(components(path)) {
                    Some(fx::table_entries(table)[components(path)])
                } else {
                    None
                },
        decreases index.files@.len() - n,
    {
        let ghost before = fx::table_entries(table);
        if !contains_id(&index.removed_ids, n as u32) {
            fx::table_insert(&mut table, components_of(&index.files[n]), n as u32);
        }
        proof {
            assert forall|path: Seq<u8>| #[trigger] known_upto(slots, path, (n + 1) as nat)
                == if fx::table_entries(table).contains_key(components(path)) {
                Some(fx::table_entries(table)[components(path)])
            } else {
                None
            } by {
                assert(known_upto(slots, path, n as nat) == if before.contains_key(components(path)) {
                    Some(before[components(path)])
                } else {
                    None
                });
                assert(slots[n as int].path == index.files@[n as int]@);
            }
        }
        n += 1;
    }
    table
}

/// The paths of a list.
fn path_table(paths: &Vec<Vec<u8>>) -> (table: fx::PathTable)
    ensures
        forall|path: Seq<u8>| #[trigger]
            lists(strings_of(paths@), path) <==> fx::table_entries(table).contains_key(components(path)),
{
    let mut table = fx::new_table();
    let ghost all = strings_of(paths@);
    let mut n: usize = 0;
    while n < paths.len()
        invariant
            n <= paths@.len(),
            all == strings_of(paths@),
            forall|path: Seq<u8>| #[trigger]
                lists(all.take(n as int), path) <==> fx::table_entries(table).contains_key(components(path)),
        decreases paths@.len() - n,
    {
        let ghost before = fx::table_entries(table);
        fx::table_insert(&mut table, components_of(&paths[n]), 0);
        proof {
            assert forall|path: Seq<u8>| #[trigger] lists(all.take(n + 1), path) == fx::table_entries(
                table,
            ).contains_key(components(path)) by {
                let (less, more) = (all.take(n as int), all.take(n + 1));
                assert(lists(less, path) == before.contains_key(components(path)));
                assert(more[n as int] == paths@[n as int]@);
                if lists(less, path) {
                    let j = choose|j: int| 0 <= j < less.len() && same_path(#[trigger] less[j], path);
                    assert(same_path(more[j], path));
                }
                if lists(more, path) {
                    let j = choose|j: int| 0 <= j < more.len() && same_path(#[trigger] more[j], path);
                    if j < n {
                        assert(same_path(less[j], path));
                    }
                }
            }
        }
        n += 1;
    }
    assert(all.take(n as int) =~= all);
    table
}

proof fn lemma_known(slots: Seq<Slot>, path: Seq<u8>, n: nat)
    requires
        n <= slots.len() <= 0x1_0000_0000,
    ensures
        known_upto(slots, path, n) matches Some(id) ==> id < n && slots[id as int].live && same_path(
            slots[id as int].path,
            path,
        ),
        known_upto(slots, path, n) is None ==> forall|i: int|
            0 <= i < n && (#[trigger] slots[i]).live ==> !same_path(slots[i].path, path),
    decreases n,
{
    if n > 0 {
        lemma_known(slots, path, (n - 1) as nat);
    }
}

/// The id of a file does not depend on how its path is written.
proof fn lemma_known_alike(slots: Seq<Slot>, a: Seq<u8>, b: Seq<u8>, n: nat)
    requires
        same_path(a, b),
    ensures
        known_upto(slots, a, n) == known_upto(slots, b, n),
    decreases n,
{
    if n > 0 {
        lemma_known_alike(slots, a, b, (n - 1) as nat);
    }
}

/// Compare the files now under the root with the index. `metas` holds their
/// metadata, `None` where it cannot be read.
pub fn plan_update(index: &Index, current: &Vec<Vec<u8>>, metas: &Vec<Option<FileMeta>>) -> (plan: UpdatePlan)
    requires
        index.files@.len() <= 0x1_0000_0000,
        index.files@.len() <= index.metas@.len(),
        metas@.len() == current@.len(),
    ensures
        plan.is_plan(index.slots(), strings_of(current@), metas@),
{
    let ghost slots = index.slots();
    let ghost paths = strings_of(current@);
    let old_ids = live_table(index);
    let current_set = path_table(current);
    let mut added: Vec<usize> = Vec::new();
    let mut changed: Vec<(u32, usize)> = Vec::new();
    let mut i: usize = 0;
    assert(position_ints(added@) =~= Seq::empty());
    assert(changed_ints(changed@) =~= Seq::empty());
    while i < current.len()
        invariant
            i <= current@.len(),
            index.files@.len() <= 0x1_0000_0000,
            index.files@.len() <= index.metas@.len(),
            metas@.len() == current@.len(),
            slots == index.slots(),
            paths == strings_of(current@),
            forall|path: Seq<u8>| #[trigger]
                known_id(slots, path) == if fx::table_entries(old_ids).contains_key(components(path)) {
                    Some(fx::table_entries(old_ids)[components(path)])
                } else {
                    None
                },
            position_ints(added@) == added_upto(slots, paths, i as nat),
            changed_ints(changed@) == changed_upto(slots, paths, metas@, i as nat),
            added@.len() + changed@.len() <= i,
        decreases current@.len() - i,
    {
        let ghost (a, c) = (position_ints(added@), changed_ints(changed@));
        proof {
            lemma_known(slots, paths[i as int], slots.len());
            let parts = components(paths[i as int]);
            assert(known_id(slots, paths[i as int]) == if fx::table_entries(old_ids).contains_key(parts) {
                Some(fx::table_entries(old_ids)[parts])
            } else {
                None
            });
        }
        match fx::table_get(&old_ids, &components_of(&current[i])) {
            None => {
                added.push(i);
                assert(position_ints(added@) =~= a.push(i as int));
            },
            Some(id) => {
                if changed_since(&metas[i], &index.metas[id as usize]) {
                    changed.push((id, i));
                    assert(changed_ints(changed@) =~= c.push((id, i as int)));
                }
            },
        }
        i += 1;
    }
    let mut removed: Vec<u32> = Vec::new();
    let mut n: usize = 0;
    while n < index.files.len()
        invariant
            n <= index.files@.len() <= 0x1_0000_0000,
            slots == index.slots(),
            paths == strings_of(current@),
            forall|path: Seq<u8>| #[trigger]
                lists(paths, path) <==> fx::table_entries(current_set).contains_key(components(path)),
            removed@ == removed_upto(slots, paths, n as nat),
        decreases index.files@.len() - n,
    {
        assert(slots[n as int].path == index.files@[n as int]@);
        let parts = components_of(&index.files[n]);
        if !contains_id(&index.removed_ids, n as u32) && fx::table_get(&current_set, &parts).is_none() {
            removed.push(n as u32);
        }
        n += 1;
    }
    let unchanged: usize = current.len() - (added.len() + changed.len());
    UpdatePlan { added, changed, removed, unchanged }
}

/// What to do about the differences found.
#[derive(Debug, Clone, Copy, PartialEq, Eq, Structural)]
pub enum UpdateAction {
    /// The index is already up to date.
    Keep,
    /// Apply the differences to the index.
    Patch,
    /// Build the index anew.
    Rebuild,
}

/// Files of an index that are not removed.
pub open spec fn live_files(index: Index) -> int {
    index.files@.len() - bitmap_ids(index.removed_ids).len()
}

/// How many files of an index are not removed.
pub fn count_live(index: &Index) -> (live: usize)
    requires
        bitmap_ids(index.removed_ids).len() <= index.files@.len(),
    ensures
        live == live_files(*index),
        live + bitmap_ids(index.removed_ids).len() == index.files@.len(),
{
    index.files.len() - count_ids(&index.removed_ids) as usize
}

/// Patching is O(trigrams × affected files). It is always exact, so for small
/// indexes it is just done; only on a large index with a large change set does
/// a full rebuild become cheaper.
pub open spec fn action_for(plan: UpdatePlan, live: int) -> UpdateAction {
    if plan.is_empty() {
        UpdateAction::Keep
    } else if live <= 1000 || (plan.changed@.len() + plan.removed@.len()) * 4 <= live {
        UpdateAction::Patch
    } else {
        UpdateAction::Rebuild
    }
}

/// Decide what to do about the differences found.
pub fn choose_action(plan: &UpdatePlan, index: &Index) -> (action: UpdateAction)
    requires
        bitmap_ids(index.removed_ids).len() <= index.files@.len(),
    ensures
        action == action_for(*plan, live_files(*index)),
        action == UpdateAction::Keep <==> plan.added@.len() == 0 && plan.changed@.len() == 0 && plan.removed@.len() == 0,
        action == UpdateAction::Rebuild <==> plan.added@.len() + plan.changed@.len() + plan.removed@.len() > 0
            && index.files@.len() - bitmap_ids(index.removed_ids).len() > 1000 && (plan.changed@.len()
            + plan.removed@.len()) * 4 > index.files@.len() - bitmap_ids(index.removed_ids).len(),
{
    if plan.added.len() == 0 && plan.changed.len() == 0 && plan.removed.len() == 0 {
        return UpdateAction::Keep;
    }
    let live = count_live(index);
    let affected: u128 = plan.changed.len() as u128 + plan.removed.len() as u128;
    if live <= 1000 || affected * 4 <= live as u128 {
        UpdateAction::Patch
    } else {
        UpdateAction::Rebuild
    }
}

/// `slots` with the files of these ids removed.
pub open spec fn remove_all(slots: Seq<Slot>, ids: Seq<u32>) -> Seq<Slot>
    decreases ids.len(),
{
    if ids.len() == 0 {
        slots
    } else {
        let init = remove_all(slots, ids.drop_last());
        init.update(ids.last() as int, slot_removed(init[ids.last() as int]))
    }
}

/// `slots` with the first `n` of the changes made: the file with the id
/// `changed[k].0` is now in `states[k]`.
pub open spec fn change_all(slots: Seq<Slot>, changed: Seq<(u32, int)>, states: Seq<FileState>, n: nat) -> Seq<Slot>
    decreases n,
{
    if n == 0 {
        slots
    } else {
        let init = change_all(slots, changed, states, (n - 1) as nat);
        let id = changed[n - 1].0 as int;
        init.update(id, slot_changed(init[id], states[n - 1]))
    }
}

/// `slots` with the first `n` additions made: the file `current[added[k]]`, in
/// `states[k]`.
pub open spec fn add_all(slots: Seq<Slot>, current: Strings, added: Seq<int>, states: Seq<FileState>, n: nat) -> Seq<Slot>
    decreases n,
{
    if n == 0 {
        slots
    } else {
        with_added(
            add_all(slots, current, added, states, (n - 1) as nat),
            slot_added(current[added[n - 1]], states[n - 1]),
        )
    }
}

impl UpdatePlan {
    /// The plan can be carried out: it speaks of files that there are.
    pub open spec fn fits(self, slots: Seq<Slot>, current: Strings) -> bool {
        &&& forall|k: int| 0 <= k < self.removed@.len() ==> (#[trigger] self.removed@[k]) < slots.len()
        &&& forall|k: int|
            0 <= k < self.changed@.len() ==> (#[trigger] self.changed@[k]).0 < slots.len()
                && slots[self.changed@[k].0 as int].live && !self.removed@.contains(self.changed@[k].0)
        &&& forall|k: int| 0 <= k < self.added@.len() ==> (#[trigger] self.added@[k]) < current.len()
    }

    /// What carrying out the plan makes of an index.
    pub open spec fn applied(
        self,
        slots: Seq<Slot>,
        current: Strings,
        changed_states: Seq<FileState>,
        added_states: Seq<FileState>,
    ) -> Seq<Slot> {
        add_all(
            change_all(
                remove_all(slots, self.removed@),
                changed_ints(self.changed@),
                changed_states,
                self.changed@.len(),
            ),
            current,
            position_ints(self.added@),
            added_states,
            self.added@.len(),
        )
    }
}

proof fn lemma_remove_all(slots: Seq<Slot>, ids: Seq<u32>)
    requires
        forall|k: int| 0 <= k < ids.len() ==> (#[trigger] ids[k]) < slots.len(),
        slots.len() <= 0x1_0000_0000,
    ensures
        remove_all(slots, ids).len() == slots.len(),
        forall|i: int|
            0 <= i < slots.len() ==> #[trigger] remove_all(slots, ids)[i] == if ids.contains(i as u32) {
                slot_removed(slots[i])
            } else {
                slots[i]
            },
    decreases ids.len(),
{
    broadcast use vstd::seq_lib::group_seq_properties;

    if ids.len() > 0 {
        let init = ids.drop_last();
        assert forall|k: int| 0 <= k < init.len() implies (#[trigger] init[k]) < slots.len() by {
            assert(init[k] == ids[k]);
        }
        lemma_remove_all(slots, init);
        assert(ids =~= init.push(ids.last()));
        assert(ids[ids.len() - 1] == ids.last());
        assert forall|i: int| 0 <= i < slots.len() implies #[trigger] remove_all(slots, ids)[i] == if ids.contains(
            i as u32,
        ) {
            slot_removed(slots[i])
        } else {
            slots[i]
        } by {
            assert(ids.contains(i as u32) == (init.contains(i as u32) || ids.last() == i as u32));
            assert(remove_all(slots, init)[i] == if init.contains(i as u32) {
                slot_removed(slots[i])
            } else {
                slots[i]
            });
            assert(slot_removed(slot_removed(slots[i])) =~= slot_removed(slots[i]));
        }
    }
}

/// Changing files keeps their paths and which of them are live.
proof fn lemma_change_all(slots: Seq<Slot>, changed: Seq<(u32, int)>, states: Seq<FileState>, n: nat)
    requires
        n <= changed.len(),
        forall|k: int| 0 <= k < changed.len() ==> (#[trigger] changed[k]).0 < slots.len(),
    ensures
        change_all(slots, changed, states, n).len() == slots.len(),
        forall|i: int|
            0 <= i < slots.len() ==> (#[trigger] change_all(slots, changed, states, n)[i]).live == slots[i].live
                && change_all(slots, changed, states, n)[i].path == slots[i].path,
        forall|i: int|
            0 <= i < slots.len() ==> (#[trigger] change_all(slots, changed, states, n)[i]).trigrams == slots[i].trigrams
                || changes_to(changed, states, n, i, change_all(slots, changed, states, n)[i].trigrams),
        forall|i: int, k: int|
            0 <= i < slots.len() && 0 <= k < n && (#[trigger] changed[k]).0 == i ==> changes_to(
                changed,
                states,
                n,
                i,
                (#[trigger] change_all(slots, changed, states, n)[i]).trigrams,
            ),
    decreases n,
{
    if n > 0 {
        let m = (n - 1) as nat;
        lemma_change_all(slots, changed, states, m);
        let before = change_all(slots, changed, states, m);
        let after = change_all(slots, changed, states, n);
        let at = changed[n - 1].0 as int;
        assert(after[at].trigrams == states[n - 1].trigrams());
        assert(changes_to(changed, states, n, at, after[at].trigrams)) by {
            assert(changed[n - 1].0 == at);
        }
        assert forall|i: int| 0 <= i < slots.len() && i != at implies #[trigger] after[i] == before[i] by {}
        assert forall|i: int, t: Set<Trigram>| changes_to(changed, states, m, i, t) implies #[trigger] changes_to(
            changed,
            states,
            n,
            i,
            t,
        ) by {
            let k = choose|k: int| 0 <= k < m && (#[trigger] changed[k]).0 == i && states[k].trigrams() == t;
            assert(changed[k].0 == i);
        }
    }
}

/// One of the first `n` changes gives the file with the id `i` the trigrams
/// `t`.
spec fn changes_to(changed: Seq<(u32, int)>, states: Seq<FileState>, n: nat, i: int, t: Set<Trigram>) -> bool {
    exists|k: int| 0 <= k < n && (#[trigger] changed[k]).0 == i && states[k].trigrams() == t
}

/// The trigrams of any of the first `n` files.
pub open spec fn state_trigrams(states: Seq<FileState>, n: nat) -> Set<Trigram> {
    Set::new(|t: Trigram| exists|i: int| 0 <= i < n && (#[trigger] states[i]).trigrams().contains(t))
}

/// The trigrams of one file more.
proof fn lemma_state_trigrams(states: Seq<FileState>, n: nat)
    ensures
        state_trigrams(states, n + 1) == state_trigrams(states, n).union(states[n as int].trigrams()),
{
    assert forall|t: Trigram| state_trigrams(states, n + 1).contains(t) == state_trigrams(states, n).union(
        states[n as int].trigrams(),
    ).contains(t) by {
        if states[n as int].trigrams().contains(t) {
            assert(0 <= n as int && (n as int) < n + 1);
        }
    }
    assert(state_trigrams(states, n + 1) =~= state_trigrams(states, n).union(states[n as int].trigrams()));
}

/// Apply the differences found: every affected file is patched in place, and
/// no other one is touched. `changed_states` and `added_states` say what could
/// be read of the changed and of the new files.
pub fn apply_update(
    index: &mut Index,
    plan: &UpdatePlan,
    current: &Vec<Vec<u8>>,
    changed_states: &Vec<FileState>,
    added_states: &Vec<FileState>,
)
    requires
        old(index).well_formed(),
        plan.fits(old(index).slots(), strings_of(current@)),
        changed_states@.len() == plan.changed@.len(),
        added_states@.len() == plan.added@.len(),
        old(index).files@.len() + plan.added@.len() <= 0x1_0000_0000,
    ensures
        final(index).well_formed(),
        old(index).in_form() ==> final(index).in_form(),
        final(index).slots() == plan.applied(
            old(index).slots(),
            strings_of(current@),
            changed_states@,
            added_states@,
        ),
        final(index).build_time_us == old(index).build_time_us,
        final(index).postings@.dom() == old(index).postings@.dom().union(
            state_trigrams(changed_states@, changed_states@.len()),
        ).union(state_trigrams(added_states@, added_states@.len())),
{
    let ghost slots = index.slots();
    let ghost paths = strings_of(current@);
    let ghost time = index.build_time_us;
    let ghost kept = index.in_form();
    let ghost listed = index.postings@.dom();
    let mut i: usize = 0;
    assert(plan.removed@.take(0) =~= Seq::empty());
    while i < plan.removed.len()
        invariant
            i <= plan.removed@.len(),
            index.well_formed(),
            kept ==> index.in_form(),
            plan.fits(slots, paths),
            index.slots() == remove_all(slots, plan.removed@.take(i as int)),
            index.postings@.dom() == listed,
            index.slots().len() == slots.len(),
            index.build_time_us == time,
        decreases plan.removed@.len() - i,
    {
        assert(plan.removed@[i as int] < slots.len());
        assert(index.slots().len() == index.files@.len());
        remove_file(index, plan.removed[i]);
        assert(plan.removed@.take(i + 1).drop_last() =~= plan.removed@.take(i as int));
        i += 1;
    }
    let ghost cleared = remove_all(slots, plan.removed@);
    proof {
        assert(plan.removed@.take(i as int) =~= plan.removed@);
        assert(slots.len() == old(index).files@.len());
        lemma_remove_all(slots, plan.removed@);
    }
    let ghost changes = changed_ints(plan.changed@);
    i = 0;
    assert(listed.union(state_trigrams(changed_states@, 0)) =~= listed);
    while i < plan.changed.len()
        invariant
            i <= plan.changed@.len(),
            changed_states@.len() == plan.changed@.len(),
            index.well_formed(),
            kept ==> index.in_form(),
            plan.fits(slots, paths),
            slots.len() <= 0x1_0000_0000,
            cleared.len() == slots.len(),
            forall|j: int|
                0 <= j < slots.len() ==> #[trigger] cleared[j] == if plan.removed@.contains(j as u32) {
                    slot_removed(slots[j])
                } else {
                    slots[j]
                },
            changes == changed_ints(plan.changed@),
            index.slots() == change_all(cleared, changes, changed_states@, i as nat),
            index.postings@.dom() == listed.union(state_trigrams(changed_states@, i as nat)),
            index.slots().len() == slots.len(),
            index.build_time_us == time,
        decreases plan.changed@.len() - i,
    {
        let id = plan.changed[i].0;
        proof {
            assert forall|k: int| 0 <= k < changes.len() implies (#[trigger] changes[k]).0 < cleared.len() by {
                assert(changes[k].0 == plan.changed@[k].0);
            }
            lemma_change_all(cleared, changes, changed_states@, i as nat);
            assert(plan.changed@[i as int].0 == id);
            assert(cleared[id as int].live);
            assert(change_all(cleared, changes, changed_states@, i as nat)[id as int].live);
            assert(index.slots().len() == index.files@.len());
            assert(changes[i as int].0 == id);
        }
        patch_changed(index, id, &changed_states[i]);
        proof {
            lemma_state_trigrams(changed_states@, i as nat);
            assert(index.postings@.dom() =~= listed.union(state_trigrams(changed_states@, (i + 1) as nat)));
        }
        i += 1;
    }
    let ghost patched = index.slots();
    let ghost positions = position_ints(plan.added@);
    let ghost relisted = index.postings@.dom();
    i = 0;
    assert(relisted.union(state_trigrams(added_states@, 0)) =~= relisted);
    while i < plan.added.len()
        invariant
            i <= plan.added@.len(),
            added_states@.len() == plan.added@.len(),
            index.well_formed(),
            kept ==> index.in_form(),
            plan.fits(slots, paths),
            paths == strings_of(current@),
            positions == position_ints(plan.added@),
            slots.len() + plan.added@.len() <= 0x1_0000_0000,
            index.slots() == add_all(patched, paths, positions, added_states@, i as nat),
            index.postings@.dom() == relisted.union(state_trigrams(added_states@, i as nat)),
            index.slots().len() <= slots.len() + i,
            index.build_time_us == time,
        decreases plan.added@.len() - i,
    {
        assert(index.slots().len() == index.files@.len());
        assert(plan.added@[i as int] < paths.len());
        assert(positions[i as int] == plan.added@[i as int]);
        proof {
            lemma_first_dead(index.slots());
        }
        add_file(index, &current[plan.added[i]], &added_states[i]);
        proof {
            lemma_state_trigrams(added_states@, i as nat);
            assert(index.postings@.dom() =~= relisted.union(state_trigrams(added_states@, (i + 1) as nat)));
        }
        i += 1;
    }
}

/// No two live files have the same path.
pub open spec fn distinct_live(slots: Seq<Slot>) -> bool {
    forall|i: int, j: int|
        0 <= i < j < slots.len() && (#[trigger] slots[i]).live && (#[trigger] slots[j]).live ==> !same_path(
            slots[i].path,
            slots[j].path,
        )
}

/// The index is exactly that of the files `current`, whose trigrams are `now`, by
/// the components of their paths: each of them has one live slot, and each live
/// slot has its trigrams.
pub open spec fn exact(slots: Seq<Slot>, current: Strings, now: Map<Strings, Set<Trigram>>) -> bool {
    &&& distinct_live(slots)
    &&& forall|i: int|
        0 <= i < slots.len() && (#[trigger] slots[i]).live ==> lists(current, slots[i].path) && slots[i].trigrams
            == now[components(slots[i].path)]
    &&& forall|j: int|
        0 <= j < current.len() ==> has_live(slots, #[trigger] current[j])
}

/// A live slot has the path.
pub open spec fn has_live(slots: Seq<Slot>, path: Seq<u8>) -> bool {
    exists|i: int| 0 <= i < slots.len() && (#[trigger] slots[i]).live && same_path(slots[i].path, path)
}

proof fn lemma_removed_upto(slots: Seq<Slot>, current: Strings, n: nat)
    requires
        n <= slots.len() <= 0x1_0000_0000,
    ensures
        forall|k: int| 0 <= k < removed_upto(slots, current, n).len() ==> (#[trigger] removed_upto(slots, current, n)[k]) < n,
        forall|i: int|
            0 <= i < n ==> (removed_upto(slots, current, n).contains(i as u32) <==> (#[trigger] slots[i]).live
                && !lists(current, slots[i].path)),
    decreases n,
{
    broadcast use vstd::seq_lib::group_seq_properties;

    if n > 0 {
        let m = (n - 1) as nat;
        lemma_removed_upto(slots, current, m);
        let (less, more) = (removed_upto(slots, current, m), removed_upto(slots, current, n));
        assert(!less.contains(m as u32)) by {
            if less.contains(m as u32) {
                let k = choose|k: int| 0 <= k < less.len() && less[k] == m as u32;
                assert(less[k] < m);
            }
        }
        assert forall|i: int| 0 <= i < n implies (more.contains(i as u32) <==> (#[trigger] slots[i]).live
            && !lists(current, slots[i].path)) by {
            if i < m {
                assert(less.contains(i as u32) <==> slots[i].live && !lists(current, slots[i].path));
            }
        }
    }
}

proof fn lemma_added_upto(slots: Seq<Slot>, current: Strings, n: nat)
    requires
        n <= current.len(),
    ensures
        forall|k: int|
            0 <= k < added_upto(slots, current, n).len() ==> 0 <= (#[trigger] added_upto(slots, current, n)[k]) < n
                && known_id(slots, current[added_upto(slots, current, n)[k]]) is None,
        forall|k: int, l: int|
            0 <= k < l < added_upto(slots, current, n).len() ==> added_upto(slots, current, n)[k] < added_upto(
                slots,
                current,
                n,
            )[l],
        forall|j: int|
            0 <= j < n && known_id(slots, #[trigger] current[j]) is None ==> added_upto(slots, current, n).contains(j),
    decreases n,
{
    broadcast use vstd::seq_lib::group_seq_properties;

    if n > 0 {
        lemma_added_upto(slots, current, (n - 1) as nat);
    }
}

proof fn lemma_changed_upto(slots: Seq<Slot>, current: Strings, metas: Seq<Option<FileMeta>>, n: nat)
    requires
        n <= current.len(),
    ensures
        forall|k: int|
            0 <= k < changed_upto(slots, current, metas, n).len() ==> {
                let (id, j) = #[trigger] changed_upto(slots, current, metas, n)[k];
                0 <= j < n && known_id(slots, current[j]) == Some(id) && differs(metas[j], slots[id as int].meta)
            },
        forall|j: int|
            0 <= j < n ==> (known_id(slots, #[trigger] current[j]) matches Some(id) ==> (differs(
                metas[j],
                slots[id as int].meta,
            ) ==> changed_upto(slots, current, metas, n).contains((id, j)))),
    decreases n,
{
    broadcast use vstd::seq_lib::group_seq_properties;

    if n > 0 {
        lemma_changed_upto(slots, current, metas, (n - 1) as nat);
    }
}

/// A plan made for an index can be carried out on it.
pub proof fn plan_fits(
    plan: UpdatePlan,
    slots: Seq<Slot>,
    current: Strings,
    metas: Seq<Option<FileMeta>>,
)
    requires
        slots.len() <= 0x1_0000_0000,
        plan.is_plan(slots, current, metas),
    ensures
        plan.fits(slots, current),
{
    lemma_removed_upto(slots, current, slots.len());
    lemma_added_upto(slots, current, current.len());
    lemma_changed_upto(slots, current, metas, current.len());
    assert forall|k: int| 0 <= k < plan.changed@.len() implies (#[trigger] plan.changed@[k]).0 < slots.len()
        && slots[plan.changed@[k].0 as int].live && !plan.removed@.contains(plan.changed@[k].0) by {
        let (id, j) = changed_ints(plan.changed@)[k];
        assert(id == plan.changed@[k].0);
        lemma_known(slots, current[j], slots.len());
        assert(same_path(current[j], slots[id as int].path));
    }
    assert forall|k: int| 0 <= k < plan.added@.len() implies (#[trigger] plan.added@[k]) < current.len() by {
        assert(position_ints(plan.added@)[k] == plan.added@[k]);
    }
}

/// What additions make of slots: whatever was live stays as it was, and the
/// added files, with their trigrams, are all that is live besides.
spec fn adds(before: Seq<Slot>, after: Seq<Slot>, current: Strings, added: Seq<int>, states: Seq<FileState>, n: nat) -> bool {
    &&& before.len() <= after.len()
    &&& forall|i: int| 0 <= i < before.len() && (#[trigger] before[i]).live ==> after[i] == before[i]
    &&& forall|i: int|
        0 <= i < after.len() && (#[trigger] after[i]).live ==> (i < before.len() && before[i].live) || is_added(
            after[i],
            current,
            added,
            states,
            n,
        )
    &&& forall|k: int|
        0 <= k < n ==> exists|i: int|
            0 <= i < after.len() && (#[trigger] after[i]).live && after[i].path == current[#[trigger] added[k]]
    &&& distinct_live(after)
}

/// The slot is that of one of the first `n` additions.
spec fn is_added(slot: Slot, current: Strings, added: Seq<int>, states: Seq<FileState>, n: nat) -> bool {
    exists|k: int| 0 <= k < n && slot.path == current[#[trigger] added[k]] && slot.trigrams == states[k].trigrams()
}

proof fn lemma_add_all(slots: Seq<Slot>, current: Strings, added: Seq<int>, states: Seq<FileState>, n: nat)
    requires
        n <= added.len(),
        distinct_live(slots),
        forall|k: int| 0 <= k < added.len() ==> 0 <= #[trigger] added[k] < current.len(),
        forall|k: int, l: int|
            0 <= k < l < added.len() ==> !same_path(current[#[trigger] added[k]], current[#[trigger] added[l]]),
        forall|k: int, i: int|
            0 <= k < added.len() && 0 <= i < slots.len() && (#[trigger] slots[i]).live ==> !same_path(
                slots[i].path,
                current[#[trigger] added[k]],
            ),
    ensures
        adds(slots, add_all(slots, current, added, states, n), current, added, states, n),
    decreases n,
{
    if n > 0 {
        let m = (n - 1) as nat;
        lemma_add_all(slots, current, added, states, m);
        let before = add_all(slots, current, added, states, m);
        let slot = slot_added(current[added[n - 1]], states[n - 1]);
        let after = add_all(slots, current, added, states, n);
        let at = first_dead(before);
        lemma_first_dead(before);
        assert(after == with_added(before, slot));
        assert(after[at] == slot);
        assert forall|i: int| 0 <= i < before.len() && i != at implies #[trigger] after[i] == before[i] by {}
        assert forall|i: int| 0 <= i < slots.len() && (#[trigger] slots[i]).live implies after[i] == slots[i] by {
            assert(before[i] == slots[i]);
            assert(i != at);
        }
        assert(is_added(slot, current, added, states, n)) by {
            assert(slot.path == current[added[n - 1]]);
        }
        assert forall|i: int| 0 <= i < after.len() && (#[trigger] after[i]).live implies (i < slots.len()
            && slots[i].live) || is_added(after[i], current, added, states, n) by {
            if i != at {
                assert(before[i].live);
                if !(i < slots.len() && slots[i].live) {
                    let k = choose|k: int|
                        0 <= k < m && before[i].path == current[#[trigger] added[k]] && before[i].trigrams
                            == states[k].trigrams();
                    assert(after[i].path == current[added[k]]);
                }
            }
        }
        assert forall|k: int| 0 <= k < n implies exists|i: int|
            0 <= i < after.len() && (#[trigger] after[i]).live && after[i].path == current[#[trigger] added[k]] by {
            if k < m {
                let i = choose|i: int|
                    0 <= i < before.len() && (#[trigger] before[i]).live && before[i].path == current[added[k]];
                assert(i != at);
                assert(after[i].live && after[i].path == current[added[k]]);
            } else {
                assert(after[at].live && after[at].path == current[added[k]]);
            }
        }
        assert forall|i: int| 0 <= i < before.len() && (#[trigger] before[i]).live implies !same_path(
            before[i].path,
            slot.path,
        ) by {
            if i < slots.len() && slots[i].live {
                assert(before[i] == slots[i]);
                assert(!same_path(slots[i].path, current[added[n - 1]]));
            } else {
                let k = choose|k: int|
                    0 <= k < m && before[i].path == current[#[trigger] added[k]] && before[i].trigrams
                        == states[k].trigrams();
                assert(!same_path(current[added[k]], current[added[n - 1]]));
            }
        }
        assert forall|i: int, j: int|
            0 <= i < j < after.len() && (#[trigger] after[i]).live && (#[trigger] after[j]).live implies !same_path(
            after[i].path,
            after[j].path,
        ) by {
            if i == at {
                assert(before[j].live);
            } else if j == at {
                assert(before[i].live);
            } else {
                assert(before[i].live && before[j].live);
            }
        }
    }
}

/// An update makes the index exact for the files now under the root, whatever
/// was added, changed or removed, and files that stay keep their ids. This
/// holds if a file whose metadata is as recorded has the trigrams recorded.
#[verifier::rlimit(80)]
pub proof fn update_is_exact(
    plan: UpdatePlan,
    slots: Seq<Slot>,
    current: Strings,
    metas: Seq<Option<FileMeta>>,
    changed_states: Seq<FileState>,
    added_states: Seq<FileState>,
    now: Map<Strings, Set<Trigram>>,
)
    requires
        slots.len() <= 0x1_0000_0000,
        distinct_live(slots),
        all_differ(current),
        plan.is_plan(slots, current, metas),
        forall|j: int|
            0 <= j < current.len() ==> (known_id(slots, #[trigger] current[j]) matches Some(id) ==> (!differs(
                metas[j],
                slots[id as int].meta,
            ) ==> slots[id as int].trigrams == now[components(current[j])])),
        forall|k: int|
            0 <= k < plan.changed@.len() ==> changed_states[k].trigrams() == now[components(
                current[(#[trigger] plan.changed@[k]).1 as int],
            )],
        forall|k: int|
            0 <= k < plan.added@.len() ==> added_states[k].trigrams() == now[components(
                current[(#[trigger] plan.added@[k]) as int],
            )],
    ensures
        exact(plan.applied(slots, current, changed_states, added_states), current, now),
        forall|i: int|
            0 <= i < slots.len() && (#[trigger] slots[i]).live && lists(current, slots[i].path) ==> plan.applied(
                slots,
                current,
                changed_states,
                added_states,
            )[i].live && plan.applied(slots, current, changed_states, added_states)[i].path == slots[i].path,
{
    plan_fits(plan, slots, current, metas);
    lemma_removed_upto(slots, current, slots.len());
    lemma_added_upto(slots, current, current.len());
    lemma_changed_upto(slots, current, metas, current.len());
    lemma_remove_all(slots, plan.removed@);
    let cleared = remove_all(slots, plan.removed@);
    let changes = changed_ints(plan.changed@);
    assert forall|k: int| 0 <= k < changes.len() implies (#[trigger] changes[k]).0 < cleared.len() by {
        assert(changes[k].0 == plan.changed@[k].0);
    }
    lemma_change_all(cleared, changes, changed_states, changes.len());
    let patched = change_all(cleared, changes, changed_states, changes.len());
    let added = position_ints(plan.added@);
    assert forall|i: int| 0 <= i < slots.len() implies (#[trigger] patched[i]).live == (slots[i].live && lists(
        current,
        slots[i].path,
    )) && patched[i].path == slots[i].path by {
        assert(cleared[i] == if plan.removed@.contains(i as u32) {
            slot_removed(slots[i])
        } else {
            slots[i]
        });
    }
    assert(distinct_live(patched)) by {
        assert forall|i: int, j: int|
            0 <= i < j < patched.len() && (#[trigger] patched[i]).live && (#[trigger] patched[j]).live implies !same_path(
            patched[i].path,
            patched[j].path,
        ) by {
            assert(slots[i].live && slots[j].live);
        }
    }
    assert forall|i: int| 0 <= i < patched.len() && (#[trigger] patched[i]).live implies patched[i].trigrams
        == now[components(patched[i].path)] by {
        let path = slots[i].path;
        let j = choose|j: int| 0 <= j < current.len() && same_path(#[trigger] current[j], path);
        lemma_known(slots, path, slots.len());
        assert(slots[i].live);
        let id = known_id(slots, path)->0;
        if id != i {
            assert(slots[id as int].live && same_path(slots[id as int].path, path));
            if id < i {
                assert(!same_path(slots[id as int].path, slots[i].path));
            } else {
                assert(!same_path(slots[i].path, slots[id as int].path));
            }
        }
        lemma_known_alike(slots, current[j], path, slots.len());
        assert(known_id(slots, current[j]) == Some(id));
        if changes_to(changes, changed_states, changes.len(), i, patched[i].trigrams) {
            let k = choose|k: int|
                0 <= k < changes.len() && (#[trigger] changes[k]).0 == i && changed_states[k].trigrams()
                    == patched[i].trigrams;
            let at = changes[k].1;
            assert(plan.changed@[k].1 == at);
            lemma_known(slots, current[at], slots.len());
            assert(same_path(current[at], path));
        } else {
            assert(patched[i].trigrams == cleared[i].trigrams);
            assert(!differs(metas[j], slots[id as int].meta)) by {
                if differs(metas[j], slots[id as int].meta) {
                    assert(changes.contains((id, j)));
                    let k = choose|k: int| 0 <= k < changes.len() && changes[k] == (id, j);
                    assert(changes[k].0 == i);
                }
            }
            assert(!plan.removed@.contains(i as u32));
        }
    }
    assert forall|k: int, l: int| 0 <= k < l < added.len() implies !same_path(
        current[#[trigger] added[k]],
        current[#[trigger] added[l]],
    ) by {
        assert(added[k] < added[l]);
    }
    assert forall|k: int, i: int|
        0 <= k < added.len() && 0 <= i < patched.len() && (#[trigger] patched[i]).live implies !same_path(
        patched[i].path,
        current[#[trigger] added[k]],
    ) by {
        lemma_known(slots, current[added[k]], slots.len());
        assert(slots[i].live);
    }
    lemma_add_all(patched, current, added, added_states, added.len());
    let after = plan.applied(slots, current, changed_states, added_states);
    assert(after == add_all(patched, current, added, added_states, added.len()));
    assert forall|i: int| 0 <= i < after.len() && (#[trigger] after[i]).live implies lists(current, after[i].path)
        && after[i].trigrams == now[components(after[i].path)] by {
        if i < patched.len() && patched[i].live {
            assert(after[i] == patched[i]);
        } else {
            let k = choose|k: int|
                0 <= k < added.len() && after[i].path == current[#[trigger] added[k]] && after[i].trigrams
                    == added_states[k].trigrams();
            assert(added[k] == plan.added@[k]);
            assert(same_path(current[added[k]], after[i].path));
        }
    }
    assert forall|j: int| 0 <= j < current.len() implies has_live(after, #[trigger] current[j]) by {
        lemma_known(slots, current[j], slots.len());
        match known_id(slots, current[j]) {
            Some(id) => {
                assert(same_path(current[j], slots[id as int].path));
                assert(patched[id as int].live);
                assert(after[id as int] == patched[id as int]);
            },
            None => {
                assert(added.contains(j));
                let k = choose|k: int| 0 <= k < added.len() && added[k] == j;
                let i = choose|i: int|
                    0 <= i < after.len() && (#[trigger] after[i]).live && after[i].path == current[added[k]];
                assert(after[i].path == current[j]);
            },
        }
    }
    assert forall|i: int| 0 <= i < slots.len() && (#[trigger] slots[i]).live && lists(current, slots[i].path) implies after[i].live
        && after[i].path == slots[i].path by {
        assert(patched[i].live);
        assert(after[i] == patched[i]);
    }
}

/// The paths of the first `n` files that are live and wanted, in order; `None`
/// wants all.
pub open spec fn resolved(files: Strings, removed: Set<u32>, wanted: Option<Set<u32>>, n: nat) -> Strings
    decreases n,
{
    if n == 0 {
        Seq::empty()
    } else {
        let init = resolved(files, removed, wanted, (n - 1) as nat);
        let id = (n - 1) as u32;
        if !removed.contains(id) && (wanted matches Some(ids) ==> ids.contains(id)) {
            init.push(files[n - 1])
        } else {
            init
        }
    }
}

/// The ids of an optional bitmap.
pub open spec fn wanted_ids(ids: Option<&RoaringBitmap>) -> Option<Set<u32>> {
    match ids {
        Some(bitmap) => Some(bitmap_ids(*bitmap)),
        None => None,
    }
}

proof fn lemma_resolved_gap(files: Strings, removed: Set<u32>, wanted: Set<u32>, a: nat, b: nat)
    requires
        a <= b,
        forall|i: int| a <= i < b ==> !wanted.contains(#[trigger] (i as u32)),
    ensures
        resolved(files, removed, Some(wanted), b) == resolved(files, removed, Some(wanted), a),
    decreases b,
{
    if a < b {
        assert(!wanted.contains((b - 1) as u32));
        lemma_resolved_gap(files, removed, wanted, a, (b - 1) as nat);
    }
}

/// A live, wanted file is resolved.
pub proof fn resolved_contains(files: Strings, removed: Set<u32>, wanted: Option<Set<u32>>, n: nat, id: u32)
    requires
        id < n <= files.len(),
        !removed.contains(id),
        wanted matches Some(ids) ==> ids.contains(id),
    ensures
        resolved(files, removed, wanted, n).contains(files[id as int]),
    decreases n,
{
    broadcast use vstd::seq_lib::group_seq_properties;

    if id < n - 1 {
        resolved_contains(files, removed, wanted, (n - 1) as nat, id);
    }
}

/// Removed files are never resolved: each resolved path is that of a live,
/// wanted file.
pub proof fn resolved_is_live(files: Strings, removed: Set<u32>, wanted: Option<Set<u32>>, n: nat, path: Seq<u8>)
    requires
        n <= files.len() <= 0x1_0000_0000,
        resolved(files, removed, wanted, n).contains(path),
    ensures
        exists|id: u32|
            id < n && !removed.contains(id) && (wanted matches Some(ids) ==> ids.contains(id))
                && #[trigger] files[id as int] == path,
    decreases n,
{
    broadcast use vstd::seq_lib::group_seq_properties;

    let init = resolved(files, removed, wanted, (n - 1) as nat);
    if n > 0 && init.contains(path) {
        resolved_is_live(files, removed, wanted, (n - 1) as nat, path);
    } else if n > 0 {
        let id = (n - 1) as u32;
        assert(files[id as int] == path);
    }
}

/// Bitmaps under the same trigrams, with the same ids, organised alike.
pub open spec fn postings_alike(a: Map<Trigram, RoaringBitmap>, b: Map<Trigram, RoaringBitmap>) -> bool {
    &&& a.dom() == b.dom()
    &&& forall|t: Trigram| #[trigger]
        a.contains_key(t) ==> bitmap_ids(a[t]) == bitmap_ids(b[t]) && bitmap_bytes(a[t]) == bitmap_bytes(b[t])
            && in_form(a[t]) == in_form(b[t])
}

/// A copy of the postings.
fn copy_postings(postings: &Postings) -> (out: Postings)
    ensures
        postings_alike(out@, postings@),
{
    let keys = fx::map_keys(postings);
    let mut out: Postings = FxHashMap::default();
    let mut i: usize = 0;
    while i < keys.len()
        invariant
            i <= keys@.len(),
            keys@.to_set() == postings@.dom(),
            forall|t: Trigram| #[trigger] out@.contains_key(t) <==> keys@.take(i as int).contains(t),
            forall|t: Trigram| #[trigger]
                out@.contains_key(t) ==> bitmap_ids(out@[t]) == bitmap_ids(postings@[t]) && bitmap_bytes(out@[t])
                    == bitmap_bytes(postings@[t]) && in_form(out@[t]) == in_form(postings@[t]),
        decreases keys@.len() - i,
    {
        let key = keys[i];
        let ghost before = out@;
        proof {
            broadcast use vstd::seq_lib::group_seq_properties;

            assert(keys@.contains(key));
            assert(postings@.dom().contains(key));
            keys@.lemma_take_succ_push(i as int);
            assert forall|t: Trigram| #[trigger] keys@.take(i + 1).contains(t) <==> keys@.take(i as int).contains(t)
                || t == key by {}
        }
        if let Some(bitmap) = fx::map_get(postings, &key) {
            fx::map_insert(&mut out, key, copy_bitmap(bitmap));
        }
        i += 1;
    }
    proof {
        assert(keys@.take(i as int) =~= keys@);
        assert forall|t: Trigram| out@.dom().contains(t) == postings@.dom().contains(t) by {
            assert(out@.contains_key(t) == keys@.contains(t));
            assert(keys@.to_set().contains(t) == keys@.contains(t));
        }
        assert(out@.dom() =~= postings@.dom());
    }
    out
}

impl Clone for Index {
    fn clone(&self) -> (out: Index)
        ensures
            strings_of(out.files@) == strings_of(self.files@),
            out.metas@ == self.metas@,
            postings_alike(out.postings@, self.postings@),
            bitmap_ids(out.removed_ids) == bitmap_ids(self.removed_ids),
            bitmap_bytes(out.removed_ids) == bitmap_bytes(self.removed_ids),
            in_form(out.removed_ids) == in_form(self.removed_ids),
            out.build_time_us == self.build_time_us,
    {
        let mut files: Vec<Vec<u8>> = Vec::with_capacity(self.files.len());
        let mut i: usize = 0;
        while i < self.files.len()
            invariant
                i <= self.files@.len(),
                strings_of(files@) =~= strings_of(self.files@).take(i as int),
            decreases self.files@.len() - i,
        {
            let ghost before = strings_of(files@);
            let path = copy_bytes(&self.files[i]);
            files.push(path);
            assert(strings_of(files@) =~= before.push(path@));
            i += 1;
        }
        assert(strings_of(self.files@).take(i as int) =~= strings_of(self.files@));
        let mut metas: Vec<FileMeta> = Vec::with_capacity(self.metas.len());
        let mut k: usize = 0;
        while k < self.metas.len()
            invariant
                k <= self.metas@.len(),
                metas@ =~= self.metas@.take(k as int),
            decreases self.metas@.len() - k,
        {
            metas.push(self.metas[k]);
            k += 1;
        }
        assert(self.metas@.take(k as int) =~= self.metas@);
        Index {
            files,
            metas,
            postings: copy_postings(&self.postings),
            removed_ids: copy_bitmap(&self.removed_ids),
            build_time_us: self.build_time_us,
        }
    }
}

impl Index {
    /// Resolve a candidate id set to concrete paths. `None` means all live files.
    pub fn resolve_files(&self, ids: Option<&RoaringBitmap>) -> (out: Vec<Vec<u8>>)
        requires
            self.files@.len() <= 0x1_0000_0000,
        ensures
            strings_of(out@) == resolved(
                strings_of(self.files@),
                bitmap_ids(self.removed_ids),
                wanted_ids(ids),
                self.files@.len(),
            ),
    {
        let ghost files = strings_of(self.files@);
        let ghost removed = bitmap_ids(self.removed_ids);
        let mut out: Vec<Vec<u8>> = Vec::new();
        assert(strings_of(out@) =~= Seq::empty());
        match ids {
            None => {
                let mut n: usize = 0;
                while n < self.files.len()
                    invariant
                        n <= self.files@.len() <= 0x1_0000_0000,
                        files == strings_of(self.files@),
                        removed == bitmap_ids(self.removed_ids),
                        strings_of(out@) == resolved(files, removed, None, n as nat),
                    decreases self.files@.len() - n,
                {
                    let ghost before = strings_of(out@);
                    if !contains_id(&self.removed_ids, n as u32) {
                        out.push(copy_bytes(&self.files[n]));
                        assert(strings_of(out@) =~= before.push(files[n as int]));
                    }
                    n += 1;
                }
            },
            Some(bitmap) => {
                let list = list_ids(bitmap);
                let ghost wanted = bitmap_ids(*bitmap);
                let mut k: usize = 0;
                let mut next: usize = 0;
                while k < list.len() && (list[k] as usize) < self.files.len()
                    invariant
                        k <= list@.len(),
                        next <= self.files@.len() <= 0x1_0000_0000,
                        ascending(list@),
                        list@.to_set() == wanted,
                        forall|j: int| 0 <= j < k ==> list@[j] < next,
                        forall|j: int| k <= j < list@.len() ==> next <= list@[j],
                        files == strings_of(self.files@),
                        removed == bitmap_ids(self.removed_ids),
                        strings_of(out@) == resolved(files, removed, Some(wanted), next as nat),
                    decreases list@.len() - k,
                {
                    let id = list[k];
                    let ghost before = strings_of(out@);
                    proof {
                        assert forall|i: int| next <= i < id implies !wanted.contains(#[trigger] (i as u32)) by {
                            if wanted.contains(i as u32) {
                                assert(list@.contains(i as u32));
                                let j = choose|j: int| 0 <= j < list@.len() && list@[j] == i as u32;
                                assert(j >= k);
                                assert(list@[k as int] <= list@[j]);
                            }
                        }
                        lemma_resolved_gap(files, removed, wanted, next as nat, id as nat);
                        assert(list@.contains(list@[k as int]));
                        assert(wanted.contains(id));
                    }
                    if !contains_id(&self.removed_ids, id) {
                        out.push(copy_bytes(&self.files[id as usize]));
                        assert(strings_of(out@) =~= before.push(files[id as int]));
                    }
                    next = id as usize + 1;
                    k += 1;
                }
                proof {
                    assert forall|i: int| next <= i < self.files@.len() implies !wanted.contains(
                        #[trigger] (i as u32),
                    ) by {
                        if wanted.contains(i as u32) {
                            assert(list@.contains(i as u32));
                            let j = choose|j: int| 0 <= j < list@.len() && list@[j] == i as u32;
                            assert(j >= k);
                            assert(list@[k as int] <= list@[j]);
                        }
                    }
                    lemma_resolved_gap(files, removed, wanted, next as nat, self.files@.len());
                }
            },
        }
        out
    }
}

/// Whether a bitmap holds only ids below `limit`.
pub(crate) fn ids_below(bitmap: &RoaringBitmap, limit: usize) -> (out: bool)
    ensures
        out == forall|id: u32| #[trigger] bitmap_ids(*bitmap).contains(id) ==> id < limit,
{
    let list = list_ids(bitmap);
    if list.len() == 0 {
        assert forall|id: u32| !(#[trigger] bitmap_ids(*bitmap).contains(id)) by {
            if bitmap_ids(*bitmap).contains(id) {
                assert(list@.to_set().contains(id));
            }
        }
        return true;
    }
    let last = list[list.len() - 1];
    proof {
        assert(list@.contains(last));
        assert(bitmap_ids(*bitmap).contains(last));
        assert forall|id: u32| #[trigger] bitmap_ids(*bitmap).contains(id) implies id <= last by {
            assert(list@.to_set().contains(id));
            let j = choose|j: int| 0 <= j < list@.len() && list@[j] == id;
            if j < list@.len() - 1 {
                assert(list@[j] < list@[list@.len() - 1]);
            }
        }
    }
    (last as usize) < limit
}

/// Whether two bitmaps have no id in common.
fn disjoint(a: &RoaringBitmap, b: &RoaringBitmap) -> (out: bool)
    ensures
        out == forall|id: u32| #[trigger] bitmap_ids(*a).contains(id) ==> !bitmap_ids(*b).contains(id),
{
    let mut both = copy_bitmap(a);
    intersect_with(&mut both, b);
    let out = is_empty_bitmap(&both);
    proof {
        if out {
            assert forall|id: u32| #[trigger] bitmap_ids(*a).contains(id) implies !bitmap_ids(*b).contains(id) by {
                assert(!bitmap_ids(both).contains(id));
            }
        } else if forall|id: u32| #[trigger] bitmap_ids(*a).contains(id) ==> !bitmap_ids(*b).contains(id) {
            assert(bitmap_ids(both) =~= Set::empty());
        }
    }
    out
}

/// Whether the parts of an index, which may come from a damaged file, agree.
pub fn check_index(index: &Index) -> (out: bool)
    ensures
        out == index.well_formed(),
{
    if index.metas.len() != index.files.len() || index.files.len() as u64 > 0x1_0000_0000 {
        return false;
    }
    if !ids_below(&index.removed_ids, index.files.len()) {
        return false;
    }
    let keys = fx::map_keys(&index.postings);
    let mut i: usize = 0;
    while i < keys.len()
        invariant
            i <= keys@.len(),
            keys@.to_set() == index.postings@.dom(),
            forall|j: int, id: u32|
                0 <= j < i && #[trigger] ids_at(index.postings@, keys@[j]).contains(id) ==> id < index.files@.len()
                    && !bitmap_ids(index.removed_ids).contains(id),
        decreases keys@.len() - i,
    {
        let t = keys[i];
        proof {
            assert(keys@.contains(t));
            assert(index.postings@.dom().contains(t));
        }
        if let Some(bitmap) = fx::map_get(&index.postings, &t) {
            assert(ids_at(index.postings@, t) == bitmap_ids(*bitmap));
            if !ids_below(bitmap, index.files.len()) || !disjoint(bitmap, &index.removed_ids) {
                return false;
            }
        }
        i += 1;
    }
    proof {
        assert forall|t: Trigram, id: u32| #[trigger] ids_at(index.postings@, t).contains(id) implies id
            < index.files@.len() && !bitmap_ids(index.removed_ids).contains(id) by {
            assert(index.postings@.dom().contains(t));
            assert(keys@.contains(t));
            let j = choose|j: int| 0 <= j < keys@.len() && keys@[j] == t;
            assert(ids_at(index.postings@, keys@[j]).contains(id));
        }
    }
    true
}

/// The ids and positions of a plan are all the differences there are. A file is
/// new if no live slot has its path; it changed if one does, the last such if
/// there are several, and its metadata cannot be read or has another time or
/// size; and a live slot is gone if no file has its path.
pub proof fn plans_list_every_difference(
    plan: UpdatePlan,
    slots: Seq<Slot>,
    current: Strings,
    metas: Seq<Option<FileMeta>>,
    id: u32,
    j: usize,
)
    requires
        slots.len() <= 0x1_0000_0000,
        current.len() <= usize::MAX,
        plan.is_plan(slots, current, metas),
    ensures
        plan.added@.contains(j) <==> j < current.len() && forall|i: int|
            0 <= i < slots.len() && (#[trigger] slots[i]).live ==> !same_path(slots[i].path, current[j as int]),
        plan.changed@.contains((id, j)) <==> j < current.len() && id < slots.len() && slots[id as int].live && same_path(
            slots[id as int].path,
            current[j as int],
        ) && (forall|i: int|
            id < i < slots.len() && (#[trigger] slots[i]).live ==> !same_path(slots[i].path, current[j as int])) && (
        metas[j as int] matches Some(now) ==> now.mtime_secs != slots[id as int].meta.mtime_secs || now.size
            != slots[id as int].meta.size),
        plan.removed@.contains(id) <==> id < slots.len() && slots[id as int].live && forall|k: int|
            0 <= k < current.len() ==> !same_path(#[trigger] current[k], slots[id as int].path),
        plan.unchanged + plan.added@.len() + plan.changed@.len() == current.len(),
        forall|k: int, l: int| 0 <= k < l < plan.added@.len() ==> plan.added@[k] < plan.added@[l],
        forall|k: int, l: int| 0 <= k < l < plan.changed@.len() ==> (#[trigger] plan.changed@[k]).1 < (#[trigger] plan.changed@[l]).1,
        forall|k: int, l: int| 0 <= k < l < plan.removed@.len() ==> plan.removed@[k] < plan.removed@[l],
{
    lemma_removed_ascend(slots, current, slots.len());
    lemma_changed_ascend(slots, current, metas, current.len());
    assert forall|k: int, l: int| 0 <= k < l < plan.added@.len() implies plan.added@[k] < plan.added@[l] by {
        lemma_added_upto(slots, current, current.len());
        assert(position_ints(plan.added@)[k] == plan.added@[k] && position_ints(plan.added@)[l] == plan.added@[l]);
    }
    assert forall|k: int, l: int| 0 <= k < l < plan.changed@.len() implies (#[trigger] plan.changed@[k]).1
        < (#[trigger] plan.changed@[l]).1 by {
        assert(changed_ints(plan.changed@)[k].1 == plan.changed@[k].1 && changed_ints(plan.changed@)[l].1
            == plan.changed@[l].1);
    }
    lemma_removed_upto(slots, current, slots.len());
    lemma_added_upto(slots, current, current.len());
    lemma_changed_upto(slots, current, metas, current.len());
    let added = position_ints(plan.added@);
    let changed = changed_ints(plan.changed@);
    if plan.added@.contains(j) {
        let k = choose|k: int| 0 <= k < plan.added@.len() && plan.added@[k] == j;
        assert(added[k] == j);
        lemma_known(slots, current[j as int], slots.len());
    }
    if j < current.len() {
        lemma_known(slots, current[j as int], slots.len());
        lemma_known_last(slots, current[j as int], slots.len());
        if known_id(slots, current[j as int]) is None {
            assert(added.contains(j as int));
            let k = choose|k: int| 0 <= k < added.len() && added[k] == j as int;
            assert(plan.added@[k] == j);
        }
        if known_id(slots, current[j as int]) == Some(id) && differs(metas[j as int], slots[id as int].meta) {
            assert(changed.contains((id, j as int)));
            let k = choose|k: int| 0 <= k < changed.len() && changed[k] == (id, j as int);
            assert(plan.changed@[k] == (id, j));
        }
    }
    if plan.changed@.contains((id, j)) {
        let k = choose|k: int| 0 <= k < plan.changed@.len() && plan.changed@[k] == (id, j);
        assert(changed[k] == (id, j as int));
        lemma_known(slots, current[j as int], slots.len());
    }
    if plan.removed@.contains(id) {
        let k = choose|k: int| 0 <= k < plan.removed@.len() && plan.removed@[k] == id;
        assert(slots[id as int].live);
    }
}

/// The known id of a path is that of its last live slot.
proof fn lemma_known_last(slots: Seq<Slot>, path: Seq<u8>, n: nat)
    requires
        n <= slots.len() <= 0x1_0000_0000,
    ensures
        known_upto(slots, path, n) matches Some(id) ==> forall|i: int|
            id < i < n && (#[trigger] slots[i]).live ==> !same_path(slots[i].path, path),
        forall|id: u32|
            id < n && (#[trigger] slots[id as int]).live && same_path(slots[id as int].path, path) && (forall|i: int|
                id < i < n && (#[trigger] slots[i]).live ==> !same_path(slots[i].path, path)) ==> known_upto(slots, path, n)
                == Some(id),
    decreases n,
{
    if n > 0 {
        let m = (n - 1) as nat;
        lemma_known_last(slots, path, m);
        assert forall|id: u32|
            id < n && (#[trigger] slots[id as int]).live && same_path(slots[id as int].path, path) && (forall|i: int|
                id < i < n && (#[trigger] slots[i]).live ==> !same_path(slots[i].path, path)) implies known_upto(
            slots,
            path,
            n,
        ) == Some(id) by {
            if id < m {
                assert(!(slots[m as int].live && same_path(slots[m as int].path, path)));
                assert forall|i: int| id < i < m && (#[trigger] slots[i]).live implies !same_path(slots[i].path, path) by {}
            }
        }
    }
}

/// Nothing is done only if nothing differs. Otherwise the differences are applied,
/// but for an index of more than a thousand live files of which more than a quarter
/// changed or went: that is built anew.
pub proof fn nothing_is_done_only_if_nothing_differs(plan: UpdatePlan, live: int)
    ensures
        action_for(plan, live) == UpdateAction::Keep <==> plan.added@ == Seq::<usize>::empty() && plan.changed@ == Seq::<
            (u32, usize),
        >::empty() && plan.removed@ == Seq::<u32>::empty(),
        action_for(plan, live) == UpdateAction::Rebuild <==> plan.added@.len() + plan.changed@.len() + plan.removed@.len()
            > 0 && live > 1000 && (plan.changed@.len() + plan.removed@.len()) * 4 > live,
{
    if plan.is_empty() {
        assert(plan.added@ =~= Seq::empty());
        assert(plan.changed@ =~= Seq::empty());
        assert(plan.removed@ =~= Seq::empty());
    }
}

/// A fresh index is exact for the files that it was built from.
pub proof fn fresh_index_is_exact(index: Index, states: Seq<FileState>, now: Map<Strings, Set<Trigram>>)
    requires
        index.files@.len() == states.len() <= 0x1_0000_0000,
        indexes(index.postings@, states, 0),
        bitmap_ids(index.removed_ids) == Set::<u32>::empty(),
        all_differ(strings_of(index.files@)),
        forall|i: int|
            0 <= i < states.len() ==> (#[trigger] states[i]).is_complete() && states[i].trigrams() == now[components(
                index.files@[i]@,
            )],
    ensures
        exact(index.slots(), strings_of(index.files@), now),
{
    let slots = index.slots();
    let current = strings_of(index.files@);
    assert forall|i: int, j: int|
        0 <= i < j < slots.len() && (#[trigger] slots[i]).live && (#[trigger] slots[j]).live implies !same_path(
        slots[i].path,
        slots[j].path,
    ) by {
        assert(current[i] == slots[i].path && current[j] == slots[j].path);
    }
    assert(distinct_live(slots));
    assert forall|i: int| 0 <= i < slots.len() && (#[trigger] slots[i]).live implies lists(current, slots[i].path)
        && slots[i].trigrams == now[components(slots[i].path)] by {
        assert(same_path(current[i], slots[i].path));
        let wanted = states[i].trigrams();
        assert forall|t: Trigram| slots[i].trigrams.contains(t) == wanted.contains(t) by {
            assert(ids_at(index.postings@, t).contains(i as u32) == states[i].built_trigrams().contains(t));
        }
        assert(slots[i].trigrams =~= wanted);
    }
    assert forall|j: int| 0 <= j < current.len() implies has_live(slots, #[trigger] current[j]) by {
        assert(slots[j].live && same_path(slots[j].path, current[j]));
    }
}

/// Whatever is chosen, the index that results is exact for the files now under the
/// root: it is kept, or the plan is applied to it, or it is built anew from them.
pub proof fn every_choice_is_exact(
    plan: UpdatePlan,
    live: int,
    slots: Seq<Slot>,
    current: Strings,
    metas: Seq<Option<FileMeta>>,
    changed_states: Seq<FileState>,
    added_states: Seq<FileState>,
    now: Map<Strings, Set<Trigram>>,
    result: Seq<Slot>,
)
    requires
        slots.len() <= 0x1_0000_0000,
        distinct_live(slots),
        all_differ(current),
        plan.is_plan(slots, current, metas),
        forall|j: int|
            0 <= j < current.len() ==> (known_id(slots, #[trigger] current[j]) matches Some(id) ==> (!differs(
                metas[j],
                slots[id as int].meta,
            ) ==> slots[id as int].trigrams == now[components(current[j])])),
        forall|k: int|
            0 <= k < plan.changed@.len() ==> changed_states[k].trigrams() == now[components(
                current[(#[trigger] plan.changed@[k]).1 as int],
            )],
        forall|k: int|
            0 <= k < plan.added@.len() ==> added_states[k].trigrams() == now[components(
                current[(#[trigger] plan.added@[k]) as int],
            )],
        action_for(plan, live) == UpdateAction::Keep ==> result == slots,
        action_for(plan, live) == UpdateAction::Patch ==> result == plan.applied(
            slots,
            current,
            changed_states,
            added_states,
        ),
        action_for(plan, live) == UpdateAction::Rebuild ==> exact(result, current, now),
    ensures
        exact(result, current, now),
{
    update_is_exact(plan, slots, current, metas, changed_states, added_states, now);
    nothing_is_done_only_if_nothing_differs(plan, live);
    if action_for(plan, live) == UpdateAction::Keep {
        assert(plan.applied(slots, current, changed_states, added_states) == slots);
    }
}

/// One of the first `n` changes gives the file with the id `i` the metadata `m`.
spec fn changes_meta(changed: Seq<(u32, int)>, states: Seq<FileState>, n: nat, i: int, m: FileMeta) -> bool {
    exists|k: int| 0 <= k < n && (#[trigger] changed[k]).0 == i && states[k].meta == Some(m)
}

proof fn lemma_change_metas(slots: Seq<Slot>, changed: Seq<(u32, int)>, states: Seq<FileState>, n: nat)
    requires
        n <= changed.len(),
        forall|k: int| 0 <= k < changed.len() ==> (#[trigger] changed[k]).0 < slots.len(),
        forall|k: int| 0 <= k < changed.len() ==> (#[trigger] states[k]).meta is Some,
    ensures
        change_all(slots, changed, states, n).len() == slots.len(),
        forall|i: int|
            0 <= i < slots.len() ==> (#[trigger] change_all(slots, changed, states, n)[i]).meta == slots[i].meta
                || changes_meta(changed, states, n, i, change_all(slots, changed, states, n)[i].meta),
        forall|i: int, k: int|
            0 <= i < slots.len() && 0 <= k < n && (#[trigger] changed[k]).0 == i ==> changes_meta(
                changed,
                states,
                n,
                i,
                (#[trigger] change_all(slots, changed, states, n)[i]).meta,
            ),
    decreases n,
{
    if n > 0 {
        let m = (n - 1) as nat;
        lemma_change_metas(slots, changed, states, m);
        let before = change_all(slots, changed, states, m);
        let after = change_all(slots, changed, states, n);
        let at = changed[n - 1].0 as int;
        assert(states[n - 1].meta is Some);
        assert(changes_meta(changed, states, n, at, after[at].meta)) by {
            assert(changed[n - 1].0 == at);
        }
        assert forall|i: int| 0 <= i < slots.len() && i != at implies #[trigger] after[i] == before[i] by {}
        assert forall|i: int, x: FileMeta| changes_meta(changed, states, m, i, x) implies #[trigger] changes_meta(
            changed,
            states,
            n,
            i,
            x,
        ) by {
            let k = choose|k: int| 0 <= k < m && (#[trigger] changed[k]).0 == i && states[k].meta == Some(x);
            assert(changed[k].0 == i);
        }
    }
}

/// Each live slot after additions was live before, or is that of an addition.
spec fn kept_or_added(before: Seq<Slot>, slot: Slot, i: int, current: Strings, added: Seq<int>, states: Seq<FileState>, n: nat) -> bool {
    ||| i < before.len() && before[i].live && slot == before[i]
    ||| exists|k: int| 0 <= k < n && slot == slot_added(current[#[trigger] added[k]], states[k])
}

proof fn lemma_kept_or_added(slots: Seq<Slot>, current: Strings, added: Seq<int>, states: Seq<FileState>, n: nat)
    ensures
        forall|i: int|
            0 <= i < add_all(slots, current, added, states, n).len() && (#[trigger] add_all(
                slots,
                current,
                added,
                states,
                n,
            )[i]).live ==> kept_or_added(
                slots,
                add_all(slots, current, added, states, n)[i],
                i,
                current,
                added,
                states,
                n,
            ),
    decreases n,
{
    if n > 0 {
        let m = (n - 1) as nat;
        lemma_kept_or_added(slots, current, added, states, m);
        let before = add_all(slots, current, added, states, m);
        let after = add_all(slots, current, added, states, n);
        let slot = slot_added(current[added[n - 1]], states[n - 1]);
        lemma_first_dead(before);
        assert forall|i: int| 0 <= i < after.len() && (#[trigger] after[i]).live implies kept_or_added(
            slots,
            after[i],
            i,
            current,
            added,
            states,
            n,
        ) by {
            if i == first_dead(before) {
                assert(after[i] == slot_added(current[added[n - 1]], states[n - 1]));
            } else {
                assert(after[i] == before[i]);
                if !(i < slots.len() && slots[i].live && before[i] == slots[i]) {
                    let k = choose|k: int| 0 <= k < m && before[i] == slot_added(current[#[trigger] added[k]], states[k]);
                    assert(after[i] == slot_added(current[added[k]], states[k]));
                }
            }
        }
    }
}

/// An index that was brought up to date is up to date: if nothing changes, the
/// next plan is empty. What was read of the files is recorded, so the metadata
/// that an update saw is not taken for a change again.
pub proof fn an_update_leaves_nothing_to_do(
    plan: UpdatePlan,
    slots: Seq<Slot>,
    current: Strings,
    metas: Seq<Option<FileMeta>>,
    changed_states: Seq<FileState>,
    added_states: Seq<FileState>,
    next: UpdatePlan,
)
    requires
        slots.len() + current.len() <= 0x1_0000_0000,
        metas.len() == current.len(),
        distinct_live(slots),
        all_differ(current),
        plan.is_plan(slots, current, metas),
        forall|j: int| 0 <= j < current.len() ==> (#[trigger] metas[j]) is Some,
        changed_states.len() == plan.changed@.len(),
        added_states.len() == plan.added@.len(),
        forall|k: int|
            0 <= k < plan.changed@.len() ==> changed_states[k].meta == metas[(#[trigger] plan.changed@[k]).1 as int],
        forall|k: int| 0 <= k < plan.added@.len() ==> added_states[k].meta == metas[(#[trigger] plan.added@[k]) as int],
        next.is_plan(plan.applied(slots, current, changed_states, added_states), current, metas),
    ensures
        next.added@.len() == 0,
        next.changed@.len() == 0,
        next.removed@.len() == 0,
        next.unchanged == current.len(),
{
    let after = plan.applied(slots, current, changed_states, added_states);
    lemma_updated(plan, slots, current, metas, changed_states, added_states);
    lemma_added_upto(after, current, current.len());
    lemma_changed_upto(after, current, metas, current.len());
    lemma_removed_upto(after, current, after.len());
    if next.added@.len() > 0 {
        let j = position_ints(next.added@)[0];
        lemma_known(after, current[j], after.len());
        assert(has_live(after, current[j]));
        let i = choose|i: int| 0 <= i < after.len() && (#[trigger] after[i]).live && same_path(after[i].path, current[j]);
        assert(after[i].live);
    }
    if next.changed@.len() > 0 {
        let (id, j) = changed_ints(next.changed@)[0];
        lemma_known(after, current[j], after.len());
        assert(after[id as int].live);
        let k = choose|k: int|
            0 <= k < current.len() && same_path(#[trigger] current[k], after[id as int].path) && metas[k] == Some(
                after[id as int].meta,
            );
        assert(same_path(current[k], current[j]));
        assert(k == j) by {
            if k < j {
                assert(!same_path(current[k], current[j]));
            } else if j < k {
                assert(!same_path(current[j], current[k]));
            }
        }
    }
    if next.removed@.len() > 0 {
        let id = next.removed@[0];
        assert(next.removed@.contains(id));
        assert(after[id as int].live);
        let k = choose|k: int|
            0 <= k < current.len() && same_path(#[trigger] current[k], after[id as int].path) && metas[k] == Some(
                after[id as int].meta,
            );
        assert(lists(current, after[id as int].path));
    }
}

proof fn lemma_updated(
    plan: UpdatePlan,
    slots: Seq<Slot>,
    current: Strings,
    metas: Seq<Option<FileMeta>>,
    changed_states: Seq<FileState>,
    added_states: Seq<FileState>,
)
    requires
        slots.len() + current.len() <= 0x1_0000_0000,
        metas.len() == current.len(),
        distinct_live(slots),
        all_differ(current),
        plan.is_plan(slots, current, metas),
        forall|j: int| 0 <= j < current.len() ==> (#[trigger] metas[j]) is Some,
        changed_states.len() == plan.changed@.len(),
        added_states.len() == plan.added@.len(),
        forall|k: int|
            0 <= k < plan.changed@.len() ==> changed_states[k].meta == metas[(#[trigger] plan.changed@[k]).1 as int],
        forall|k: int| 0 <= k < plan.added@.len() ==> added_states[k].meta == metas[(#[trigger] plan.added@[k]) as int],
    ensures
        plan.applied(slots, current, changed_states, added_states).len() <= 0x1_0000_0000,
        forall|j: int|
            0 <= j < current.len() ==> has_live(
                plan.applied(slots, current, changed_states, added_states),
                #[trigger] current[j],
            ),
        forall|i: int|
            0 <= i < plan.applied(slots, current, changed_states, added_states).len() && (#[trigger] plan.applied(
                slots,
                current,
                changed_states,
                added_states,
            )[i]).live ==> exists|k: int|
                0 <= k < current.len() && same_path(
                    #[trigger] current[k],
                    plan.applied(slots, current, changed_states, added_states)[i].path,
                ) && metas[k] == Some(plan.applied(slots, current, changed_states, added_states)[i].meta),
{
    let after = plan.applied(slots, current, changed_states, added_states);
    plan_fits(plan, slots, current, metas);
    lemma_removed_upto(slots, current, slots.len());
    lemma_added_upto(slots, current, current.len());
    lemma_changed_upto(slots, current, metas, current.len());
    lemma_remove_all(slots, plan.removed@);
    let cleared = remove_all(slots, plan.removed@);
    let changes = changed_ints(plan.changed@);
    let added = position_ints(plan.added@);
    assert forall|k: int| 0 <= k < changes.len() implies (#[trigger] changes[k]).0 < cleared.len() by {
        assert(changes[k].0 == plan.changed@[k].0);
    }
    assert forall|k: int| 0 <= k < changes.len() implies (#[trigger] changed_states[k]).meta is Some by {
        assert(changes[k].1 == plan.changed@[k].1);
        assert(metas[plan.changed@[k].1 as int] is Some);
    }
    lemma_change_all(cleared, changes, changed_states, changes.len());
    lemma_change_metas(cleared, changes, changed_states, changes.len());
    let patched = change_all(cleared, changes, changed_states, changes.len());
    assert forall|i: int| 0 <= i < slots.len() implies (#[trigger] patched[i]).live == (slots[i].live && lists(
        current,
        slots[i].path,
    )) && patched[i].path == slots[i].path by {
        assert(cleared[i] == if plan.removed@.contains(i as u32) {
            slot_removed(slots[i])
        } else {
            slots[i]
        });
    }
    lemma_kept_or_added(patched, current, added, added_states, added.len());
    lemma_slots_are_there(plan, slots, current, metas, changed_states, added_states);
    assert forall|i: int| 0 <= i < after.len() && (#[trigger] after[i]).live implies exists|k: int|
        0 <= k < current.len() && same_path(#[trigger] current[k], after[i].path) && metas[k] == Some(after[i].meta) by {
        assert(kept_or_added(patched, after[i], i, current, added, added_states, added.len()));
        if i < patched.len() && patched[i].live && after[i] == patched[i] {
            let path = slots[i].path;
            let j = choose|j: int| 0 <= j < current.len() && same_path(#[trigger] current[j], path);
            lemma_known(slots, path, slots.len());
            let id = known_id(slots, path)->0;
            assert(slots[i].live);
            if id != i {
                assert(slots[id as int].live && same_path(slots[id as int].path, path));
                if id < i {
                    assert(!same_path(slots[id as int].path, slots[i].path));
                } else {
                    assert(!same_path(slots[i].path, slots[id as int].path));
                }
            }
            lemma_known_alike(slots, current[j], path, slots.len());
            assert(known_id(slots, current[j]) == Some(id));
            if changes_meta(changes, changed_states, changes.len(), i, patched[i].meta) {
                let k = choose|k: int|
                    0 <= k < changes.len() && (#[trigger] changes[k]).0 == i && changed_states[k].meta == Some(
                        patched[i].meta,
                    );
                let at = changes[k].1;
                assert(plan.changed@[k].1 == at);
                lemma_known(slots, current[at], slots.len());
                assert(same_path(current[at], after[i].path));
                assert(metas[at] == Some(after[i].meta));
            } else {
                assert(patched[i].meta == cleared[i].meta);
                assert(!plan.removed@.contains(i as u32));
                assert(!differs(metas[j], slots[id as int].meta)) by {
                    if differs(metas[j], slots[id as int].meta) {
                        assert(changes.contains((id, j)));
                        let k = choose|k: int| 0 <= k < changes.len() && changes[k] == (id, j);
                        assert(changes[k].0 == i);
                    }
                }
                assert(metas[j] == Some(after[i].meta));
                assert(same_path(current[j], after[i].path));
            }
        } else {
            let k = choose|k: int|
                0 <= k < added.len() && after[i] == slot_added(current[#[trigger] added[k]], added_states[k]);
            assert(added[k] == plan.added@[k]);
            assert(metas[added[k]] is Some);
            assert(same_path(current[added[k]], after[i].path) && metas[added[k]] == Some(after[i].meta));
        }
    }
}

/// Which files an index has after an update does not depend on their content.
proof fn lemma_slots_are_there(
    plan: UpdatePlan,
    slots: Seq<Slot>,
    current: Strings,
    metas: Seq<Option<FileMeta>>,
    changed_states: Seq<FileState>,
    added_states: Seq<FileState>,
)
    requires
        slots.len() + current.len() <= 0x1_0000_0000,
        distinct_live(slots),
        all_differ(current),
        plan.is_plan(slots, current, metas),
    ensures
        plan.applied(slots, current, changed_states, added_states).len() <= 0x1_0000_0000,
        forall|j: int|
            0 <= j < current.len() ==> has_live(
                plan.applied(slots, current, changed_states, added_states),
                #[trigger] current[j],
            ),
{
    let after = plan.applied(slots, current, changed_states, added_states);
    plan_fits(plan, slots, current, metas);
    lemma_removed_upto(slots, current, slots.len());
    lemma_added_upto(slots, current, current.len());
    lemma_changed_upto(slots, current, metas, current.len());
    lemma_remove_all(slots, plan.removed@);
    let cleared = remove_all(slots, plan.removed@);
    let changes = changed_ints(plan.changed@);
    let added = position_ints(plan.added@);
    assert forall|k: int| 0 <= k < changes.len() implies (#[trigger] changes[k]).0 < cleared.len() by {
        assert(changes[k].0 == plan.changed@[k].0);
    }
    lemma_change_all(cleared, changes, changed_states, changes.len());
    let patched = change_all(cleared, changes, changed_states, changes.len());
    assert forall|i: int| 0 <= i < slots.len() implies (#[trigger] patched[i]).live == (slots[i].live && lists(
        current,
        slots[i].path,
    )) && patched[i].path == slots[i].path by {
        assert(cleared[i] == if plan.removed@.contains(i as u32) {
            slot_removed(slots[i])
        } else {
            slots[i]
        });
    }
    lemma_add_len(patched, current, added, added_states, added.len());
    lemma_added_count(slots, current, current.len());
    assert(distinct_live(patched)) by {
        assert forall|i: int, j: int|
            0 <= i < j < patched.len() && (#[trigger] patched[i]).live && (#[trigger] patched[j]).live implies !same_path(
            patched[i].path,
            patched[j].path,
        ) by {
            assert(slots[i].live && slots[j].live);
        }
    }
    assert forall|k: int, l: int| 0 <= k < l < added.len() implies !same_path(
        current[#[trigger] added[k]],
        current[#[trigger] added[l]],
    ) by {
        assert(added[k] < added[l]);
    }
    assert forall|k: int, i: int|
        0 <= k < added.len() && 0 <= i < patched.len() && (#[trigger] patched[i]).live implies !same_path(
        patched[i].path,
        current[#[trigger] added[k]],
    ) by {
        lemma_known(slots, current[added[k]], slots.len());
        assert(slots[i].live);
    }
    lemma_add_all(patched, current, added, added_states, added.len());
    assert forall|j: int| 0 <= j < current.len() implies has_live(after, #[trigger] current[j]) by {
        lemma_known(slots, current[j], slots.len());
        match known_id(slots, current[j]) {
            Some(id) => {
                assert(same_path(current[j], slots[id as int].path));
                assert(patched[id as int].live);
                assert(after[id as int] == patched[id as int]);
                assert(after[id as int].live && same_path(after[id as int].path, current[j]));
            },
            None => {
                assert(added.contains(j));
                let k = choose|k: int| 0 <= k < added.len() && added[k] == j;
                let i = choose|i: int|
                    0 <= i < after.len() && (#[trigger] after[i]).live && after[i].path == current[added[k]];
                assert(after[i].live && same_path(after[i].path, current[j]));
            },
        }
    }
}

proof fn lemma_add_len(slots: Seq<Slot>, current: Strings, added: Seq<int>, states: Seq<FileState>, n: nat)
    ensures
        add_all(slots, current, added, states, n).len() <= slots.len() + n,
    decreases n,
{
    if n > 0 {
        lemma_add_len(slots, current, added, states, (n - 1) as nat);
        lemma_first_dead(add_all(slots, current, added, states, (n - 1) as nat));
    }
}

proof fn lemma_added_count(slots: Seq<Slot>, current: Strings, n: nat)
    ensures
        added_upto(slots, current, n).len() <= n,
    decreases n,
{
    if n > 0 {
        lemma_added_count(slots, current, (n - 1) as nat);
    }
}

/// Removing, changing and adding a file: a removed one is no longer live and has
/// no trigrams; a changed one keeps its path and has the trigrams and the metadata
/// that could be read; a new one goes to the first slot that is free, or to the
/// end, and nothing else changes.
pub proof fn files_are_patched_in_place(slots: Seq<Slot>, slot: Slot, path: Seq<u8>, state: FileState)
    ensures
        !slot_removed(slot).live,
        slot_removed(slot).trigrams == Set::<Trigram>::empty(),
        slot_removed(slot).path == slot.path,
        slot_changed(slot, state).path == slot.path,
        slot_changed(slot, state).live == slot.live,
        state.meta matches Some(meta) ==> slot_changed(slot, state).meta == meta && slot_added(path, state).meta == meta,
        state.meta is None ==> slot_changed(slot, state).meta == slot.meta,
        state.bytes matches Some(bytes) ==> slot_changed(slot, state).trigrams == content_trigrams(bytes@) && slot_added(
            path,
            state,
        ).trigrams == content_trigrams(bytes@),
        state.bytes is None ==> slot_changed(slot, state).trigrams == Set::<Trigram>::empty(),
        slot_added(path, state).path == path,
        slot_added(path, state).live,
        forall|at: int|
            0 <= at < slots.len() && !slots[at].live && (forall|i: int| 0 <= i < at ==> (#[trigger] slots[i]).live)
                ==> with_added(slots, slot) == #[trigger] slots.update(at, slot),
        (forall|i: int| 0 <= i < slots.len() ==> (#[trigger] slots[i]).live) ==> with_added(slots, slot) == slots.push(slot),
{
    lemma_first_dead(slots);
    assert forall|at: int|
        0 <= at < slots.len() && !slots[at].live && (forall|i: int| 0 <= i < at ==> (#[trigger] slots[i]).live) implies with_added(
        slots,
        slot,
    ) == #[trigger] slots.update(at, slot) by {
        let d = first_dead(slots);
        if d < at {
            assert(slots[d].live);
        }
        if at < d {
            assert(slots[at].live);
        }
    }
}

/// The three bytes from `i` on make the trigram `t`, as they are or lowercased.
pub open spec fn holds_at(bytes: Seq<u8>, t: Trigram, i: int) -> bool {
    ||| t == pack(bytes[i], bytes[i + 1], bytes[i + 2])
    ||| t == pack(lower_byte(bytes[i]), lower_byte(bytes[i + 1]), lower_byte(bytes[i + 2]))
}

/// A file is indexed under each three bytes in a row that it or its lowercased
/// form holds, unless there is a NUL byte among its first 512.
pub proof fn files_are_indexed_under_their_windows(bytes: Seq<u8>, t: Trigram)
    ensures
        content_trigrams(bytes).contains(t) <==> (forall|i: int| 0 <= i < bytes.len() && i < 512 ==> bytes[i] != 0)
            && exists|i: int| 0 <= i < bytes.len() - 2 && #[trigger] holds_at(bytes, t, i),
{
    let sample = leading(bytes, INDEX_SAMPLE as nat);
    if binary(sample) {
        let i = choose|i: int| 0 <= i < sample.len() && sample[i] == 0;
        assert(bytes[i] == 0);
    } else {
        assert forall|i: int| 0 <= i < bytes.len() && i < 512 implies bytes[i] != 0 by {
            if bytes[i] == 0 {
                assert(sample[i] == 0);
            }
        }
    }
    let (plain, low) = (trigrams(bytes), trigrams(lower(bytes)));
    if plain.to_set().contains(t) {
        let i = choose|i: int| 0 <= i < plain.len() && plain[i] == t;
        assert(holds_at(bytes, t, i));
    }
    if low.to_set().contains(t) {
        let i = choose|i: int| 0 <= i < low.len() && low[i] == t;
        assert(holds_at(bytes, t, i));
    }
    if exists|i: int| 0 <= i < bytes.len() - 2 && #[trigger] holds_at(bytes, t, i) {
        let i = choose|i: int| 0 <= i < bytes.len() - 2 && #[trigger] holds_at(bytes, t, i);
        if t == pack(bytes[i], bytes[i + 1], bytes[i + 2]) {
            assert(plain[i] == t);
            assert(plain.to_set().contains(t));
        } else {
            assert(low[i] == t);
            assert(low.to_set().contains(t));
        }
    }
}

/// A fresh index records of each file that could be read completely what was read,
/// and of any other nothing.
pub proof fn fresh_index_records_what_was_read(states: Seq<FileState>, i: int)
    requires
        0 <= i < states.len(),
    ensures
        built_metas(states).len() == states.len(),
        states[i].meta is Some && states[i].bytes is Some ==> built_metas(states)[i] == states[i].meta->0
            && states[i].built_trigrams() == content_trigrams(states[i].bytes->0@),
        states[i].meta is None || states[i].bytes is None ==> built_metas(states)[i] == (FileMeta {
            mtime_secs: 0,
            size: 0,
        }) && states[i].built_trigrams() == Set::<Trigram>::empty(),
{
}

/// The files that are resolved are the live and wanted ones, each once, in the
/// order of their ids.
pub proof fn files_are_resolved_in_order(files: Strings, removed: Set<u32>, wanted: Option<Set<u32>>, n: nat)
    ensures
        resolved(files, removed, wanted, n) == Seq::new(n, |i: int| i).filter(
            |i: int| !removed.contains(i as u32) && (wanted is None || wanted->0.contains(i as u32)),
        ).map_values(|i: int| files[i]),
    decreases n,
{
    reveal(Seq::filter);
    let f = |i: int| !removed.contains(i as u32) && (wanted is None || wanted->0.contains(i as u32));
    let g = |i: int| files[i];
    let all = Seq::new(n, |i: int| i);
    if n == 0 {
        assert(all =~= Seq::empty());
        assert(all.filter(f).map_values(g) =~= Seq::empty());
    } else {
        files_are_resolved_in_order(files, removed, wanted, (n - 1) as nat);
        assert(all.drop_last() =~= Seq::new((n - 1) as nat, |i: int| i));
        assert(all.filter(f).map_values(g) =~= resolved(files, removed, wanted, n));
    }
}

/// A worker is handed an equal share of the files, rounded down, but 64 at least
/// and never more than there are; there is always something to hand out.
pub proof fn shares_are_even(n: nat, workers: nat)
    requires
        workers > 0,
    ensures
        1 <= share(n, workers),
        n > 0 ==> share(n, workers) <= n,
        n <= 64 && n > 0 ==> share(n, workers) == n,
        n > 64 ==> share(n, workers) >= 64,
        share(n, workers) > 64 ==> share(n, workers) * workers <= n < (share(n, workers) + 1) * workers,
{
    vstd::arithmetic::div_mod::lemma_fundamental_div_mod(n as int, workers as int);
    let q = n / workers;
    assert(q * workers <= n < (q + 1) * workers) by (nonlinear_arith)
        requires
            n as int == workers * q + (n as int % workers as int),
            0 <= (n as int % workers as int) < workers,
    ;
    assert(q <= n) by (nonlinear_arith)
        requires
            q * workers <= n,
            workers > 0,
    ;
}

proof fn lemma_removed_ascend(slots: Seq<Slot>, current: Strings, n: nat)
    requires
        n <= slots.len() <= 0x1_0000_0000,
    ensures
        forall|k: int, l: int|
            0 <= k < l < removed_upto(slots, current, n).len() ==> removed_upto(slots, current, n)[k] < removed_upto(
                slots,
                current,
                n,
            )[l],
    decreases n,
{
    if n > 0 {
        let m = (n - 1) as nat;
        lemma_removed_ascend(slots, current, m);
        lemma_removed_upto(slots, current, m);
        let (less, more) = (removed_upto(slots, current, m), removed_upto(slots, current, n));
        assert forall|k: int, l: int| 0 <= k < l < more.len() implies more[k] < more[l] by {
            assert(more[k] == less[k]);
            if l < less.len() {
                assert(more[l] == less[l]);
                assert(less[k] < less[l]);
            } else {
                assert(less[k] < m);
            }
        }
    }
}

proof fn lemma_changed_ascend(slots: Seq<Slot>, current: Strings, metas: Seq<Option<FileMeta>>, n: nat)
    requires
        n <= current.len(),
    ensures
        forall|k: int, l: int|
            0 <= k < l < changed_upto(slots, current, metas, n).len() ==> (#[trigger] changed_upto(
                slots,
                current,
                metas,
                n,
            )[k]).1 < (#[trigger] changed_upto(slots, current, metas, n)[l]).1,
        forall|k: int|
            0 <= k < changed_upto(slots, current, metas, n).len() ==> (#[trigger] changed_upto(slots, current, metas, n)[k]).1
                < n,
    decreases n,
{
    if n > 0 {
        let m = (n - 1) as nat;
        lemma_changed_ascend(slots, current, metas, m);
        let (less, more) = (changed_upto(slots, current, metas, m), changed_upto(slots, current, metas, n));
        assert forall|k: int| 0 <= k < more.len() implies (#[trigger] more[k]).1 < n by {
            if k < less.len() {
                assert(more[k] == less[k]);
                assert(less[k].1 < m);
            }
        }
        assert forall|k: int, l: int| 0 <= k < l < more.len() implies (#[trigger] more[k]).1 < (#[trigger] more[l]).1 by {
            assert(more[k] == less[k]);
            assert(less[k].1 < m);
            if l < less.len() {
                assert(more[l] == less[l]);
                assert(less[k].1 < less[l].1);
            }
        }
    }
}

} // verus!
