//! The on-disk form of an index.
//!
//! A version-tagged header is followed by the files with their metadata, the
//! postings in ascending order of their trigrams, and the removed ids. Numbers
//! are little-endian.

use roaring::RoaringBitmap;
use rustc_hash::FxHashMap;
use vstd::prelude::*;
use vstd::slice::slice_subrange;
use vstd::utf8::{encode_utf8, valid_utf8};

use crate::bitmap::{
    ascending, ascending_members, bitmap_bytes, bitmap_ids, bitmap_parsed, in_form, lemma_ascending_unique,
    new_bitmap, read_bitmap, write_bitmap,
};
use crate::fx;
use crate::index::{no_meta, postings_in_form, FileMeta, Index};
use crate::query::Postings;
use crate::sort::merge_sort;
use crate::strings::{starts_with, strings_of, Strings};
use crate::text::{decode_lossy, lossy, lossy_text, push_lossy, text_is_shown_as_it_is};
use crate::trigram::Trigram;
use crate::wire::{
    from_bits, le_bytes, le_value, lemma_capacity, lemma_le_len, lemma_le_round_trip, lemma_le_value_bound, push_le,
    push_u32, push_u64, read_u32, read_u64, signed_bits, signed_value, to_bits,
};

verus! {

/// What an index file starts with: the letters `IGRUST`, a NUL byte and the
/// version of the format.
pub open spec fn header() -> Seq<u8> {
    seq![73u8, 71u8, 82u8, 85u8, 83u8, 84u8, 0u8, 3u8]
}

/// What an index holds.
#[verifier::ext_equal]
pub struct IndexData {
    pub files: Strings,
    pub metas: Seq<FileMeta>,
    /// Per trigram, the ids of the files that contain it.
    pub postings: Map<Trigram, Set<u32>>,
    pub removed: Set<u32>,
    pub build_time_us: int,
}

/// The ids that postings hold.
pub open spec fn posting_sets(postings: Map<Trigram, RoaringBitmap>) -> Map<Trigram, Set<u32>> {
    Map::new(|t: Trigram| postings.contains_key(t), |t: Trigram| bitmap_ids(postings[t]))
}

impl Index {
    /// What the index holds.
    pub open spec fn data(self) -> IndexData {
        IndexData {
            files: strings_of(self.files@),
            metas: self.metas@,
            postings: posting_sets(self.postings@),
            removed: bitmap_ids(self.removed_ids),
            build_time_us: self.build_time_us as int,
        }
    }
}

/// Why an index file cannot be read.
#[derive(Debug, Clone, Copy, PartialEq, Eq, Structural)]
pub enum LoadError {
    /// It ends too early.
    Truncated,
    /// The ids of a trigram are malformed.
    InvalidBitmap,
}

/// The metadata at position `i`, if there is some.
pub open spec fn meta_at(metas: Seq<FileMeta>, i: int) -> FileMeta {
    if 0 <= i < metas.len() {
        metas[i]
    } else {
        no_meta()
    }
}

/// The stored form of a file: its path as text, behind its length, and its
/// metadata.
pub open spec fn file_bytes(path: Seq<u8>, meta: FileMeta) -> Seq<u8> {
    le_bytes(lossy(path).len(), 4) + lossy(path) + le_bytes(signed_bits(meta.mtime_secs) as nat, 8) + le_bytes(
        meta.size as nat,
        8,
    )
}

/// The stored form of the first `n` files.
pub open spec fn files_bytes(files: Strings, metas: Seq<FileMeta>, n: nat) -> Seq<u8>
    decreases n,
{
    if n == 0 {
        Seq::empty()
    } else {
        files_bytes(files, metas, (n - 1) as nat) + file_bytes(files[n - 1], meta_at(metas, n - 1))
    }
}

/// The stored form of the postings of the first `n` trigrams of `keys`.
pub open spec fn postings_bytes(postings: Map<Trigram, RoaringBitmap>, keys: Seq<u32>, n: nat) -> Seq<u8>
    decreases n,
{
    if n == 0 {
        Seq::empty()
    } else {
        postings_bytes(postings, keys, (n - 1) as nat) + le_bytes(keys[n - 1] as nat, 4) + bitmap_bytes(
            postings[keys[n - 1]],
        )
    }
}

/// A build time as it is stored.
pub open spec fn stored_time(us: u128) -> nat {
    if us <= u64::MAX {
        us as nat
    } else {
        u64::MAX as nat
    }
}

/// The fixed part of the stored form: the header, the number of files and of
/// trigrams, and the build time.
pub open spec fn preamble(index: Index) -> Seq<u8> {
    header() + le_bytes(index.files@.len(), 4) + le_bytes(index.postings@.dom().len(), 4) + le_bytes(
        stored_time(index.build_time_us),
        8,
    )
}

/// The stored form of an index.
pub open spec fn index_bytes(index: Index) -> Seq<u8> {
    let keys = ascending_members(index.postings@.dom());
    preamble(index) + files_bytes(strings_of(index.files@), index.metas@, index.files@.len()) + postings_bytes(
        index.postings@,
        keys,
        keys.len(),
    ) + bitmap_bytes(index.removed_ids)
}

/// The number in the `n` bytes from `pos` on.
pub open spec fn number_at(data: Seq<u8>, pos: int, n: int) -> nat {
    le_value(data.subrange(pos, pos + n))
}

/// The first `n` files stored from `pos` on, their metadata, and where they
/// end; `None` if `data` ends before them.
pub open spec fn parse_files(data: Seq<u8>, pos: int, n: nat) -> Option<(Strings, Seq<FileMeta>, int)>
    decreases n,
{
    if n == 0 {
        Some((Seq::empty(), Seq::empty(), pos))
    } else {
        match parse_files(data, pos, (n - 1) as nat) {
            None => None,
            Some((files, metas, at)) => if at + 4 > data.len() {
                None
            } else {
                let len = number_at(data, at, 4) as int;
                let end = at + 4 + len + 16;
                if end > data.len() {
                    None
                } else {
                    Some(
                        (
                            files.push(lossy(data.subrange(at + 4, at + 4 + len))),
                            metas.push(
                                FileMeta {
                                    mtime_secs: signed_value(number_at(data, at + 4 + len, 8) as u64),
                                    size: number_at(data, at + 4 + len + 8, 8) as u64,
                                },
                            ),
                            end,
                        ),
                    )
                }
            },
        }
    }
}

/// The first `n` postings stored from `pos` on and where they end.
pub open spec fn parse_postings(data: Seq<u8>, pos: int, n: nat) -> Result<(Map<Trigram, Set<u32>>, int), LoadError>
    decreases n,
{
    if n == 0 {
        Ok((Map::empty(), pos))
    } else {
        match parse_postings(data, pos, (n - 1) as nat) {
            Err(e) => Err(e),
            Ok((map, at)) => if at + 4 > data.len() {
                Err(LoadError::Truncated)
            } else {
                match bitmap_parsed(data.skip(at + 4)) {
                    None => Err(LoadError::InvalidBitmap),
                    Some((ids, used)) => Ok((map.insert(number_at(data, at, 4) as u32, ids), at + 4 + used)),
                }
            },
        }
    }
}

/// The removed ids stored from `pos` on; an older or truncated tail stands for
/// none.
pub open spec fn parse_removed(data: Seq<u8>, pos: int) -> Set<u32> {
    match bitmap_parsed(data.skip(pos)) {
        Some((ids, _)) => ids,
        None => Set::empty(),
    }
}

/// What an index file holds: `None` if it is of an unknown or stale format.
pub open spec fn parse_index(data: Seq<u8>) -> Result<Option<IndexData>, LoadError> {
    if !header().is_prefix_of(data) {
        Ok(None)
    } else if data.len() < 24 {
        Err(LoadError::Truncated)
    } else {
        match parse_files(data, 24, number_at(data, 8, 4)) {
            None => Err(LoadError::Truncated),
            Some((files, metas, at)) => match parse_postings(data, at, number_at(data, 12, 4)) {
                Err(e) => Err(e),
                Ok((postings, end)) => Ok(
                    Some(
                        IndexData {
                            files,
                            metas,
                            postings,
                            removed: parse_removed(data, end),
                            build_time_us: number_at(data, 16, 8) as int,
                        },
                    ),
                ),
            },
        }
    }
}

/// What came of reading an index file.
pub open spec fn loaded(out: Result<Option<Index>, LoadError>) -> Result<Option<IndexData>, LoadError> {
    match out {
        Ok(Some(index)) => Ok(Some(index.data())),
        Ok(None) => Ok(None),
        Err(e) => Err(e),
    }
}

/// The numbers of an index fit the format.
pub open spec fn storable(index: Index) -> bool {
    &&& index.files@.len() < 0x1_0000_0000
    &&& index.postings@.dom().len() < 0x1_0000_0000
    &&& forall|i: int| 0 <= i < index.files@.len() ==> lossy((#[trigger] index.files@[i])@).len() < 0x1_0000_0000
}

/// What the stored form keeps of an index: paths as text, metadata for every
/// file, and a build time that fits.
pub open spec fn stored(index: Index) -> IndexData {
    IndexData {
        files: Seq::new(index.files@.len(), |i: int| lossy(index.files@[i]@)),
        metas: Seq::new(index.files@.len(), |i: int| meta_at(index.metas@, i)),
        postings: posting_sets(index.postings@),
        removed: bitmap_ids(index.removed_ids),
        build_time_us: stored_time(index.build_time_us) as int,
    }
}

/// The trigrams with postings, ascending.
pub(crate) fn posting_keys(postings: &Postings) -> (keys: Vec<u32>)
    ensures
        keys@ == ascending_members(postings@.dom()),
        ascending(keys@),
        keys@.to_set() == postings@.dom(),
        keys@.len() == postings@.dom().len(),
{
    let unsorted = fx::map_keys(postings);
    let keys = merge_sort(unsorted);
    proof {
        broadcast use vstd::seq_lib::group_to_multiset_ensures;

        let (u, k) = (unsorted@, keys@);
        u.to_multiset_ensures();
        k.to_multiset_ensures();
        u.unique_seq_to_set();
        assert forall|x: u32| u.to_set().contains(x) == k.to_set().contains(x) by {
            assert(u.contains(x) == (u.to_multiset().count(x) > 0));
            assert(k.contains(x) == (k.to_multiset().count(x) > 0));
        }
        assert(u.to_set() =~= k.to_set());
        u.lemma_multiset_has_no_duplicates();
        assert forall|x: u32| k.to_multiset().contains(x) implies k.to_multiset().count(x) == 1 by {
            assert(u.to_multiset().contains(x));
        }
        k.lemma_multiset_has_no_duplicates_conv();
        assert(ascending(k)) by {
            assert forall|i: int, j: int| 0 <= i < j < k.len() implies k[i] < k[j] by {
                assert(k[i] <= k[j]);
                assert(k[i] != k[j]);
            }
        }
        lemma_ascending_unique(k, ascending_members(postings@.dom()));
    }
    keys
}

/// A bitmap is read back from its serialized form, whatever follows.
spec fn reads_back(bitmap: RoaringBitmap) -> bool {
    forall|tail: Seq<u8>| #[trigger]
        bitmap_parsed(bitmap_bytes(bitmap) + tail) == Some((bitmap_ids(bitmap), bitmap_bytes(bitmap).len()))
}

/// Append the stored form of the files.
fn push_files(out: &mut Vec<u8>, files: &Vec<Vec<u8>>, metas: &Vec<FileMeta>)
    ensures
        final(out)@ == old(out)@ + files_bytes(strings_of(files@), metas@, files@.len()),
{
    let ghost before = out@;
    let ghost paths = strings_of(files@);
    let mut i: usize = 0;
    assert(before + files_bytes(paths, metas@, 0) =~= before);
    while i < files.len()
        invariant
            i <= files@.len(),
            paths == strings_of(files@),
            out@ == before + files_bytes(paths, metas@, i as nat),
        decreases files@.len() - i,
    {
        let ghost done = out@;
        let text = decode_lossy(&files[i]);
        let path = text.as_str().as_bytes();
        let meta = if i < metas.len() {
            metas[i]
        } else {
            FileMeta::default()
        };
        push_le(out, path.len() as u64, 4);
        out.extend_from_slice(path);
        push_u64(out, to_bits(meta.mtime_secs));
        push_u64(out, meta.size);
        proof {
            assert(path@ == lossy(paths[i as int]));
            assert(meta == meta_at(metas@, i as int));
            assert(out@ =~= done + file_bytes(paths[i as int], meta));
            assert(out@ =~= before + files_bytes(paths, metas@, (i + 1) as nat));
        }
        i += 1;
    }
}

/// Append the stored form of the postings.
fn push_postings(out: &mut Vec<u8>, postings: &Postings, keys: &Vec<u32>)
    requires
        keys@.to_set() == postings@.dom(),
    ensures
        final(out)@ == old(out)@ + postings_bytes(postings@, keys@, keys@.len()),
        forall|t: Trigram| #[trigger] postings@.contains_key(t) && in_form(postings@[t]) ==> reads_back(postings@[t]),
{
    let ghost before = out@;
    let mut i: usize = 0;
    assert(before + postings_bytes(postings@, keys@, 0) =~= before);
    while i < keys.len()
        invariant
            i <= keys@.len(),
            keys@.to_set() == postings@.dom(),
            out@ == before + postings_bytes(postings@, keys@, i as nat),
            forall|j: int|
                0 <= j < i && in_form(postings@[#[trigger] keys@[j]]) ==> reads_back(postings@[keys@[j]]),
        decreases keys@.len() - i,
    {
        let key = keys[i];
        let ghost done = out@;
        proof {
            assert(keys@.contains(key));
            assert(postings@.dom().contains(key));
        }
        push_u32(out, key);
        // The portable format is self-delimiting, so no length prefix is
        // needed: the reader consumes exactly as many bytes as the writer emits.
        if let Some(bitmap) = fx::map_get(postings, &key) {
            let bytes = write_bitmap(bitmap);
            out.extend_from_slice(&bytes);
            assert(in_form(*bitmap) ==> reads_back(*bitmap));
        }
        proof {
            assert(out@ =~= done + le_bytes(key as nat, 4) + bitmap_bytes(postings@[key]));
            assert(out@ =~= before + postings_bytes(postings@, keys@, (i + 1) as nat));
        }
        i += 1;
    }
    assert forall|t: Trigram| #[trigger] postings@.contains_key(t) && in_form(postings@[t]) implies reads_back(
        postings@[t],
    ) by {
        assert(postings@.dom().contains(t));
        assert(keys@.contains(t));
        let j = choose|j: int| 0 <= j < keys@.len() && keys@[j] == t;
        assert(reads_back(postings@[keys@[j]]));
    }
}

/// The number that `le_bytes(x, n)` stands for, wherever it stands.
proof fn lemma_number_at(data: Seq<u8>, a: Seq<u8>, x: nat, n: nat, b: Seq<u8>)
    requires
        data == a + le_bytes(x, n) + b,
        x < crate::wire::capacity(n),
    ensures
        a.len() + n <= data.len(),
        number_at(data, a.len() as int, n as int) == x,
{
    lemma_le_round_trip(x, n);
    assert(data.subrange(a.len() as int, (a.len() + n) as int) =~= le_bytes(x, n));
}

#[verifier::rlimit(40)]
proof fn lemma_parse_files(files: Strings, metas: Seq<FileMeta>, n: nat, a: Seq<u8>, b: Seq<u8>)
    requires
        n <= files.len(),
        forall|i: int| 0 <= i < files.len() ==> lossy(#[trigger] files[i]).len() < 0x1_0000_0000,
    ensures
        parse_files(a + files_bytes(files, metas, n) + b, a.len() as int, n) == Some(
            (
                Seq::new(n, |i: int| lossy(files[i])),
                Seq::new(n, |i: int| meta_at(metas, i)),
                (a.len() + files_bytes(files, metas, n).len()) as int,
            ),
        ),
    decreases n,
{
    let data = a + files_bytes(files, metas, n) + b;
    if n == 0 {
        assert(Seq::new(0, |i: int| lossy(files[i])) =~= Seq::empty());
        assert(Seq::new(0, |i: int| meta_at(metas, i)) =~= Seq::empty());
    } else {
        let m = (n - 1) as nat;
        let path = files[n - 1];
        let text = lossy(path);
        let meta = meta_at(metas, n - 1);
        let done = files_bytes(files, metas, m);
        let one = file_bytes(path, meta);
        lemma_parse_files(files, metas, m, a, one + b);
        assert(data =~= a + done + (one + b));
        let at = (a.len() + done.len()) as int;
        let l = le_bytes(text.len(), 4);
        let bits = signed_bits(meta.mtime_secs);
        let t = le_bytes(bits as nat, 8);
        let z = le_bytes(meta.size as nat, 8);
        lemma_capacity();
        lemma_le_len(text.len(), 4);
        lemma_le_len(bits as nat, 8);
        lemma_le_len(meta.size as nat, 8);
        assert(data =~= (a + done) + l + (text + t + z + b));
        lemma_number_at(data, a + done, text.len(), 4, text + t + z + b);
        assert(data =~= (a + done + l + text) + t + (z + b));
        lemma_number_at(data, a + done + l + text, bits as nat, 8, z + b);
        assert(data =~= (a + done + l + text + t) + z + b);
        lemma_number_at(data, a + done + l + text + t, meta.size as nat, 8, b);
        assert(data.subrange(at + 4, at + 4 + text.len()) =~= text);
        text_is_shown_as_it_is(path, seq![]);
        assert(signed_value(bits) == meta.mtime_secs);
        assert(Seq::new(m, |i: int| lossy(files[i])).push(text) =~= Seq::new(n, |i: int| lossy(files[i])));
        assert(Seq::new(m, |i: int| meta_at(metas, i)).push(meta) =~= Seq::new(n, |i: int| meta_at(metas, i)));
        let end = at + 4 + text.len() + 16;
        assert(end == a.len() + files_bytes(files, metas, n).len());
        assert(end <= data.len());
    }
}

proof fn lemma_parse_postings(
    postings: Map<Trigram, RoaringBitmap>,
    keys: Seq<u32>,
    n: nat,
    a: Seq<u8>,
    b: Seq<u8>,
)
    requires
        n <= keys.len(),
        forall|i: int| 0 <= i < keys.len() ==> reads_back(postings[#[trigger] keys[i]]),
    ensures
        parse_postings(a + postings_bytes(postings, keys, n) + b, a.len() as int, n) matches Ok((map, end)) && end
            == a.len() + postings_bytes(postings, keys, n).len() && map == Map::new(
            |t: Trigram| keys.take(n as int).contains(t),
            |t: Trigram| bitmap_ids(postings[t]),
        ),
    decreases n,
{
    let data = a + postings_bytes(postings, keys, n) + b;
    if n == 0 {
        assert(keys.take(0) =~= Seq::empty());
        assert(Map::<Trigram, Set<u32>>::empty() =~= Map::new(
            |t: Trigram| keys.take(0).contains(t),
            |t: Trigram| bitmap_ids(postings[t]),
        ));
    } else {
        let m = (n - 1) as nat;
        let key = keys[n - 1];
        let done = postings_bytes(postings, keys, m);
        let k = le_bytes(key as nat, 4);
        let v = bitmap_bytes(postings[key]);
        lemma_parse_postings(postings, keys, m, a, k + v + b);
        assert(data =~= a + done + (k + v + b));
        lemma_capacity();
        lemma_le_len(key as nat, 4);
        assert(data =~= (a + done) + k + (v + b));
        lemma_number_at(data, a + done, key as nat, 4, v + b);
        let at = (a.len() + done.len()) as int;
        assert(data.skip(at + 4) =~= v + b);
        assert(reads_back(postings[keys[n - 1]]));
        let before = Map::new(|t: Trigram| keys.take(m as int).contains(t), |t: Trigram| bitmap_ids(postings[t]));
        let after = Map::new(|t: Trigram| keys.take(n as int).contains(t), |t: Trigram| bitmap_ids(postings[t]));
        assert(before.insert(key, bitmap_ids(postings[key])) =~= after) by {
            broadcast use vstd::seq_lib::group_seq_properties;

            keys.lemma_take_succ_push(m as int);
            assert(keys.take(n as int) =~= keys.take(m as int).push(key));
        }
        assert(at + 4 + v.len() == a.len() + postings_bytes(postings, keys, n).len());
    }
}

proof fn lemma_round_trip(index: Index)
    requires
        storable(index),
        forall|t: Trigram| #[trigger] index.postings@.contains_key(t) ==> reads_back(index.postings@[t]),
        reads_back(index.removed_ids),
        ascending(ascending_members(index.postings@.dom())),
        ascending_members(index.postings@.dom()).to_set() == index.postings@.dom(),
        ascending_members(index.postings@.dom()).len() == index.postings@.dom().len(),
    ensures
        parse_index(index_bytes(index)) == Ok::<Option<IndexData>, LoadError>(Some(stored(index))),
{
    let data = index_bytes(index);
    let keys = ascending_members(index.postings@.dom());
    let files = strings_of(index.files@);
    let n = files.len();
    let h = header();
    let c = le_bytes(n, 4);
    let k = le_bytes(keys.len(), 4);
    let t = le_bytes(stored_time(index.build_time_us), 8);
    let pre = preamble(index);
    let fb = files_bytes(files, index.metas@, n);
    let pb = postings_bytes(index.postings@, keys, keys.len());
    let rb = bitmap_bytes(index.removed_ids);
    lemma_capacity();
    lemma_le_len(n, 4);
    lemma_le_len(keys.len(), 4);
    lemma_le_len(stored_time(index.build_time_us), 8);
    assert(pre.len() == 24);
    assert(data =~= pre + fb + pb + rb);
    assert(data.subrange(0, 8) =~= h);
    assert(h.is_prefix_of(data));
    assert(data =~= h + c + (k + t + fb + pb + rb));
    lemma_number_at(data, h, n, 4, k + t + fb + pb + rb);
    assert(data =~= (h + c) + k + (t + fb + pb + rb));
    lemma_number_at(data, h + c, keys.len(), 4, t + fb + pb + rb);
    assert(data =~= (h + c + k) + t + (fb + pb + rb));
    lemma_number_at(data, h + c + k, stored_time(index.build_time_us), 8, fb + pb + rb);
    assert forall|i: int| 0 <= i < files.len() implies lossy(#[trigger] files[i]).len() < 0x1_0000_0000 by {
        assert(files[i] == index.files@[i]@);
    }
    lemma_parse_files(files, index.metas@, n, pre, pb + rb);
    assert(data =~= pre + fb + (pb + rb));
    assert forall|i: int| 0 <= i < keys.len() implies reads_back(index.postings@[#[trigger] keys[i]]) by {
        assert(keys.to_set().contains(keys[i]));
    }
    lemma_parse_postings(index.postings@, keys, keys.len(), pre + fb, rb);
    assert(data =~= (pre + fb) + pb + rb);
    let end = (pre + fb + pb).len() as int;
    assert(data.skip(end) =~= rb);
    assert(rb + Seq::<u8>::empty() =~= rb);
    let map = Map::new(
        |t: Trigram| keys.take(keys.len() as int).contains(t),
        |t: Trigram| bitmap_ids(index.postings@[t]),
    );
    assert(map =~= posting_sets(index.postings@)) by {
        assert(keys.take(keys.len() as int) =~= keys);
        assert forall|t: Trigram| keys.contains(t) == index.postings@.contains_key(t) by {
            assert(keys.to_set().contains(t) == index.postings@.dom().contains(t));
        }
    }
    assert(Seq::new(n, |i: int| lossy(files[i])) =~= stored(index).files);
    assert(Seq::new(n, |i: int| meta_at(index.metas@, i)) =~= stored(index).metas);
}

/// Every path of the index is text.
pub open spec fn has_text_paths(index: Index) -> bool {
    forall|i: int| 0 <= i < index.files@.len() ==> valid_utf8((#[trigger] index.files@[i])@)
}

/// Paths that are text are stored as they are.
pub proof fn text_paths_are_kept(index: Index)
    requires
        has_text_paths(index),
    ensures
        stored(index).files == strings_of(index.files@),
{
    assert forall|i: int| 0 <= i < index.files@.len() implies lossy((#[trigger] index.files@[i])@)
        == index.files@[i]@ by {
        text_is_shown_as_it_is(index.files@[i]@, seq![]);
    }
    assert(stored(index).files =~= strings_of(index.files@));
}

/// The stored form of an index. If its numbers fit the format, reading it back
/// gives what it keeps of the index.
pub fn save(index: &Index) -> (out: Vec<u8>)
    ensures
        out@ == index_bytes(*index),
        storable(*index) && index.in_form() ==> parse_index(out@) == Ok::<Option<IndexData>, LoadError>(
            Some(stored(*index)),
        ),
{
    let keys = posting_keys(&index.postings);
    let mut out: Vec<u8> = Vec::new();
    out.push(73);
    out.push(71);
    out.push(82);
    out.push(85);
    out.push(83);
    out.push(84);
    out.push(0);
    out.push(3);
    assert(out@ =~= header());
    push_le(&mut out, index.files.len() as u64, 4);
    push_le(&mut out, keys.len() as u64, 4);
    let time: u64 = if index.build_time_us <= u64::MAX as u128 {
        index.build_time_us as u64
    } else {
        u64::MAX
    };
    push_u64(&mut out, time);
    assert(out@ =~= preamble(*index));
    push_files(&mut out, &index.files, &index.metas);
    push_postings(&mut out, &index.postings, &keys);
    let removed = write_bitmap(&index.removed_ids);
    out.extend_from_slice(&removed);
    proof {
        assert(in_form(index.removed_ids) ==> reads_back(index.removed_ids));
        assert(out@ =~= index_bytes(*index));
        if storable(*index) && index.in_form() {
            lemma_round_trip(*index);
        }
    }
    out
}

proof fn lemma_parse_files_grow(data: Seq<u8>, pos: int, n: nat, m: nat)
    requires
        n <= m,
        parse_files(data, pos, n) is None,
    ensures
        parse_files(data, pos, m) is None,
    decreases m,
{
    if n < m {
        lemma_parse_files_grow(data, pos, n, (m - 1) as nat);
    }
}

proof fn lemma_parse_postings_grow(data: Seq<u8>, pos: int, n: nat, m: nat)
    requires
        n <= m,
        parse_postings(data, pos, n) is Err,
    ensures
        parse_postings(data, pos, m) == parse_postings(data, pos, n),
    decreases m,
{
    if n < m {
        lemma_parse_postings_grow(data, pos, n, (m - 1) as nat);
    }
}

/// Read `count` files from `pos` on; also say where they end.
fn read_files(data: &[u8], pos: usize, count: u32) -> (out: Option<(Vec<Vec<u8>>, Vec<FileMeta>, usize)>)
    requires
        pos <= data@.len(),
    ensures
        out is None <==> parse_files(data@, pos as int, count as nat) is None,
        out matches Some((files, metas, end)) ==> parse_files(data@, pos as int, count as nat) == Some(
            (strings_of(files@), metas@, end as int),
        ) && end <= data@.len(),
{
    let mut files: Vec<Vec<u8>> = Vec::new();
    let mut metas: Vec<FileMeta> = Vec::new();
    let mut at: usize = pos;
    let mut i: u32 = 0;
    assert(strings_of(files@) =~= Seq::empty());
    while i < count
        invariant
            i <= count,
            at <= data@.len(),
            parse_files(data@, pos as int, i as nat) == Some((strings_of(files@), metas@, at as int)),
        decreases count - i,
    {
        let ghost (f, m) = (strings_of(files@), metas@);
        let len: u32 = match read_u32(data, at) {
            Some(len) => len,
            None => {
                proof {
                    lemma_parse_files_grow(data@, pos as int, (i + 1) as nat, count as nat);
                }
                return None;
            },
        };
        let left: usize = data.len() - at - 4;
        if (left as u64) < len as u64 + 16 {
            proof {
                lemma_parse_files_grow(data@, pos as int, (i + 1) as nat, count as nat);
            }
            return None;
        }
        let start: usize = at + 4;
        let end: usize = start + len as usize;
        let mut path: Vec<u8> = Vec::new();
        push_lossy(&mut path, slice_subrange(data, start, end));
        assert(path@ =~= lossy(data@.subrange(start as int, end as int)));
        proof {
            lemma_le_value_bound(data@.subrange(end as int, end + 8));
            lemma_le_value_bound(data@.subrange(end + 8, end + 16));
            lemma_capacity();
        }
        if let (Some(bits), Some(size)) = (read_u64(data, end), read_u64(data, end + 8)) {
            metas.push(FileMeta { mtime_secs: from_bits(bits), size });
        }
        files.push(path);
        assert(strings_of(files@) =~= f.push(path@));
        at = end + 16;
        i += 1;
    }
    Some((files, metas, at))
}

/// Read the ids of `count` trigrams from `pos` on; also say where they end.
fn read_postings(data: &[u8], pos: usize, count: u32) -> (out: Result<(Postings, usize), LoadError>)
    requires
        pos <= data@.len(),
    ensures
        out is Ok <==> parse_postings(data@, pos as int, count as nat) is Ok,
        out matches Ok((postings, end)) ==> parse_postings(data@, pos as int, count as nat) == Ok::<
            (Map<Trigram, Set<u32>>, int),
            LoadError,
        >((posting_sets(postings@), end as int)) && end <= data@.len() && postings_in_form(postings@),
        out matches Err(e) ==> parse_postings(data@, pos as int, count as nat) == Err::<
            (Map<Trigram, Set<u32>>, int),
            LoadError,
        >(e),
{
    let mut postings: Postings = FxHashMap::default();
    let mut at: usize = pos;
    let mut i: u32 = 0;
    assert(posting_sets(postings@) =~= Map::empty());
    while i < count
        invariant
            i <= count,
            at <= data@.len(),
            parse_postings(data@, pos as int, i as nat) == Ok::<(Map<Trigram, Set<u32>>, int), LoadError>(
                (posting_sets(postings@), at as int),
            ),
            postings_in_form(postings@),
        decreases count - i,
    {
        let ghost before = posting_sets(postings@);
        let key: u32 = match read_u32(data, at) {
            Some(key) => key,
            None => {
                proof {
                    lemma_parse_postings_grow(data@, pos as int, (i + 1) as nat, count as nat);
                }
                return Err(LoadError::Truncated);
            },
        };
        assert(at + 4 <= data.len());
        let rest = slice_subrange(data, at + 4, data.len());
        assert(rest@ =~= data@.skip(at + 4));
        match read_bitmap(rest) {
            Err(_) => {
                proof {
                    lemma_parse_postings_grow(data@, pos as int, (i + 1) as nat, count as nat);
                }
                return Err(LoadError::InvalidBitmap);
            },
            Ok((bitmap, tail)) => {
                at = at + 4 + (rest.len() - tail.len());
                fx::map_insert(&mut postings, key, bitmap);
                assert(posting_sets(postings@) =~= before.insert(key, bitmap_ids(bitmap)));
            },
        }
        i += 1;
    }
    Ok((postings, at))
}

/// Read an index back from its stored form: `Ok(None)` if it is of an unknown
/// or stale format and has to be rebuilt.
pub fn load(data: &[u8]) -> (out: Result<Option<Index>, LoadError>)
    ensures
        loaded(out) == parse_index(data@),
        out matches Ok(Some(index)) ==> index.in_form(),
{
    let mut magic: Vec<u8> = Vec::new();
    magic.push(73);
    magic.push(71);
    magic.push(82);
    magic.push(85);
    magic.push(83);
    magic.push(84);
    magic.push(0);
    magic.push(3);
    assert(magic@ =~= header());
    if !starts_with(data, &magic) {
        return Ok(None);
    }
    if data.len() < 24 {
        return Err(LoadError::Truncated);
    }
    let (files_left, trigrams_left, time): (u32, u32, u64) = match (read_u32(data, 8), read_u32(data, 12), read_u64(data, 16)) {
        (Some(f), Some(t), Some(us)) => (f, t, us),
        _ => {
            return Err(LoadError::Truncated);
        },
    };
    let (files, metas, at): (Vec<Vec<u8>>, Vec<FileMeta>, usize) = match read_files(data, 24, files_left) {
        Some((files, metas, at)) => (files, metas, at),
        None => {
            return Err(LoadError::Truncated);
        },
    };
    match read_postings(data, at, trigrams_left) {
        Err(e) => Err(e),
        Ok((postings, end)) => {
            let rest = slice_subrange(data, end, data.len());
            assert(rest@ =~= data@.skip(end as int));
            // An older or truncated tail is tolerated as an empty set.
            let removed_ids = match read_bitmap(rest) {
                Ok((bitmap, _)) => bitmap,
                Err(_) => new_bitmap(),
            };
            let index = Index { files, metas, postings, removed_ids, build_time_us: time as u128 };
            assert(Ok::<Option<IndexData>, LoadError>(Some(index.data())) == parse_index(data@));
            Ok(Some(index))
        },
    }
}

/// The stored form keeps everything: paths as text, the metadata of every file, the
/// ids under every trigram, the ids of removed files, and the build time up to what
/// 64 bits hold. Any index fits whose numbers of files and trigrams and whose paths
/// are below 2^32.
pub proof fn the_stored_form_keeps_everything(index: Index)
    ensures
        stored(index).files.len() == index.files@.len(),
        forall|i: int|
            0 <= i < index.files@.len() ==> #[trigger] stored(index).files[i] == encode_utf8(lossy_text(index.files@[i]@)),
        index.metas@.len() == index.files@.len() ==> stored(index).metas == index.metas@,
        forall|t: Trigram| #[trigger]
            stored(index).postings.contains_key(t) <==> index.postings@.contains_key(t),
        forall|t: Trigram| #[trigger]
            index.postings@.contains_key(t) ==> stored(index).postings[t] == bitmap_ids(index.postings@[t]),
        stored(index).removed == bitmap_ids(index.removed_ids),
        index.build_time_us <= u64::MAX ==> stored(index).build_time_us == index.build_time_us,
        index.build_time_us > u64::MAX ==> stored(index).build_time_us == u64::MAX,
        index.files@.len() < 0x1_0000_0000 && index.postings@.dom().len() < 0x1_0000_0000 && (forall|i: int|
            0 <= i < index.files@.len() ==> encode_utf8(lossy_text((#[trigger] index.files@[i])@)).len() < 0x1_0000_0000)
            ==> storable(index),
{
    if index.metas@.len() == index.files@.len() {
        assert(stored(index).metas =~= index.metas@);
    }
    assert forall|t: Trigram| #[trigger] index.postings@.contains_key(t) implies stored(index).postings[t] == bitmap_ids(
        index.postings@[t],
    ) by {
        assert(stored(index).postings.contains_key(t));
    }
}

/// A file that does not start with the mark of the format is no index, which is no
/// error; one that does and ends within the fixed part is cut off.
pub proof fn files_of_another_format_are_no_index(data: Seq<u8>)
    ensures
        parse_index(data) == Ok::<Option<IndexData>, LoadError>(None) <==> !(data.len() >= 8 && data.take(8) == seq![
            73u8, 71u8, 82u8, 85u8, 83u8, 84u8, 0u8, 3u8,
        ]),
        data.len() >= 8 && data.take(8) == seq![73u8, 71u8, 82u8, 85u8, 83u8, 84u8, 0u8, 3u8] && data.len() < 24
            ==> parse_index(data) == Err::<Option<IndexData>, LoadError>(LoadError::Truncated),
{
    let mark = seq![73u8, 71u8, 82u8, 85u8, 83u8, 84u8, 0u8, 3u8];
    if header().is_prefix_of(data) {
        assert(data.take(8) =~= mark);
    }
    if data.len() >= 8 && data.take(8) == mark {
        assert(data.subrange(0, 8) =~= data.take(8));
    }
}

/// What is read of a file does not depend on what follows it, and a file that is
/// cut off is not read.
pub proof fn files_are_read_as_far_as_they_go(data: Seq<u8>, more: Seq<u8>, pos: int, n: nat)
    requires
        0 <= pos <= data.len(),
    ensures
        parse_files(data, pos, n) matches Some(read) ==> parse_files(data + more, pos, n) == Some(read) && pos <= read.2
            <= data.len() && read.0.len() == n && read.1.len() == n && read.2 >= pos + 20 * n,
    decreases n,
{
    if n > 0 {
        files_are_read_as_far_as_they_go(data, more, pos, (n - 1) as nat);
        if let Some((files, metas, at)) = parse_files(data, pos, (n - 1) as nat) {
            if at + 4 <= data.len() {
                assert((data + more).subrange(at, at + 4) =~= data.subrange(at, at + 4));
                let len = number_at(data, at, 4) as int;
                if at + 4 + len + 16 <= data.len() {
                    assert((data + more).subrange(at + 4, at + 4 + len) =~= data.subrange(at + 4, at + 4 + len));
                    assert((data + more).subrange(at + 4 + len, at + 4 + len + 8) =~= data.subrange(
                        at + 4 + len,
                        at + 4 + len + 8,
                    ));
                    assert((data + more).subrange(at + 4 + len + 8, at + 4 + len + 16) =~= data.subrange(
                        at + 4 + len + 8,
                        at + 4 + len + 16,
                    ));
                }
            }
        }
    }
}

/// The first postings that cannot be read decide: if the bytes end before them the
/// file is cut off, and if their ids are malformed it is damaged. A file that is cut
/// off among its paths is cut off, whatever follows. Removed ids that cannot be read
/// are none.
pub proof fn the_first_damage_decides(data: Seq<u8>, pos: int, k: nat, n: nat)
    requires
        k < n,
    ensures
        parse_postings(data, pos, k) matches Ok((map, at)) ==> at + 4 > data.len() ==> parse_postings(data, pos, n) == Err::<
            (Map<Trigram, Set<u32>>, int),
            LoadError,
        >(LoadError::Truncated),
        parse_postings(data, pos, k) matches Ok((map, at)) ==> at + 4 <= data.len() && bitmap_parsed(data.skip(at + 4)) is None
            ==> parse_postings(data, pos, n) == Err::<(Map<Trigram, Set<u32>>, int), LoadError>(LoadError::InvalidBitmap),
        data.len() >= 24 && data.take(8) == header() && parse_files(data, 24, le_value(data.subrange(8, 12))) is None
            ==> parse_index(data) == Err::<Option<IndexData>, LoadError>(LoadError::Truncated),
        bitmap_parsed(data.skip(pos)) is None ==> parse_removed(data, pos) == Set::<u32>::empty(),
{
    if let Ok((map, at)) = parse_postings(data, pos, k) {
        let m = k + 1;
        if at + 4 > data.len() || bitmap_parsed(data.skip(at + 4)) is None {
            assert(parse_postings(data, pos, m) is Err);
            lemma_parse_postings_grow(data, pos, m, n);
        }
    }
    if data.len() >= 24 && data.take(8) == header() {
        assert(data.subrange(0, 8) =~= data.take(8));
    }
}

} // verus!
