//! A trigram index over the lines of one large file.

use regex::bytes::Regex;
use rustc_hash::FxHashMap;
use vstd::prelude::*;
use vstd::slice::slice_subrange;
use vstd::string::*;
use vstd::utf8::encode_utf8;

use crate::analysis::{analyze, pattern_query, query_is_sound};
use crate::bitmap::{ascending, ascending_members, bitmap_ids, lemma_ascending_unique, list_ids};
use crate::expr::parsed;
use crate::fx;
use crate::index::ids_below;
use crate::linemap::{
    add_lines, all_in_form, all_optimized, compact_entries, get_lines, line_forms, line_lists, line_sets, lines_at,
    list_at, list_entries, list_windows, mark_seen, new_index, new_local, new_seen, push_line, windows_seen,
    CompressedTrigramIndex, LocalIndex,
};
use crate::pattern::{
    describe, follows_tree, is_match, match_spans, new_regex, regex_fault, source_of, span_bytes, spans_within,
    InvalidRegex,
};
use crate::query::{
    asking_nothing_accepts_all, asking_something_turns_away, evaluate, only_mentioned_trigrams_count, recorded,
    satisfaction_is_monotone, CandidateSet, Postings, Query,
};
use crate::text::{decode_lossy, lossy_text, same_text, trim_end, trim_start, trimmed_end, trimmed_start};
use crate::trigram::{pack, trigram_set, trigrams, Trigram};

verus! {

/// A line starts at `p`: it is the first byte or follows a newline.
pub open spec fn is_line_start(bytes: Seq<u8>, p: int) -> bool {
    p == 0 || bytes[p - 1] == 10
}

/// The line starts from `a` up to `b`, ascending.
pub open spec fn starts_between(bytes: Seq<u8>, a: int, b: int) -> Seq<u64>
    decreases b - a,
{
    if b <= a {
        Seq::empty()
    } else {
        let init = starts_between(bytes, a, b - 1);
        if is_line_start(bytes, b - 1) {
            init.push((b - 1) as u64)
        } else {
            init
        }
    }
}

/// The starting byte position of every line.
pub open spec fn line_offsets_of(bytes: Seq<u8>) -> Seq<u64> {
    starts_between(bytes, 0, bytes.len() as int)
}

proof fn lemma_starts_join(bytes: Seq<u8>, a: int, b: int, c: int)
    requires
        a <= b <= c,
    ensures
        starts_between(bytes, a, c) == starts_between(bytes, a, b) + starts_between(bytes, b, c),
    decreases c - b,
{
    if b == c {
        assert(starts_between(bytes, a, b) + starts_between(bytes, b, c) =~= starts_between(bytes, a, c));
    } else {
        lemma_starts_join(bytes, a, b, c - 1);
        assert(starts_between(bytes, a, b) + starts_between(bytes, b, c) =~= starts_between(bytes, a, c));
    }
}

/// `chunks` split the bytes without a gap, each at the start of a line or at
/// the end.
pub open spec fn are_line_chunks(chunks: Seq<(usize, usize)>, bytes: Seq<u8>) -> bool {
    &&& forall|i: int|
        0 <= i < chunks.len() ==> (#[trigger] chunks[i]).0 <= chunks[i].1 <= bytes.len() && (chunks[i].0 == bytes.len()
            || is_line_start(bytes, chunks[i].0 as int))
    &&& forall|i: int| 0 < i < chunks.len() ==> (#[trigger] chunks[i]).0 == chunks[i - 1].1
    &&& chunks.len() > 0 ==> chunks[0].0 == 0
}

/// Where the last of the chunks ends.
pub open spec fn chunks_end(chunks: Seq<(usize, usize)>) -> int {
    if chunks.len() == 0 {
        0
    } else {
        chunks.last().1 as int
    }
}

/// Split the bytes into chunks for `workers`, each ending behind a newline or
/// at the end.
pub fn line_chunks(bytes: &[u8], workers: usize) -> (chunks: Vec<(usize, usize)>)
    requires
        workers > 0,
    ensures
        are_line_chunks(chunks@, bytes@),
        chunks_end(chunks@) == bytes@.len(),
{
    let size = bytes.len();
    let share: usize = size / workers;
    let mut chunks: Vec<(usize, usize)> = Vec::new();
    let mut start: usize = 0;
    let mut i: usize = 1;
    while i < workers
        invariant
            1 <= i <= workers,
            size == bytes@.len(),
            share == size / workers,
            start <= size,
            start == size || is_line_start(bytes@, start as int),
            start == chunks_end(chunks@),
            are_line_chunks(chunks@, bytes@),
            forall|p: int| (i - 1) * share <= p < start - 1 ==> bytes@[p] != 10,
        decreases workers - i,
    {
        proof {
            assert(i * share <= size) by (nonlinear_arith)
                requires
                    i <= workers,
                    share == size / workers,
                    workers > 0,
            ;
            assert((i - 1) * share <= i * share) by (nonlinear_arith)
                requires
                    i >= 1,
            ;
        }
        let mut end: usize = i * share;
        let ghost from = end as int;
        while end < size && bytes[end] != 10
            invariant
                from <= end <= size,
                size == bytes@.len(),
                forall|p: int| from <= p < end ==> bytes@[p] != 10,
            decreases size - end,
        {
            end += 1;
        }
        if end < size {
            end += 1;
        }
        proof {
            // A newline before `start` would have ended the chunk before.
            if end < start {
                assert(bytes@[end - 1] == 10);
                assert(false);
            }
        }
        let ghost before = chunks@;
        chunks.push((start, end));
        assert forall|k: int| 0 < k < chunks@.len() implies (#[trigger] chunks@[k]).0 == chunks@[k - 1].1 by {
            if k < before.len() {
                assert(before[k].0 == before[k - 1].1);
            }
        }
        start = end;
        i += 1;
    }
    if start < size {
        let ghost before = chunks@;
        chunks.push((start, size));
        assert forall|k: int| 0 < k < chunks@.len() implies (#[trigger] chunks@[k]).0 == chunks@[k - 1].1 by {
            if k < before.len() {
                assert(before[k].0 == before[k - 1].1);
            }
        }
    }
    chunks
}

/// The starts of the lines in one chunk.
pub fn chunk_offsets(bytes: &[u8], start: usize, end: usize) -> (offsets: Vec<u64>)
    requires
        start <= end <= bytes@.len(),
        start == end || is_line_start(bytes@, start as int),
    ensures
        offsets@ == starts_between(bytes@, start as int, end as int),
{
    let mut offsets: Vec<u64> = Vec::new();
    let mut pos = start;
    if pos < end {
        offsets.push(pos as u64);
    }
    let ghost seen: int = if start < end { start + 1 } else { start as int };
    assert(offsets@ =~= starts_between(bytes@, start as int, seen)) by {
        reveal_with_fuel(starts_between, 2);
    }
    while pos < end
        invariant
            start <= pos <= end <= bytes@.len(),
            pos < end ==> offsets@ == starts_between(bytes@, start as int, pos + 1),
            pos == end ==> offsets@ == starts_between(bytes@, start as int, end as int),
        decreases end - pos,
    {
        if bytes[pos] == 10 && pos + 1 < end {
            offsets.push((pos + 1) as u64);
        }
        pos += 1;
    }
    offsets
}

/// Scan the bytes to harvest the starting position of every line, in one chunk
/// per worker. How many there are makes no difference.
pub fn collect_line_offsets(bytes: &[u8], workers: usize) -> (offsets: Vec<u64>)
    requires
        workers > 0,
    ensures
        offsets@ == line_offsets_of(bytes@),
{
    let chunks = line_chunks(bytes, workers);
    let mut offsets: Vec<u64> = Vec::new();
    let mut i: usize = 0;
    while i < chunks.len()
        invariant
            i <= chunks@.len(),
            are_line_chunks(chunks@, bytes@),
            chunks_end(chunks@) == bytes@.len(),
            offsets@ == starts_between(bytes@, 0, chunks_end(chunks@.take(i as int))),
        decreases chunks@.len() - i,
    {
        let (start, end) = chunks[i];
        let mut part = chunk_offsets(bytes, start, end);
        proof {
            assert(chunks@[i as int].0 == start);
            if i > 0 {
                assert(chunks@.take(i as int).last() == chunks@[i - 1]);
            }
            assert(chunks@.take(i + 1).last() == chunks@[i as int]);
            lemma_starts_join(bytes@, 0, start as int, end as int);
        }
        offsets.append(&mut part);
        i += 1;
    }
    assert(chunks@.take(i as int) =~= chunks@);
    offsets
}

/// `offsets` can be the line starts of `len` bytes: ascending, none behind the
/// end, and no more than 32-bit ids can tell apart.
pub open spec fn valid_offsets(offsets: Seq<u64>, len: nat) -> bool {
    &&& offsets.len() <= 0x1_0000_0000
    &&& forall|i: int| 0 <= i < offsets.len() ==> #[trigger] offsets[i] <= len
    &&& forall|i: int, j: int| 0 <= i < j < offsets.len() ==> offsets[i] <= offsets[j]
}

/// Where a line ends: at the start of the next one.
pub open spec fn line_end_at(offsets: Seq<u64>, len: nat, id: int) -> int {
    if id + 1 < offsets.len() {
        offsets[id + 1] as int
    } else {
        len as int
    }
}

/// The bytes of a line, its newline included.
pub open spec fn line_at(bytes: Seq<u8>, offsets: Seq<u64>, id: int) -> Seq<u8> {
    bytes.subrange(offsets[id] as int, line_end_at(offsets, bytes.len(), id))
}

/// Whether offsets can be the line starts of `len` bytes.
pub fn check_offsets(offsets: &[u64], len: usize) -> (ok: bool)
    ensures
        ok == valid_offsets(offsets@, len as nat),
{
    if offsets.len() as u64 > 0x1_0000_0000 {
        return false;
    }
    let mut i: usize = 0;
    while i < offsets.len()
        invariant
            i <= offsets@.len(),
            offsets@.len() <= 0x1_0000_0000,
            forall|k: int| 0 <= k < i ==> #[trigger] offsets@[k] <= len,
            forall|j: int, k: int| 0 <= j < k < i ==> offsets@[j] <= offsets@[k],
        decreases offsets@.len() - i,
    {
        if offsets[i] > len as u64 || (i > 0 && offsets[i] < offsets[i - 1]) {
            return false;
        }
        i += 1;
    }
    true
}

proof fn lemma_starts_bounds(bytes: Seq<u8>, a: int, b: int)
    requires
        0 <= a <= b <= u64::MAX,
    ensures
        starts_between(bytes, a, b).len() <= b - a,
        forall|i: int|
            0 <= i < starts_between(bytes, a, b).len() ==> a <= #[trigger] starts_between(bytes, a, b)[i] < b
                && is_line_start(bytes, starts_between(bytes, a, b)[i] as int),
        forall|i: int, j: int|
            0 <= i < j < starts_between(bytes, a, b).len() ==> starts_between(bytes, a, b)[i] < starts_between(
                bytes,
                a,
                b,
            )[j],
    decreases b - a,
{
    if a < b {
        lemma_starts_bounds(bytes, a, b - 1);
    }
}

/// The starts of the lines of a file are valid offsets, each at a line start,
/// if 32-bit ids can tell the lines apart.
pub proof fn line_offsets_are_valid(bytes: Seq<u8>)
    requires
        bytes.len() <= u64::MAX,
        line_offsets_of(bytes).len() <= 0x1_0000_0000,
    ensures
        valid_offsets(line_offsets_of(bytes), bytes.len()),
        forall|i: int|
            0 <= i < line_offsets_of(bytes).len() ==> is_line_start(bytes, #[trigger] line_offsets_of(bytes)[i] as int),
{
    lemma_starts_bounds(bytes, 0, bytes.len() as int);
}

proof fn lemma_starts_complete(bytes: Seq<u8>, a: int, b: int, p: int)
    requires
        0 <= a <= p < b <= u64::MAX,
        is_line_start(bytes, p),
    ensures
        starts_between(bytes, a, b).contains(p as u64),
    decreases b - a,
{
    let init = starts_between(bytes, a, b - 1);
    let all = starts_between(bytes, a, b);
    if p == b - 1 {
        assert(all[init.len() as int] == p as u64);
    } else {
        lemma_starts_complete(bytes, a, b - 1, p);
        let i = choose|i: int| 0 <= i < init.len() && init[i] == p as u64;
        assert(all[i] == p as u64);
    }
}

/// The lines of a file from its first on, one behind the other.
pub open spec fn lines_joined(bytes: Seq<u8>, offsets: Seq<u64>, count: int) -> Seq<u8>
    decreases count,
{
    if count <= 0 {
        Seq::empty()
    } else {
        lines_joined(bytes, offsets, count - 1) + line_at(bytes, offsets, count - 1)
    }
}

proof fn lemma_lines_joined(bytes: Seq<u8>, offsets: Seq<u64>, count: int)
    requires
        valid_offsets(offsets, bytes.len()),
        offsets.len() > 0,
        offsets[0] == 0,
        0 < count <= offsets.len(),
    ensures
        lines_joined(bytes, offsets, count) == bytes.take(line_end_at(offsets, bytes.len(), count - 1)),
    decreases count,
{
    if count > 1 {
        lemma_lines_joined(bytes, offsets, count - 1);
        assert(offsets[count - 2] <= offsets[count - 1]);
    } else {
        assert(lines_joined(bytes, offsets, 0) == Seq::<u8>::empty());
    }
    assert(lines_joined(bytes, offsets, count) =~= bytes.take(line_end_at(offsets, bytes.len(), count - 1)));
}

/// The lines of a file, one behind the other, are the file, and a line holds no
/// newline but the one at its end.
pub proof fn lines_make_up_the_file(bytes: Seq<u8>)
    requires
        bytes.len() <= u64::MAX,
        line_offsets_of(bytes).len() <= 0x1_0000_0000,
    ensures
        lines_joined(bytes, line_offsets_of(bytes), line_offsets_of(bytes).len() as int) == bytes,
        forall|id: int, k: int|
            0 <= id < line_offsets_of(bytes).len() && 0 <= k < line_at(bytes, line_offsets_of(bytes), id).len() - 1
                ==> #[trigger] line_at(bytes, line_offsets_of(bytes), id)[k] != 10,
{
    let offsets = line_offsets_of(bytes);
    let len = bytes.len() as int;
    lemma_starts_bounds(bytes, 0, len);
    line_offsets_are_valid(bytes);
    if len > 0 {
        lemma_starts_complete(bytes, 0, len, 0);
        let i = choose|i: int| 0 <= i < offsets.len() && offsets[i] == 0;
        assert(offsets[0] == 0);
        lemma_lines_joined(bytes, offsets, offsets.len() as int);
        assert(bytes.take(len) =~= bytes);
    } else {
        assert(lines_joined(bytes, offsets, 0) =~= bytes);
    }
    assert forall|id: int, k: int|
        0 <= id < offsets.len() && 0 <= k < line_at(bytes, offsets, id).len() - 1 implies #[trigger] line_at(
        bytes,
        offsets,
        id,
    )[k] != 10 by {
        let p = offsets[id] + k;
        if id + 1 < offsets.len() {
            assert(offsets[id] < offsets[id + 1]);
        }
        assert(offsets[id] < len);
        if bytes[p] == 10 {
            assert(is_line_start(bytes, p + 1));
            lemma_starts_complete(bytes, 0, len, p + 1);
            let j = choose|j: int| 0 <= j < offsets.len() && offsets[j] == (p + 1) as u64;
            assert(offsets[id] < offsets[j]);
            assert(id < j) by {
                if j <= id {
                    assert(j == id || offsets[j] < offsets[id]);
                }
            }
            assert(id + 1 == j || offsets[id + 1] < offsets[j]);
            assert(false);
        }
    }
}

/// The three-byte windows of a byte string, in order.
pub open spec fn windows(bytes: Seq<u8>) -> Seq<Seq<u8>> {
    Seq::new(
        if bytes.len() < 3 {
            0
        } else {
            (bytes.len() - 2) as nat
        },
        |i: int| bytes.subrange(i, i + 3),
    )
}

/// Windows as byte strings.
pub open spec fn windows_view(windows: Seq<[u8; 3]>) -> Seq<Seq<u8>> {
    windows.map_values(|w: [u8; 3]| w@)
}

/// Append the windows of a byte string.
fn push_windows(out: &mut Vec<[u8; 3]>, bytes: &[u8])
    ensures
        windows_view(final(out)@) == windows_view(old(out)@) + windows(bytes@),
{
    if bytes.len() < 3 {
        assert(windows_view(out@) =~= windows_view(old(out)@) + windows(bytes@));
        return;
    }
    let mut i: usize = 0;
    while i < bytes.len() - 2
        invariant
            3 <= bytes@.len(),
            i <= bytes@.len() - 2,
            windows_view(out@) =~= windows_view(old(out)@) + windows(bytes@).take(i as int),
        decreases bytes@.len() - i,
    {
        let window = [bytes[i], bytes[i + 1], bytes[i + 2]];
        assert(window@ =~= windows(bytes@)[i as int]);
        let ghost before = out@;
        out.push(window);
        assert(windows_view(out@) =~= windows_view(before).push(window@));
        assert(windows(bytes@).take(i + 1) =~= windows(bytes@).take(i as int).push(windows(bytes@)[i as int]));
        i += 1;
    }
    assert(windows(bytes@).take(i as int) =~= windows(bytes@));
}

/// Sliding window over a raw line slice.
pub fn extract_trigrams_bytes(line_bytes: &[u8]) -> (out: Vec<[u8; 3]>)
    ensures
        windows_view(out@) == windows(line_bytes@),
{
    let mut out: Vec<[u8; 3]> = Vec::new();
    push_windows(&mut out, line_bytes);
    assert(windows_view(Seq::<[u8; 3]>::empty()) + windows(line_bytes@) =~= windows(line_bytes@));
    out
}

/// Extracts the raw bytes of the line with the given id.
pub fn get_line_bytes<'a>(bytes: &'a [u8], line_offsets: &[u64], line_id: u32) -> (line: &'a [u8])
    requires
        valid_offsets(line_offsets@, bytes@.len()),
        line_id < line_offsets@.len(),
    ensures
        line@ == line_at(bytes@, line_offsets@, line_id as int),
{
    let len = bytes.len();
    let idx = line_id as usize;
    let start = line_offsets[idx] as usize;
    let end = if idx + 1 < line_offsets.len() {
        line_offsets[idx + 1] as usize
    } else {
        len
    };
    slice_subrange(bytes, start, end)
}

/// The ids from `a` up to `b` of the lines that contain `window`, ascending.
pub open spec fn lines_with(bytes: Seq<u8>, offsets: Seq<u64>, window: Seq<u8>, a: int, b: int) -> Seq<u32>
    decreases b - a,
{
    if b <= a {
        Seq::empty()
    } else {
        let init = lines_with(bytes, offsets, window, a, b - 1);
        if windows(line_at(bytes, offsets, b - 1)).contains(window) {
            init.push((b - 1) as u32)
        } else {
            init
        }
    }
}

/// `lists` are, per window, the ids from `a` up to `b` of the lines that
/// contain it; a window in no line is not listed.
pub open spec fn lists_lines(lists: Map<Seq<u8>, Seq<u32>>, bytes: Seq<u8>, offsets: Seq<u64>, a: int, b: int) -> bool {
    forall|w: Seq<u8>|
        #![trigger lists.contains_key(w)]
        #![trigger list_at(lists, w)]
        list_at(lists, w) == lines_with(bytes, offsets, w, a, b) && (lists.contains_key(w) <==> list_at(lists, w).len()
            > 0)
}

/// Index the lines from `first` up to `last`.
pub fn index_lines(bytes: &[u8], line_offsets: &[u64], first: usize, last: usize) -> (local: LocalIndex)
    requires
        valid_offsets(line_offsets@, bytes@.len()),
        first <= last <= line_offsets@.len(),
    ensures
        lists_lines(line_lists(local), bytes@, line_offsets@, first as int, last as int),
{
    let mut local = new_local();
    let mut id = first;
    while id < last
        invariant
            valid_offsets(line_offsets@, bytes@.len()),
            first <= id <= last <= line_offsets@.len(),
            lists_lines(line_lists(local), bytes@, line_offsets@, first as int, id as int),
        decreases last - id,
    {
        let line = get_line_bytes(bytes, line_offsets, id as u32);
        let found = extract_trigrams_bytes(line);
        let mut seen = new_seen();
        let ghost before = line_lists(local);
        let ghost all = windows(line@);
        let mut i: usize = 0;
        while i < found.len()
            invariant
                i <= found@.len(),
                id < 0x1_0000_0000,
                windows_view(found@) == all,
                windows_seen(seen) == all.take(i as int).to_set(),
                lists_lines(before, bytes@, line_offsets@, first as int, id as int),
                forall|w: Seq<u8>|
                    #![trigger line_lists(local).contains_key(w)]
                    #![trigger list_at(line_lists(local), w)]
                    list_at(line_lists(local), w) == (if all.take(i as int).contains(w) {
                        list_at(before, w).push(id as u32)
                    } else {
                        list_at(before, w)
                    }) && (line_lists(local).contains_key(w) <==> list_at(line_lists(local), w).len() > 0),
            decreases found@.len() - i,
        {
            let window = found[i];
            assert(windows_view(found@)[i as int] == window@);
            let ghost sofar = line_lists(local);
            if mark_seen(&mut seen, window) {
                push_line(&mut local, window, id as u32);
            }
            proof {
                let taken = all.take(i as int);
                let next = all.take(i + 1);
                assert(next =~= taken.push(window@));
                assert forall|w: Seq<u8>| next.contains(w) <==> taken.contains(w) || w == window@ by {
                    if taken.contains(w) {
                        let j = choose|j: int| 0 <= j < taken.len() && taken[j] == w;
                        assert(next[j] == w);
                    }
                    assert(next[i as int] == window@);
                }
                assert(next.to_set() =~= taken.to_set().insert(window@));
                assert(taken.to_set().contains(window@) == taken.contains(window@));
                assert forall|w: Seq<u8>|
                    #![trigger line_lists(local).contains_key(w)]
                    #![trigger list_at(line_lists(local), w)]
                    list_at(line_lists(local), w) == (if next.contains(w) {
                        list_at(before, w).push(id as u32)
                    } else {
                        list_at(before, w)
                    }) && (line_lists(local).contains_key(w) <==> list_at(line_lists(local), w).len() > 0) by {
                    assert(sofar.contains_key(w) <==> list_at(sofar, w).len() > 0);
                }
            }
            i += 1;
        }
        proof {
            assert(all.take(i as int) =~= all);
            assert forall|w: Seq<u8>|
                #![trigger line_lists(local).contains_key(w)]
                #![trigger list_at(line_lists(local), w)]
                list_at(line_lists(local), w) == lines_with(bytes@, line_offsets@, w, first as int, id + 1) && (
                line_lists(local).contains_key(w) <==> list_at(line_lists(local), w).len() > 0) by {
                assert(list_at(before, w) == lines_with(bytes@, line_offsets@, w, first as int, id as int));
            }
        }
        id += 1;
    }
    local
}

/// The ids below `n` of the lines that contain `window`.
pub open spec fn lines_having(bytes: Seq<u8>, offsets: Seq<u64>, window: Seq<u8>, n: int) -> Set<u32> {
    Set::new(|id: u32| id < n && windows(line_at(bytes, offsets, id as int)).contains(window))
}

/// `sets` are, per window, the ids below `n` of the lines that contain it; a
/// window in no line is not listed.
pub open spec fn indexes_lines(sets: Map<Seq<u8>, Set<u32>>, bytes: Seq<u8>, offsets: Seq<u64>, n: int) -> bool {
    forall|w: Seq<u8>|
        #![trigger sets.contains_key(w)]
        #![trigger lines_at(sets, w)]
        lines_at(sets, w) == lines_having(bytes, offsets, w, n) && (sets.contains_key(w) <==> lines_at(sets, w)
            != Set::<u32>::empty())
}

proof fn lemma_lines_with(bytes: Seq<u8>, offsets: Seq<u64>, window: Seq<u8>, a: int, b: int, id: u32)
    requires
        0 <= a <= b <= 0x1_0000_0000,
    ensures
        lines_with(bytes, offsets, window, a, b).contains(id) <==> a <= id < b && windows(
            line_at(bytes, offsets, id as int),
        ).contains(window),
    decreases b - a,
{
    if a < b {
        lemma_lines_with(bytes, offsets, window, a, b - 1, id);
        let init = lines_with(bytes, offsets, window, a, b - 1);
        let all = lines_with(bytes, offsets, window, a, b);
        if init.contains(id) {
            let j = choose|j: int| 0 <= j < init.len() && init[j] == id;
            assert(all[j] == id);
        }
        if all.len() > init.len() {
            assert(all[init.len() as int] == (b - 1) as u32);
        }
    }
}

/// What maps that differ under one key at most have in common.
proof fn lemma_one_changed(
    before: Map<Seq<u8>, (Seq<u8>, bool)>,
    after: Map<Seq<u8>, (Seq<u8>, bool)>,
    window: Seq<u8>,
)
    requires
        after.remove(window) == before.remove(window),
        after.contains_key(window),
    ensures
        after.dom() == before.dom().insert(window),
        forall|w: Seq<u8>| w != window && #[trigger] after.contains_key(w) ==> after[w] == before[w],
{
    assert(after.remove(window).dom() == after.dom().remove(window));
    assert(before.remove(window).dom() == before.dom().remove(window));
    assert forall|w: Seq<u8>| w != window implies (#[trigger] after.dom().contains(w)) == before.dom().contains(w) by {
        assert(after.dom().remove(window).contains(w) == before.dom().remove(window).contains(w));
    }
    assert(after.dom() =~= before.dom().insert(window));
    assert forall|w: Seq<u8>| w != window && #[trigger] after.contains_key(w) implies after[w] == before[w] by {
        assert(after.remove(window)[w] == before.remove(window)[w]);
    }
}

/// Merge the entries of a local index directly into the bitmaps of the index.
pub fn merge_lines(index: &mut CompressedTrigramIndex, local: LocalIndex)
    ensures
        forall|w: Seq<u8>|
            #![trigger line_sets(*final(index)).contains_key(w)]
            #![trigger lines_at(line_sets(*final(index)), w)]
            lines_at(line_sets(*final(index)), w) == lines_at(line_sets(*old(index)), w).union(
                list_at(line_lists(local), w).to_set(),
            ) && (line_sets(*final(index)).contains_key(w) <==> line_sets(*old(index)).contains_key(w) || line_lists(
                local,
            ).contains_key(w)),
        line_forms(*old(index)).dom() == line_sets(*old(index)).dom() ==> line_forms(*final(index)).dom() == line_sets(
            *final(index),
        ).dom(),
        all_in_form(line_forms(*old(index))) ==> all_in_form(line_forms(*final(index))),
{
    let ghost lists = line_lists(local);
    let ghost before = line_sets(*index);
    let ghost same = line_forms(*index).dom() == line_sets(*index).dom();
    let ghost kept = all_in_form(line_forms(*index));
    let entries = list_entries(local);
    let mut i: usize = 0;
    while i < entries.len()
        invariant
            i <= entries@.len(),
            forall|j: int, k: int|
                0 <= j < k < entries@.len() ==> (#[trigger] entries@[j]).0@ != (#[trigger] entries@[k]).0@,
            forall|j: int|
                0 <= j < entries@.len() ==> lists.contains_key((#[trigger] entries@[j]).0@) && lists[entries@[j].0@]
                    == entries@[j].1@,
            forall|w: Seq<u8>|
                #![trigger line_sets(*index).contains_key(w)]
                #![trigger lines_at(line_sets(*index), w)]
                lines_at(line_sets(*index), w) == (if exists|j: int| 0 <= j < i && (#[trigger] entries@[j]).0@ == w {
                    lines_at(before, w).union(lists[w].to_set())
                } else {
                    lines_at(before, w)
                }) && (line_sets(*index).contains_key(w) <==> before.contains_key(w) || exists|j: int|
                    0 <= j < i && (#[trigger] entries@[j]).0@ == w),
            same ==> line_forms(*index).dom() == line_sets(*index).dom(),
            kept ==> all_in_form(line_forms(*index)),
        decreases entries@.len() - i,
    {
        let window = entries[i].0;
        let ghost sofar = line_sets(*index);
        let ghost forms = line_forms(*index);
        let lines = copy_lines(&entries[i].1);
        add_lines(index, window, lines);
        proof {
            lemma_one_changed(forms, line_forms(*index), window@);
            if same {
                assert(line_forms(*index).dom() =~= line_sets(*index).dom());
            }
            assert forall|w: Seq<u8>|
                #![trigger line_sets(*index).contains_key(w)]
                #![trigger lines_at(line_sets(*index), w)]
                lines_at(line_sets(*index), w) == (if exists|j: int| 0 <= j < i + 1 && (#[trigger] entries@[j]).0@
                    == w {
                    lines_at(before, w).union(lists[w].to_set())
                } else {
                    lines_at(before, w)
                }) && (line_sets(*index).contains_key(w) <==> before.contains_key(w) || exists|j: int|
                    0 <= j < i + 1 && (#[trigger] entries@[j]).0@ == w) by {
                assert(entries@[i as int].0@ == window@);
                assert(lines_at(sofar, w) == lines_at(sofar, w));
                assert(sofar.contains_key(w) || !sofar.contains_key(w));
                if w == window@ {
                    assert(!exists|j: int| 0 <= j < i && (#[trigger] entries@[j]).0@ == w);
                } else {
                    assert((exists|j: int| 0 <= j < i + 1 && (#[trigger] entries@[j]).0@ == w) == (exists|j: int|
                        0 <= j < i && (#[trigger] entries@[j]).0@ == w));
                }
            }
        }
        i += 1;
    }
    assert forall|w: Seq<u8>|
        #![trigger line_sets(*index).contains_key(w)]
        #![trigger lines_at(line_sets(*index), w)]
        lines_at(line_sets(*index), w) == lines_at(before, w).union(list_at(lists, w).to_set()) && (line_sets(
            *index,
        ).contains_key(w) <==> before.contains_key(w) || lists.contains_key(w)) by {
        if !lists.contains_key(w) {
            assert(lines_at(before, w).union(Seq::<u32>::empty().to_set()) =~= lines_at(before, w));
        }
    }
}

/// One of the local indexes lists `id` under `window`.
pub open spec fn listed_in_some(locals: Seq<LocalIndex>, window: Seq<u8>, id: u32) -> bool {
    exists|k: int| 0 <= k < locals.len() && list_at(line_lists(#[trigger] locals[k]), window).contains(id)
}

/// One of the local indexes lists `window`.
pub open spec fn window_in_some(locals: Seq<LocalIndex>, window: Seq<u8>) -> bool {
    exists|k: int| 0 <= k < locals.len() && line_lists(#[trigger] locals[k]).contains_key(window)
}

/// `sets` are made up of what the local indexes list.
pub open spec fn assembled(sets: Map<Seq<u8>, Set<u32>>, locals: Seq<LocalIndex>) -> bool {
    &&& forall|w: Seq<u8>, id: u32| #[trigger] lines_at(sets, w).contains(id) <==> listed_in_some(locals, w, id)
    &&& forall|w: Seq<u8>| #[trigger] sets.contains_key(w) <==> window_in_some(locals, w)
}

proof fn lemma_assembled_push(
    before: Map<Seq<u8>, Set<u32>>,
    after: Map<Seq<u8>, Set<u32>>,
    done: Seq<LocalIndex>,
    local: LocalIndex,
)
    requires
        assembled(before, done),
        forall|w: Seq<u8>|
            #![trigger after.contains_key(w)]
            #![trigger lines_at(after, w)]
            lines_at(after, w) == lines_at(before, w).union(list_at(line_lists(local), w).to_set()) && (
            after.contains_key(w) <==> before.contains_key(w) || line_lists(local).contains_key(w)),
    ensures
        assembled(after, done.push(local)),
{
    let all = done.push(local);
    assert(all[done.len() as int] == local);
    assert forall|k: int| 0 <= k < done.len() implies #[trigger] done[k] == all[k] by {}
    assert forall|w: Seq<u8>, id: u32| #[trigger] lines_at(after, w).contains(id) <==> listed_in_some(all, w, id) by {
        let list = list_at(line_lists(local), w);
        assert(list.to_set().contains(id) == list.contains(id));
        assert(lines_at(before, w).contains(id) == listed_in_some(done, w, id));
        if listed_in_some(done, w, id) {
            let k = choose|k: int| 0 <= k < done.len() && list_at(line_lists(#[trigger] done[k]), w).contains(id);
            assert(list_at(line_lists(all[k]), w).contains(id));
        }
        if listed_in_some(all, w, id) {
            let k = choose|k: int| 0 <= k < all.len() && list_at(line_lists(#[trigger] all[k]), w).contains(id);
            if k < done.len() {
                assert(list_at(line_lists(done[k]), w).contains(id));
            }
        }
    }
    assert forall|w: Seq<u8>| #[trigger] after.contains_key(w) <==> window_in_some(all, w) by {
        assert(before.contains_key(w) == window_in_some(done, w));
        if window_in_some(done, w) {
            let k = choose|k: int| 0 <= k < done.len() && line_lists(#[trigger] done[k]).contains_key(w);
            assert(line_lists(all[k]).contains_key(w));
        }
        if window_in_some(all, w) {
            let k = choose|k: int| 0 <= k < all.len() && line_lists(#[trigger] all[k]).contains_key(w);
            if k < done.len() {
                assert(line_lists(done[k]).contains_key(w));
            }
        }
    }
}

/// Make an index of what the local indexes list. Their order makes no
/// difference.
pub fn assemble_index(locals: Vec<LocalIndex>) -> (index: CompressedTrigramIndex)
    ensures
        assembled(line_sets(index), locals@),
        line_forms(index).dom() == line_sets(index).dom(),
        all_in_form(line_forms(index)),
        all_optimized(line_forms(index)),
{
    let ghost all = locals@;
    let mut index = new_index();
    let mut left = locals;
    let ghost mut done: Seq<LocalIndex> = Seq::empty();
    assert(assembled(line_sets(index), done));
    assert(line_forms(index).dom() =~= line_sets(index).dom());
    while left.len() > 0
        invariant
            assembled(line_sets(index), done),
            line_forms(index).dom() == line_sets(index).dom(),
            all_in_form(line_forms(index)),
            left@.len() + done.len() == all.len(),
            left@ =~= all.take(left@.len() as int),
            done =~= all.skip(left@.len() as int).reverse(),
        decreases left@.len(),
    {
        if let Some(local) = left.pop() {
            let ghost before = line_sets(index);
            merge_lines(&mut index, local);
            proof {
                lemma_assembled_push(before, line_sets(index), done, local);
                done = done.push(local);
            }
        }
    }
    proof {
        assert(all.skip(0) =~= all);
        lemma_assembled_reversed(line_sets(index), done, all);
    }
    compact_entries(&mut index);
    index
}

proof fn lemma_assembled_reversed(sets: Map<Seq<u8>, Set<u32>>, a: Seq<LocalIndex>, b: Seq<LocalIndex>)
    requires
        assembled(sets, a),
        a == b.reverse(),
    ensures
        assembled(sets, b),
{
    let n = b.len() as int;
    assert forall|w: Seq<u8>, id: u32| listed_in_some(a, w, id) <==> listed_in_some(b, w, id) by {
        if listed_in_some(a, w, id) {
            let k = choose|k: int| 0 <= k < a.len() && list_at(line_lists(#[trigger] a[k]), w).contains(id);
            assert(list_at(line_lists(b[n - 1 - k]), w).contains(id));
        }
        if listed_in_some(b, w, id) {
            let k = choose|k: int| 0 <= k < b.len() && list_at(line_lists(#[trigger] b[k]), w).contains(id);
            assert(a[n - 1 - k] == b[k]);
            assert(list_at(line_lists(a[n - 1 - k]), w).contains(id));
        }
    }
    assert forall|w: Seq<u8>| window_in_some(a, w) <==> window_in_some(b, w) by {
        if window_in_some(a, w) {
            let k = choose|k: int| 0 <= k < a.len() && line_lists(#[trigger] a[k]).contains_key(w);
            assert(line_lists(b[n - 1 - k]).contains_key(w));
        }
        if window_in_some(b, w) {
            let k = choose|k: int| 0 <= k < b.len() && line_lists(#[trigger] b[k]).contains_key(w);
            assert(a[n - 1 - k] == b[k]);
            assert(line_lists(a[n - 1 - k]).contains_key(w));
        }
    }
}

/// Lines per chunk: 100k strikes a balance for thread-local map performance.
pub const LINES_PER_CHUNK: usize = 100_000;

/// Local index number `k` is of the lines from `bounds[k]` up to `bounds[k + 1]`.
pub open spec fn covers_run(
    locals: Seq<LocalIndex>,
    bounds: Seq<int>,
    bytes: Seq<u8>,
    offsets: Seq<u64>,
    k: int,
) -> bool {
    0 <= bounds[k] <= bounds[k + 1] && lists_lines(line_lists(locals[k]), bytes, offsets, bounds[k], bounds[k + 1])
}

/// The local indexes are of the lines before `bounds[1]`, from there to
/// `bounds[2]` and so on.
pub open spec fn cover_lines(locals: Seq<LocalIndex>, bounds: Seq<int>, bytes: Seq<u8>, offsets: Seq<u64>) -> bool {
    &&& bounds.len() == locals.len() + 1
    &&& bounds[0] == 0
    &&& forall|k: int| 0 <= k < locals.len() ==> #[trigger] covers_run(locals, bounds, bytes, offsets, k)
}

proof fn lemma_covering_chunk(
    locals: Seq<LocalIndex>,
    bounds: Seq<int>,
    bytes: Seq<u8>,
    offsets: Seq<u64>,
    id: int,
    n: nat,
) -> (k: int)
    requires
        cover_lines(locals, bounds, bytes, offsets),
        n <= locals.len(),
        0 <= id < bounds[n as int],
    ensures
        0 <= k < n,
        bounds[k] <= id < bounds[k + 1],
    decreases n,
{
    if n == 0 {
        0
    } else if bounds[n - 1] <= id {
        n - 1
    } else {
        lemma_covering_chunk(locals, bounds, bytes, offsets, id, (n - 1) as nat)
    }
}

proof fn lemma_bounds_grow(locals: Seq<LocalIndex>, bounds: Seq<int>, bytes: Seq<u8>, offsets: Seq<u64>, k: int)
    requires
        cover_lines(locals, bounds, bytes, offsets),
        0 <= k <= locals.len(),
    ensures
        0 <= bounds[k] <= bounds.last(),
    decreases locals.len() - k,
{
    if k < locals.len() {
        assert(covers_run(locals, bounds, bytes, offsets, k));
        lemma_bounds_grow(locals, bounds, bytes, offsets, k + 1);
    } else if k > 0 {
        assert(covers_run(locals, bounds, bytes, offsets, k - 1));
    }
}

/// However a file is cut into runs of lines, the index assembled from the
/// indexes of the runs is the index of the file.
pub proof fn index_does_not_depend_on_chunks(
    sets: Map<Seq<u8>, Set<u32>>,
    locals: Seq<LocalIndex>,
    bounds: Seq<int>,
    bytes: Seq<u8>,
    offsets: Seq<u64>,
)
    requires
        assembled(sets, locals),
        cover_lines(locals, bounds, bytes, offsets),
        bounds.last() == offsets.len() <= 0x1_0000_0000,
    ensures
        indexes_lines(sets, bytes, offsets, offsets.len() as int),
{
    let n = offsets.len() as int;
    assert forall|w: Seq<u8>|
        #![trigger sets.contains_key(w)]
        #![trigger lines_at(sets, w)]
        lines_at(sets, w) == lines_having(bytes, offsets, w, n) && (sets.contains_key(w) <==> lines_at(sets, w)
            != Set::<u32>::empty()) by {
        assert forall|id: u32| lines_at(sets, w).contains(id) <==> lines_having(bytes, offsets, w, n).contains(id) by {
            if lines_at(sets, w).contains(id) {
                let k = choose|k: int|
                    0 <= k < locals.len() && list_at(line_lists(#[trigger] locals[k]), w).contains(id);
                assert(covers_run(locals, bounds, bytes, offsets, k));
                lemma_bounds_grow(locals, bounds, bytes, offsets, k);
                lemma_bounds_grow(locals, bounds, bytes, offsets, k + 1);
                lemma_lines_with(bytes, offsets, w, bounds[k], bounds[k + 1], id);
            }
            if lines_having(bytes, offsets, w, n).contains(id) {
                let k = lemma_covering_chunk(locals, bounds, bytes, offsets, id as int, locals.len());
                lemma_bounds_grow(locals, bounds, bytes, offsets, k);
                lemma_bounds_grow(locals, bounds, bytes, offsets, k + 1);
                lemma_lines_with(bytes, offsets, w, bounds[k], bounds[k + 1], id);
                assert(covers_run(locals, bounds, bytes, offsets, k));
                assert(list_at(line_lists(locals[k]), w).contains(id));
                assert(listed_in_some(locals, w, id));
            }
        }
        assert(lines_at(sets, w) =~= lines_having(bytes, offsets, w, n));
        if sets.contains_key(w) {
            let k = choose|k: int| 0 <= k < locals.len() && line_lists(#[trigger] locals[k]).contains_key(w);
            let list = list_at(line_lists(locals[k]), w);
            assert(covers_run(locals, bounds, bytes, offsets, k));
            assert(list.contains(list[0]));
            assert(listed_in_some(locals, w, list[0]));
            assert(lines_at(sets, w).contains(list[0]));
        }
    }
}

/// Index the file by processing chunks of pre-calculated line ids.
pub fn build_compressed_index(bytes: &[u8], line_offsets: &[u64]) -> (index: CompressedTrigramIndex)
    requires
        valid_offsets(line_offsets@, bytes@.len()),
    ensures
        indexes_lines(line_sets(index), bytes@, line_offsets@, line_offsets@.len() as int),
        line_forms(index).dom() == line_sets(index).dom(),
        all_in_form(line_forms(index)),
        all_optimized(line_forms(index)),
{
    let total_lines = line_offsets.len();
    let mut locals: Vec<LocalIndex> = Vec::new();
    let ghost mut bounds: Seq<int> = seq![0int];
    let mut first: usize = 0;
    while first < total_lines
        invariant
            valid_offsets(line_offsets@, bytes@.len()),
            total_lines == line_offsets@.len(),
            first <= total_lines,
            first == bounds.last(),
            cover_lines(locals@, bounds, bytes@, line_offsets@),
        decreases total_lines - first,
    {
        let last = if total_lines - first < LINES_PER_CHUNK {
            total_lines
        } else {
            first + LINES_PER_CHUNK
        };
        let local = index_lines(bytes, line_offsets, first, last);
        let ghost before = locals@;
        let ghost less = bounds;
        locals.push(local);
        proof {
            bounds = bounds.push(last as int);
            assert(bounds[0] == less[0]);
            assert forall|k: int| 0 <= k < locals@.len() implies #[trigger] covers_run(
                locals@,
                bounds,
                bytes@,
                line_offsets@,
                k,
            ) by {
                if k < before.len() {
                    assert(covers_run(before, less, bytes@, line_offsets@, k));
                }
            }
        }
        first = last;
    }
    let index = assemble_index(locals);
    proof {
        index_does_not_depend_on_chunks(line_sets(index), locals@, bounds, bytes@, line_offsets@);
    }
    index
}

/// A copy of a list of lines.
fn copy_lines(lines: &Vec<u32>) -> (out: Vec<u32>)
    ensures
        out@ == lines@,
{
    let mut out: Vec<u32> = Vec::with_capacity(lines.len());
    out.extend_from_slice(lines.as_slice());
    assert(out@ =~= lines@);
    out
}

/// The bytes that a trigram packs.
pub open spec fn window_of(t: Trigram) -> Seq<u8> {
    seq![(t / 0x10000 % 0x100) as u8, (t / 0x100 % 0x100) as u8, (t % 0x100) as u8]
}

/// The bytes that a trigram packs.
fn unpack(t: Trigram) -> (window: [u8; 3])
    ensures
        window@ == window_of(t),
{
    let window = [(t / 0x10000 % 0x100) as u8, (t / 0x100 % 0x100) as u8, (t % 0x100) as u8];
    assert(window@ =~= window_of(t));
    window
}

/// The characters that do not stand for themselves in a pattern.
pub open spec fn is_special(c: char) -> bool {
    ||| c == '\\'
    ||| c == '.'
    ||| c == '+'
    ||| c == '*'
    ||| c == '?'
    ||| c == '('
    ||| c == ')'
    ||| c == '['
    ||| c == ']'
    ||| c == '{'
    ||| c == '}'
    ||| c == '^'
    ||| c == '$'
    ||| c == '|'
}

/// Whether a character ends a literal in a pattern.
fn special(c: char) -> (out: bool)
    ensures
        out == is_special(c),
{
    c == '\\' || c == '.' || c == '+' || c == '*' || c == '?' || c == '(' || c == ')' || c == '[' || c == ']' || c
        == '{' || c == '}' || c == '^' || c == '$' || c == '|'
}

/// The length of the literal that a pattern starts with.
pub open spec fn literal_len(pattern: Seq<char>) -> nat
    decreases pattern.len(),
{
    if pattern.len() == 0 || is_special(pattern[0]) {
        0
    } else {
        1 + literal_len(pattern.skip(1))
    }
}

proof fn lemma_literal_len(pattern: Seq<char>)
    ensures
        literal_len(pattern) <= pattern.len(),
        forall|i: int| 0 <= i < literal_len(pattern) ==> !is_special(#[trigger] pattern[i]),
        literal_len(pattern) < pattern.len() ==> is_special(pattern[literal_len(pattern) as int]),
    decreases pattern.len(),
{
    if pattern.len() > 0 && !is_special(pattern[0]) {
        let rest = pattern.skip(1);
        lemma_literal_len(rest);
        assert forall|i: int| 0 <= i < literal_len(pattern) implies !is_special(#[trigger] pattern[i]) by {
            if i > 0 {
                assert(pattern[i] == rest[i - 1]);
            }
        }
    }
}

proof fn lemma_literal_len_is(pattern: Seq<char>, n: int)
    requires
        0 <= n <= pattern.len(),
        forall|i: int| 0 <= i < n ==> !is_special(#[trigger] pattern[i]),
        n < pattern.len() ==> is_special(pattern[n]),
    ensures
        literal_len(pattern) == n,
{
    lemma_literal_len(pattern);
    let m = literal_len(pattern) as int;
    if m < n {
        assert(!is_special(pattern[m]));
    }
    if n < m {
        assert(!is_special(pattern[n]));
    }
}

/// The windows of the literals in a pattern, in order. A literal ends at a
/// special character, and a backslash takes the character behind it along.
pub open spec fn literal_windows(pattern: Seq<char>) -> Seq<Seq<u8>>
    decreases pattern.len(),
{
    let n = literal_len(pattern) as int;
    let here = windows(encode_utf8(pattern.take(n)));
    if n >= pattern.len() {
        here
    } else if pattern[n] == '\\' && n + 1 < pattern.len() {
        here + literal_windows(pattern.skip(n + 2))
    } else {
        here + literal_windows(pattern.skip(n + 1))
    }
}

/// Extracts static literal byte sequences out of a regex pattern string.
pub fn extract_literal_trigrams_bytes_from_regex(pattern: &str) -> (out: Vec<[u8; 3]>)
    ensures
        windows_view(out@) == literal_windows(pattern@),
{
    let len = pattern.unicode_len();
    let mut out: Vec<[u8; 3]> = Vec::new();
    let mut pos: usize = 0;
    proof {
        assert(pattern@.skip(0) =~= pattern@);
        assert(windows_view(out@) + literal_windows(pattern@) =~= literal_windows(pattern@));
    }
    while pos < len
        invariant
            len == pattern@.len(),
            pos <= len,
            windows_view(out@) + literal_windows(pattern@.skip(pos as int)) == literal_windows(pattern@),
        decreases len - pos,
    {
        let ghost rest = pattern@.skip(pos as int);
        let mut end = pos;
        while end < len && !special(pattern.get_char(end))
            invariant
                len == pattern@.len(),
                pos <= end <= len,
                rest == pattern@.skip(pos as int),
                forall|i: int| 0 <= i < end - pos ==> !is_special(#[trigger] rest[i]),
            decreases len - end,
        {
            assert(rest[end - pos] == pattern@[end as int]);
            end += 1;
        }
        let literal = pattern.substring_char(pos, end);
        let ghost before = windows_view(out@);
        push_windows(&mut out, literal.as_bytes());
        proof {
            if end < len {
                assert(rest[end - pos] == pattern@[end as int]);
            }
            lemma_literal_len_is(rest, end - pos);
            assert(rest.take(end - pos) =~= literal@);
        }
        let ghost here = windows(encode_utf8(literal@));
        if end < len && len - end > 1 && pattern.get_char(end) == '\\' {
            proof {
                assert(rest.skip(end - pos + 2) =~= pattern@.skip(end + 2));
                let tail = literal_windows(pattern@.skip(end + 2));
                assert(before + (here + tail) =~= before + here + tail);
            }
            pos = end + 2;
        } else if end < len {
            proof {
                assert(rest.skip(end - pos + 1) =~= pattern@.skip(end + 1));
                let tail = literal_windows(pattern@.skip(end + 1));
                assert(before + (here + tail) =~= before + here + tail);
            }
            pos = end + 1;
        } else {
            proof {
                lemma_no_windows(pattern@.skip(len as int));
                assert(before + here + literal_windows(pattern@.skip(len as int)) =~= before + here);
            }
            pos = len;
        }
    }
    proof {
        lemma_no_windows(pattern@.skip(len as int));
        assert(windows_view(out@) + literal_windows(pattern@.skip(len as int)) =~= windows_view(out@));
    }
    out
}

proof fn lemma_no_windows(pattern: Seq<char>)
    requires
        pattern.len() == 0,
    ensures
        literal_windows(pattern) == Seq::<Seq<u8>>::empty(),
{
    assert(pattern.take(0) =~= Seq::<char>::empty());
    assert(encode_utf8(Seq::<char>::empty()) == Seq::<u8>::empty());
    assert(literal_windows(pattern) =~= Seq::<Seq<u8>>::empty());
}

/// The trigrams under which a line is listed.
pub open spec fn listed_trigrams(sets: Map<Seq<u8>, Set<u32>>, id: u32) -> Set<Trigram> {
    Set::new(|t: Trigram| lines_at(sets, window_of(t)).contains(id))
}

/// The lines under each of the trigrams.
fn lines_for(index: &CompressedTrigramIndex, trigrams: &Vec<Trigram>) -> (postings: Postings)
    ensures
        forall|t: Trigram, id: u32|
            trigrams@.contains(t) ==> (#[trigger] recorded(postings@, id).contains(t) <==> lines_at(
                line_sets(*index),
                window_of(t),
            ).contains(id)),
{
    let mut postings: Postings = FxHashMap::default();
    let ghost sets = line_sets(*index);
    let mut i: usize = 0;
    while i < trigrams.len()
        invariant
            i <= trigrams@.len(),
            sets == line_sets(*index),
            forall|t: Trigram, id: u32|
                #![trigger recorded(postings@, id).contains(t)]
                recorded(postings@, id).contains(t) ==> lines_at(sets, window_of(t)).contains(id),
            forall|j: int, id: u32|
                #![trigger recorded(postings@, id).contains(trigrams@[j])]
                0 <= j < i ==> (recorded(postings@, id).contains(trigrams@[j]) <==> lines_at(
                    sets,
                    window_of(trigrams@[j]),
                ).contains(id)),
        decreases trigrams@.len() - i,
    {
        let t = trigrams[i];
        let ghost before = postings@;
        if let Some(lines) = get_lines(index, unpack(t)) {
            fx::map_insert(&mut postings, t, lines);
            assert forall|x: Trigram, id: u32| x != t implies #[trigger] recorded(postings@, id).contains(x) == recorded(
                before,
                id,
            ).contains(x) by {}
            assert forall|id: u32| #[trigger] recorded(postings@, id).contains(t) == lines_at(
                sets,
                window_of(t),
            ).contains(id) by {}
        }
        assert forall|j: int, id: u32|
            #![trigger recorded(postings@, id).contains(trigrams@[j])]
            0 <= j < i + 1 implies (recorded(postings@, id).contains(trigrams@[j]) <==> lines_at(
            sets,
            window_of(trigrams@[j]),
        ).contains(id)) by {
            if j < i && trigrams@[j] != t {
                assert(recorded(before, id).contains(trigrams@[j]) <==> lines_at(
                    sets,
                    window_of(trigrams@[j]),
                ).contains(id));
            }
        }
        i += 1;
    }
    assert forall|t: Trigram, id: u32| trigrams@.contains(t) implies (#[trigger] recorded(postings@, id).contains(t)
        <==> lines_at(sets, window_of(t)).contains(id)) by {
        let j = choose|j: int| 0 <= j < trigrams@.len() && trigrams@[j] == t;
        assert(recorded(postings@, id).contains(trigrams@[j]) <==> lines_at(sets, window_of(trigrams@[j])).contains(id));
    }
    postings
}

/// The lines that satisfy a query, as far as the index tells.
pub fn candidate_lines(index: &CompressedTrigramIndex, query: &Query) -> (out: CandidateSet)
    ensures
        out is All <==> query@.asks_nothing(),
        forall|id: u32| #[trigger] out.admits(id) <==> query@.satisfied(listed_trigrams(line_sets(*index), id)),
{
    let trigrams = query.mentioned();
    let postings = lines_for(index, &trigrams);
    let out = evaluate(query, &postings);
    proof {
        let sets = line_sets(*index);
        assert forall|id: u32| #[trigger] out.admits(id) <==> query@.satisfied(listed_trigrams(sets, id)) by {
            let (a, b) = (recorded(postings@, id), listed_trigrams(sets, id));
            assert forall|t: Trigram| #[trigger] query@.mentioned().contains(t) implies a.contains(t) == b.contains(t) by {
                assert(trigrams@.contains(t));
            }
            if query@.satisfied(a) {
                only_mentioned_trigrams_count(query@, a, b);
            }
            if query@.satisfied(b) {
                only_mentioned_trigrams_count(query@, b, a);
            }
        }
    }
    out
}

/// Unpacking undoes packing.
proof fn lemma_window_of(a: u8, b: u8, c: u8)
    ensures
        window_of(pack(a, b, c)) == seq![a, b, c],
{
    assert(window_of(pack(a, b, c)) =~= seq![a, b, c]);
}

/// A line of an indexed file is listed under every trigram that it contains.
proof fn lemma_line_is_listed(sets: Map<Seq<u8>, Set<u32>>, bytes: Seq<u8>, offsets: Seq<u64>, id: u32)
    requires
        indexes_lines(sets, bytes, offsets, offsets.len() as int),
        id < offsets.len(),
    ensures
        trigram_set(line_at(bytes, offsets, id as int)).subset_of(listed_trigrams(sets, id)),
{
    let line = line_at(bytes, offsets, id as int);
    assert forall|t: Trigram| trigram_set(line).contains(t) implies listed_trigrams(sets, id).contains(t) by {
        let i = choose|i: int| 0 <= i < trigrams(line).len() && trigrams(line)[i] == t;
        assert(t == pack(line[i], line[i + 1], line[i + 2]));
        lemma_window_of(line[i], line[i + 1], line[i + 2]);
        assert(seq![line[i], line[i + 1], line[i + 2]] =~= line.subrange(i, i + 3));
        assert(windows(line)[i] == window_of(t));
        assert(windows(line).contains(window_of(t)));
        assert(lines_at(sets, window_of(t)) == lines_having(bytes, offsets, window_of(t), offsets.len() as int));
    }
}

/// Whether a pattern matches a line.
pub open spec fn line_matches(pattern: Seq<char>, bytes: Seq<u8>, offsets: Seq<u64>, id: u32) -> bool {
    match_spans(pattern, line_at(bytes, offsets, id as int)).len() > 0
}

/// `ids` are the lines that match among the candidates, in their order.
pub open spec fn matched_among(
    candidates: Seq<u32>,
    pattern: Seq<char>,
    bytes: Seq<u8>,
    offsets: Seq<u64>,
) -> Seq<u32>
    decreases candidates.len(),
{
    if candidates.len() == 0 {
        Seq::empty()
    } else {
        let init = matched_among(candidates.drop_last(), pattern, bytes, offsets);
        if line_matches(pattern, bytes, offsets, candidates.last()) {
            init.push(candidates.last())
        } else {
            init
        }
    }
}

/// The lines that match among the candidates.
pub fn matching_lines(bytes: &[u8], line_offsets: &[u64], regex: &Regex, candidates: &[u32]) -> (ids: Vec<u32>)
    requires
        valid_offsets(line_offsets@, bytes@.len()),
        forall|i: int| 0 <= i < candidates@.len() ==> #[trigger] candidates@[i] < line_offsets@.len(),
    ensures
        ids@ == matched_among(candidates@, source_of(*regex), bytes@, line_offsets@),
{
    let mut ids: Vec<u32> = Vec::new();
    let mut i: usize = 0;
    while i < candidates.len()
        invariant
            i <= candidates@.len(),
            valid_offsets(line_offsets@, bytes@.len()),
            forall|k: int| 0 <= k < candidates@.len() ==> #[trigger] candidates@[k] < line_offsets@.len(),
            ids@ == matched_among(candidates@.take(i as int), source_of(*regex), bytes@, line_offsets@),
        decreases candidates@.len() - i,
    {
        let id = candidates[i];
        let line = get_line_bytes(bytes, line_offsets, id);
        if is_match(regex, line) {
            ids.push(id);
        }
        assert(candidates@.take(i + 1).drop_last() =~= candidates@.take(i as int));
        assert(candidates@.take(i + 1).last() == id);
        i += 1;
    }
    assert(candidates@.take(i as int) =~= candidates@);
    ids
}

/// The number of matches that are shown.
pub const MATCHES_SHOWN: usize = 5;

/// Lines as they are shown: with the id, as text, without white space at the
/// end.
pub open spec fn shown_lines(ids: Seq<u32>, bytes: Seq<u8>, offsets: Seq<u64>) -> Seq<(u32, Seq<char>)> {
    ids.map_values(|id: u32| (id, trimmed_end(lossy_text(line_at(bytes, offsets, id as int)))))
}

/// The first ids, as many as are shown.
pub open spec fn first_ids(ids: Seq<u32>) -> Seq<u32> {
    if ids.len() <= MATCHES_SHOWN {
        ids
    } else {
        ids.take(MATCHES_SHOWN as int)
    }
}

/// Ids and texts as pairs.
pub open spec fn shown_view(shown: Seq<(u32, String)>) -> Seq<(u32, Seq<char>)> {
    shown.map_values(|line: (u32, String)| (line.0, line.1@))
}

/// What a line search found: how many lines match, and the first few of them.
#[derive(Debug)]
pub struct LineMatches {
    /// The pattern holds no literal window, so all lines were looked at.
    pub no_literals: bool,
    pub match_count: usize,
    pub shown: Vec<(u32, String)>,
}

/// Count the matching lines and show the first few.
pub fn show_matches(bytes: &[u8], line_offsets: &[u64], ids: &[u32], no_literals: bool) -> (out: LineMatches)
    requires
        valid_offsets(line_offsets@, bytes@.len()),
        forall|i: int| 0 <= i < ids@.len() ==> #[trigger] ids@[i] < line_offsets@.len(),
    ensures
        out.no_literals == no_literals,
        out.match_count == ids@.len(),
        shown_view(out.shown@) == shown_lines(first_ids(ids@), bytes@, line_offsets@),
{
    let mut shown: Vec<(u32, String)> = Vec::new();
    let mut i: usize = 0;
    while i < ids.len() && i < MATCHES_SHOWN
        invariant
            i <= first_ids(ids@).len(),
            valid_offsets(line_offsets@, bytes@.len()),
            forall|k: int| 0 <= k < ids@.len() ==> #[trigger] ids@[k] < line_offsets@.len(),
            shown_view(shown@) =~= shown_lines(ids@.take(i as int), bytes@, line_offsets@),
        decreases ids@.len() - i,
    {
        let line = get_line_bytes(bytes, line_offsets, ids[i]);
        let text = decode_lossy(line);
        let shown_text = trim_end(text.as_str()).to_owned();
        let ghost before = shown@;
        shown.push((ids[i], shown_text));
        proof {
            let next = ids@.take(i + 1);
            assert(next =~= ids@.take(i as int).push(ids@[i as int]));
            assert(shown_view(shown@) =~= shown_view(before).push((ids@[i as int], shown_text@)));
        }
        i += 1;
    }
    assert(ids@.take(i as int) =~= first_ids(ids@));
    LineMatches { no_literals, match_count: ids.len(), shown }
}

/// The lines that a search finds: those that match, among the lines that satisfy
/// the query of the pattern as far as the index tells if the pattern holds a
/// literal to go by.
pub open spec fn found_lines(
    sets: Map<Seq<u8>, Set<u32>>,
    pattern: Seq<char>,
    bytes: Seq<u8>,
    offsets: Seq<u64>,
) -> Set<u32> {
    Set::new(
        |id: u32|
            id < offsets.len() && (literal_windows(pattern).len() > 0 ==> pattern_query(pattern).satisfied(
                listed_trigrams(sets, id),
            )) && line_matches(pattern, bytes, offsets, id),
    )
}

/// The lines that a pattern matches.
pub open spec fn matching_set(pattern: Seq<char>, bytes: Seq<u8>, offsets: Seq<u64>) -> Set<u32> {
    Set::new(|id: u32| id < offsets.len() && line_matches(pattern, bytes, offsets, id))
}

/// Every line listed is one of the first `n`.
pub open spec fn lines_below(sets: Map<Seq<u8>, Set<u32>>, n: int) -> bool {
    forall|w: Seq<u8>, id: u32| #[trigger] lines_at(sets, w).contains(id) ==> id < n
}

proof fn lemma_matched_among(candidates: Seq<u32>, pattern: Seq<char>, bytes: Seq<u8>, offsets: Seq<u64>)
    requires
        ascending(candidates),
    ensures
        ascending(matched_among(candidates, pattern, bytes, offsets)),
        forall|id: u32| #[trigger]
            matched_among(candidates, pattern, bytes, offsets).contains(id) <==> candidates.contains(id)
                && line_matches(pattern, bytes, offsets, id),
    decreases candidates.len(),
{
    if candidates.len() > 0 {
        let init = candidates.drop_last();
        let last = candidates.last();
        lemma_matched_among(init, pattern, bytes, offsets);
        let before = matched_among(init, pattern, bytes, offsets);
        let after = matched_among(candidates, pattern, bytes, offsets);
        assert forall|i: int, j: int| 0 <= i < j < after.len() implies after[i] < after[j] by {
            assert(before.contains(after[i])) by {
                assert(before[i] == after[i]);
            }
            let k = choose|k: int| 0 <= k < init.len() && init[k] == after[i];
            assert(candidates[k] < candidates[candidates.len() - 1]);
        }
        assert forall|id: u32| #[trigger]
            after.contains(id) <==> candidates.contains(id) && line_matches(pattern, bytes, offsets, id) by {
            if before.contains(id) {
                let k = choose|k: int| 0 <= k < before.len() && before[k] == id;
                assert(after[k] == id);
            }
            if after.contains(id) {
                let k = choose|k: int| 0 <= k < after.len() && after[k] == id;
                if k < before.len() {
                    assert(before[k] == id);
                }
            }
            if init.contains(id) {
                let k = choose|k: int| 0 <= k < init.len() && init[k] == id;
                assert(candidates[k] == id);
            }
            if candidates.contains(id) {
                let k = choose|k: int| 0 <= k < candidates.len() && candidates[k] == id;
                if k < init.len() {
                    assert(init[k] == id);
                }
            }
            if after.len() > before.len() {
                assert(after[before.len() as int] == last);
            }
            assert(candidates[candidates.len() - 1] == last);
        }
    }
}

/// The ids of all lines.
fn all_lines(n: usize) -> (ids: Vec<u32>)
    requires
        n <= 0x1_0000_0000,
    ensures
        ascending(ids@),
        forall|id: u32| #[trigger] ids@.contains(id) <==> id < n,
{
    let mut ids: Vec<u32> = Vec::with_capacity(n);
    let mut i: usize = 0;
    while i < n
        invariant
            i <= n <= 0x1_0000_0000,
            ids@.len() == i,
            forall|k: int| 0 <= k < i ==> #[trigger] ids@[k] == k,
        decreases n - i,
    {
        ids.push(i as u32);
        i += 1;
    }
    assert forall|id: u32| #[trigger] ids@.contains(id) <==> id < n by {
        if id < n {
            assert(ids@[id as int] == id);
        }
    }
    ids
}

/// Whether every line listed is one of the first `n`.
pub fn check_lines(index: &CompressedTrigramIndex, n: usize) -> (ok: bool)
    ensures
        ok == lines_below(line_sets(*index), n as int),
{
    let windows = list_windows(index);
    let ghost sets = line_sets(*index);
    let mut i: usize = 0;
    while i < windows.len()
        invariant
            i <= windows@.len(),
            sets == line_sets(*index),
            forall|w: Seq<u8>| #[trigger]
                sets.contains_key(w) ==> exists|j: int| 0 <= j < windows@.len() && (#[trigger] windows@[j])@ == w,
            forall|j: int, id: u32|
                0 <= j < i && #[trigger] lines_at(sets, windows@[j]@).contains(id) ==> id < n,
        decreases windows@.len() - i,
    {
        if let Some(lines) = get_lines(index, windows[i]) {
            if !ids_below(&lines, n) {
                proof {
                    let id = choose|id: u32| #[trigger] bitmap_ids(lines).contains(id) && id >= n;
                    assert(lines_at(sets, windows@[i as int]@).contains(id));
                }
                return false;
            }
        }
        i += 1;
    }
    assert forall|w: Seq<u8>, id: u32| #[trigger] lines_at(sets, w).contains(id) implies id < n by {
        assert(sets.contains_key(w));
        let j = choose|j: int| 0 <= j < windows@.len() && (#[trigger] windows@[j])@ == w;
        assert(lines_at(sets, windows@[j]@).contains(id));
    }
    true
}

/// Search the lines of a file. If the pattern holds no literal to go by, all
/// lines are looked at, whatever the index tells. Otherwise only lines are that
/// satisfy the query of the pattern as far as the index tells. With an index of
/// the whole file no line that matches is lost.
pub fn search_lines(
    bytes: &[u8],
    line_offsets: &[u64],
    index: &CompressedTrigramIndex,
    pattern: &str,
) -> (out: Result<LineMatches, InvalidRegex>)
    requires
        valid_offsets(line_offsets@, bytes@.len()),
        lines_below(line_sets(*index), line_offsets@.len() as int),
    ensures
        out is Ok <==> regex_fault(pattern@) is None,
        out matches Err(error) ==> error.message@ == "Invalid Regex syntax: "@ + regex_fault(pattern@)->0,
        out matches Ok(matches) ==> matches.no_literals == (literal_windows(pattern@).len() == 0) && matches.match_count
            == found_lines(line_sets(*index), pattern@, bytes@, line_offsets@).len() && shown_view(matches.shown@)
            == shown_lines(
            first_ids(ascending_members(found_lines(line_sets(*index), pattern@, bytes@, line_offsets@))),
            bytes@,
            line_offsets@,
        ),
        out is Ok ==> follows_tree(pattern@),
        out is Ok && indexes_lines(line_sets(*index), bytes@, line_offsets@, line_offsets@.len() as int)
            ==> found_lines(line_sets(*index), pattern@, bytes@, line_offsets@) == matching_set(
            pattern@,
            bytes@,
            line_offsets@,
        ),
{
    let regex = match new_regex(pattern) {
        Ok(regex) => regex,
        Err(error) => {
            let text = describe(&error);
            return Err(InvalidRegex { message: String::from_str("Invalid Regex syntax: ").concat(text.as_str()) });
        },
    };
    let literals = extract_literal_trigrams_bytes_from_regex(pattern);
    let no_literals = literals.len() == 0;
    let ghost sets = line_sets(*index);
    let ghost found = found_lines(sets, pattern@, bytes@, line_offsets@);
    let ghost wanted = pattern_query(pattern@);
    assert(no_literals == (literal_windows(pattern@).len() == 0)) by {
        assert(windows_view(literals@).len() == literals@.len());
    }
    let narrowed = if no_literals {
        CandidateSet::All
    } else {
        candidate_lines(index, &analyze(pattern))
    };
    let candidates = match narrowed {
        CandidateSet::Only(bitmap) => {
            let ids = list_ids(&bitmap);
            proof {
                assert forall|id: u32| #[trigger] ids@.contains(id) <==> wanted.satisfied(listed_trigrams(sets, id)) by {
                    assert(ids@.to_set().contains(id) == ids@.contains(id));
                    assert(CandidateSet::Only(bitmap).admits(id) == wanted.satisfied(listed_trigrams(sets, id)));
                }
                assert forall|i: int| 0 <= i < ids@.len() implies #[trigger] ids@[i] < line_offsets@.len() by {
                    assert(ids@.contains(ids@[i]));
                    if ids@[i] >= line_offsets@.len() {
                        assert(listed_trigrams(sets, ids@[i]) =~= Set::empty());
                        asking_something_turns_away(wanted);
                    }
                }
            }
            ids
        },
        CandidateSet::All => {
            let ids = all_lines(line_offsets.len());
            proof {
                assert forall|i: int| 0 <= i < ids@.len() implies #[trigger] ids@[i] < line_offsets@.len() by {
                    assert(ids@.contains(ids@[i]));
                }
                if !no_literals {
                    assert forall|id: u32| wanted.satisfied(#[trigger] listed_trigrams(sets, id)) by {
                        asking_nothing_accepts_all(wanted, listed_trigrams(sets, id));
                    }
                }
            }
            ids
        },
    };
    let ids = matching_lines(bytes, line_offsets, &regex, candidates.as_slice());
    proof {
        lemma_matched_among(candidates@, pattern@, bytes@, line_offsets@);
        assert forall|id: u32| ids@.to_set().contains(id) == found.contains(id) by {
            assert(ids@.to_set().contains(id) == ids@.contains(id));
            if candidates@.contains(id) {
                let k = choose|k: int| 0 <= k < candidates@.len() && candidates@[k] == id;
                assert(candidates@[k] < line_offsets@.len());
            }
        }
        assert(ids@.to_set() =~= found);
        assert(ids@.no_duplicates());
        ids@.unique_seq_to_set();
        lemma_ascending_unique(ids@, ascending_members(found));
        assert forall|i: int| 0 <= i < ids@.len() implies #[trigger] ids@[i] < line_offsets@.len() by {
            assert(ids@.contains(ids@[i]));
            assert(found.contains(ids@[i])) by {
                assert(ids@.to_set().contains(ids@[i]));
            }
        }
        if indexes_lines(sets, bytes@, line_offsets@, line_offsets@.len() as int) {
            line_search_is_complete(sets, pattern@, bytes@, line_offsets@);
        }
    }
    Ok(show_matches(bytes, line_offsets, ids.as_slice(), no_literals))
}

/// An index of the whole file lists only lines of it.
pub proof fn built_index_serves_every_search(sets: Map<Seq<u8>, Set<u32>>, bytes: Seq<u8>, offsets: Seq<u64>)
    requires
        indexes_lines(sets, bytes, offsets, offsets.len() as int),
    ensures
        lines_below(sets, offsets.len() as int),
{
}

/// With an index of the whole file, a search finds every line that matches.
pub proof fn line_search_is_complete(
    sets: Map<Seq<u8>, Set<u32>>,
    pattern: Seq<char>,
    bytes: Seq<u8>,
    offsets: Seq<u64>,
)
    requires
        indexes_lines(sets, bytes, offsets, offsets.len() as int),
        follows_tree(pattern),
    ensures
        found_lines(sets, pattern, bytes, offsets) == matching_set(pattern, bytes, offsets),
{
    let query = pattern_query(pattern);
    assert forall|id: u32| #[trigger] matching_set(pattern, bytes, offsets).contains(id) implies query.satisfied(
        listed_trigrams(sets, id),
    ) by {
        let line = line_at(bytes, offsets, id as int);
        if let Some(expr) = parsed(pattern) {
            let spans = match_spans(pattern, line);
            assert(spans_within(spans, line.len()));
            assert(expr.matches(span_bytes(line, spans[0])));
            query_is_sound(expr, line, spans[0].0 as int, spans[0].1 as int);
            lemma_line_is_listed(sets, bytes, offsets, id);
            satisfaction_is_monotone(query, trigram_set(line), listed_trigrams(sets, id));
        }
    }
    assert(found_lines(sets, pattern, bytes, offsets) =~= matching_set(pattern, bytes, offsets));
}

/// What a line of input asks for: nothing further, or a search for the pattern
/// between the white space around it.
pub fn read_query(line: &str) -> (pattern: Option<String>)
    ensures
        pattern is None <==> line@ == "exit"@,
        pattern matches Some(p) ==> p@ == trimmed_end(trimmed_start(line@)),
{
    if same_text(line, "exit") {
        None
    } else {
        Some(trim_end(trim_start(line)).to_owned())
    }
}

/// Lines start at the first byte and behind every newline that is not the last
/// byte, and nowhere else.
pub proof fn offsets_are_all_line_starts(bytes: Seq<u8>, p: u64)
    requires
        bytes.len() <= u64::MAX,
    ensures
        line_offsets_of(bytes).contains(p) <==> p < bytes.len() && (p == 0 || bytes[p - 1] == 10),
        forall|i: int, j: int|
            0 <= i < j < line_offsets_of(bytes).len() ==> line_offsets_of(bytes)[i] < line_offsets_of(bytes)[j],
{
    lemma_starts_bounds(bytes, 0, bytes.len() as int);
    let offsets = line_offsets_of(bytes);
    if offsets.contains(p) {
        let i = choose|i: int| 0 <= i < offsets.len() && offsets[i] == p;
        assert(is_line_start(bytes, offsets[i] as int));
    }
    if p < bytes.len() && (p == 0 || bytes[p - 1] == 10) {
        lemma_starts_complete(bytes, 0, bytes.len() as int, p as int);
    }
}

/// A byte string has a window wherever three bytes in a row are those of it.
pub proof fn windows_are_three_bytes_in_a_row(bytes: Seq<u8>, window: Seq<u8>)
    ensures
        windows(bytes).contains(window) <==> window.len() == 3 && exists|front: Seq<u8>, back: Seq<u8>|
            bytes == #[trigger] ((front + window) + back),
        bytes.len() >= 3 ==> windows(bytes).len() == bytes.len() - 2,
        bytes.len() < 3 ==> windows(bytes).len() == 0,
{
    let all = windows(bytes);
    if all.contains(window) {
        let i = choose|i: int| 0 <= i < all.len() && all[i] == window;
        assert(bytes =~= (bytes.take(i) + window) + bytes.skip(i + 3));
    }
    if window.len() == 3 && exists|front: Seq<u8>, back: Seq<u8>| bytes == #[trigger] ((front + window) + back) {
        let (front, back) = choose|front: Seq<u8>, back: Seq<u8>| bytes == #[trigger] ((front + window) + back);
        let i = front.len() as int;
        assert(bytes.subrange(i, i + 3) =~= window);
        assert(all[i] == window);
    }
}

/// An index of lines lists a line under a window if and only if the line holds it.
pub proof fn lines_are_listed_under_their_windows(
    sets: Map<Seq<u8>, Set<u32>>,
    bytes: Seq<u8>,
    offsets: Seq<u64>,
    window: Seq<u8>,
    id: u32,
)
    requires
        indexes_lines(sets, bytes, offsets, offsets.len() as int),
    ensures
        lines_at(sets, window).contains(id) <==> id < offsets.len() && windows(
            bytes.subrange(
                offsets[id as int] as int,
                if id + 1 < offsets.len() {
                    offsets[id + 1] as int
                } else {
                    bytes.len() as int
                },
            ),
        ).contains(window),
{
    assert(lines_at(sets, window) == lines_having(bytes, offsets, window, offsets.len() as int));
}

/// The lines of a run that hold a window come each once and in order.
pub proof fn runs_list_lines_in_order(bytes: Seq<u8>, offsets: Seq<u64>, window: Seq<u8>, a: int, b: int, id: u32)
    requires
        0 <= a <= b <= 0x1_0000_0000,
    ensures
        lines_with(bytes, offsets, window, a, b).contains(id) <==> a <= id < b && windows(
            line_at(bytes, offsets, id as int),
        ).contains(window),
        ascending(lines_with(bytes, offsets, window, a, b)),
        forall|i: int|
            0 <= i < lines_with(bytes, offsets, window, a, b).len() ==> #[trigger] lines_with(bytes, offsets, window, a, b)[i]
                < b,
    decreases b - a,
{
    broadcast use vstd::seq_lib::group_seq_properties;

    if a < b {
        runs_list_lines_in_order(bytes, offsets, window, a, b - 1, id);
    }
}

/// The characters that end a literal.
pub proof fn special_characters_end_a_literal(c: char)
    ensures
        is_special(c) <==> "\\.+*?()[]{}^$|"@.contains(c),
{
    reveal_strlit("\\.+*?()[]{}^$|");
    let all = "\\.+*?()[]{}^$|"@;
    assert(all.len() == 14);
    if is_special(c) {
        assert(all[0] == c || all[1] == c || all[2] == c || all[3] == c || all[4] == c || all[5] == c || all[6] == c || all[7]
            == c || all[8] == c || all[9] == c || all[10] == c || all[11] == c || all[12] == c || all[13] == c);
    }
    if all.contains(c) {
        let i = choose|i: int| 0 <= i < all.len() && all[i] == c;
        assert(all[i] == c);
    }
}

/// The windows of a pattern are those of its literals, one after the other. A
/// literal ends at a special character, and what is behind that is another
/// pattern; behind a backslash one character more belongs to neither.
pub proof fn literals_end_at_special_characters(front: Seq<char>, c: char, x: char, rest: Seq<char>)
    requires
        forall|i: int| 0 <= i < front.len() ==> !is_special(#[trigger] front[i]),
    ensures
        literal_windows(front) == windows(encode_utf8(front)),
        is_special(c) && c != '\\' ==> literal_windows(front + seq![c] + rest) == windows(encode_utf8(front))
            + literal_windows(rest),
        literal_windows(front + seq!['\\', x] + rest) == windows(encode_utf8(front)) + literal_windows(rest),
        literal_windows(front + seq!['\\']) == windows(encode_utf8(front)),
{
    let n = front.len() as int;
    lemma_literal_len_is(front, n);
    assert(front.take(n) =~= front);
    if is_special(c) && c != '\\' {
        let p = front + seq![c] + rest;
        assert(p[n] == c);
        assert forall|i: int| 0 <= i < n implies !is_special(#[trigger] p[i]) by {
            assert(p[i] == front[i]);
        }
        lemma_literal_len_is(p, n);
        assert(p.take(n) =~= front);
        assert(p.skip(n + 1) =~= rest);
    }
    let q = front + seq!['\\', x] + rest;
    assert(q[n] == '\\');
    assert forall|i: int| 0 <= i < n implies !is_special(#[trigger] q[i]) by {
        assert(q[i] == front[i]);
    }
    lemma_literal_len_is(q, n);
    assert(q.take(n) =~= front);
    assert(q.skip(n + 2) =~= rest);
    let r = front + seq!['\\'];
    assert(r[n] == '\\');
    assert forall|i: int| 0 <= i < n implies !is_special(#[trigger] r[i]) by {
        assert(r[i] == front[i]);
    }
    lemma_literal_len_is(r, n);
    assert(r.take(n) =~= front);
    assert(r.skip(n + 1) =~= Seq::empty());
    lemma_no_windows(r.skip(n + 1));
    assert(windows(encode_utf8(front)) + Seq::<Seq<u8>>::empty() =~= windows(encode_utf8(front)));
}

/// Of the candidates the lines stay in which the pattern matches, newline included,
/// in their order.
pub proof fn candidates_are_verified(candidates: Seq<u32>, pattern: Seq<char>, bytes: Seq<u8>, offsets: Seq<u64>)
    ensures
        matched_among(candidates, pattern, bytes, offsets) == candidates.filter(
            |id: u32|
                match_spans(
                    pattern,
                    bytes.subrange(
                        offsets[id as int] as int,
                        if id + 1 < offsets.len() {
                            offsets[id + 1] as int
                        } else {
                            bytes.len() as int
                        },
                    ),
                ).len() > 0,
        ),
    decreases candidates.len(),
{
    reveal(Seq::filter);
    if candidates.len() > 0 {
        candidates_are_verified(candidates.drop_last(), pattern, bytes, offsets);
    }
}

/// The first five matches are shown, or all if there are fewer, each with its
/// number and its text without the white space at its end.
pub proof fn the_first_five_matches_are_shown(ids: Seq<u32>, bytes: Seq<u8>, offsets: Seq<u64>, k: int)
    requires
        0 <= k < ids.len(),
    ensures
        shown_lines(first_ids(ids), bytes, offsets).len() == if ids.len() < 5 {
            ids.len() as int
        } else {
            5
        },
        k < 5 ==> shown_lines(first_ids(ids), bytes, offsets)[k].0 == ids[k] && shown_lines(
            first_ids(ids),
            bytes,
            offsets,
        )[k].1 == trimmed_end(lossy_text(line_at(bytes, offsets, ids[k] as int))),
{
}

/// With an index of the whole file, what is counted are the lines in which the
/// pattern matches, and what is shown are the first of them.
pub proof fn a_line_search_counts_every_match(
    sets: Map<Seq<u8>, Set<u32>>,
    pattern: Seq<char>,
    bytes: Seq<u8>,
    offsets: Seq<u64>,
    id: u32,
)
    requires
        indexes_lines(sets, bytes, offsets, offsets.len() as int),
        follows_tree(pattern),
    ensures
        found_lines(sets, pattern, bytes, offsets).contains(id) <==> id < offsets.len() && match_spans(
            pattern,
            bytes.subrange(
                offsets[id as int] as int,
                if id + 1 < offsets.len() {
                    offsets[id + 1] as int
                } else {
                    bytes.len() as int
                },
            ),
        ).len() > 0,
{
    line_search_is_complete(sets, pattern, bytes, offsets);
}

/// Offsets can be used if and only if they ascend, none lies behind the end, and
/// 32-bit ids can tell the lines apart.
pub proof fn usable_offsets_ascend(offsets: Seq<u64>, len: nat)
    ensures
        valid_offsets(offsets, len) <==> offsets.len() <= 0x1_0000_0000 && (forall|i: int|
            0 <= i < offsets.len() - 1 ==> #[trigger] offsets[i] <= offsets[i + 1]) && (offsets.len() > 0 ==> offsets.last()
            <= len),
{
    if (forall|i: int| 0 <= i < offsets.len() - 1 ==> #[trigger] offsets[i] <= offsets[i + 1]) && (offsets.len() > 0
        ==> offsets.last() <= len) {
        assert forall|i: int, j: int| 0 <= i < j < offsets.len() implies offsets[i] <= offsets[j] by {
            lemma_offsets_ascend(offsets, i, j);
        }
        assert forall|i: int| 0 <= i < offsets.len() implies #[trigger] offsets[i] <= len by {
            if i < offsets.len() - 1 {
                lemma_offsets_ascend(offsets, i, offsets.len() - 1);
            }
        }
    }
    if valid_offsets(offsets, len) && offsets.len() > 0 {
        assert(offsets[offsets.len() - 1] <= len);
    }
}

proof fn lemma_offsets_ascend(offsets: Seq<u64>, i: int, j: int)
    requires
        0 <= i < j < offsets.len(),
        forall|k: int| 0 <= k < offsets.len() - 1 ==> #[trigger] offsets[k] <= offsets[k + 1],
    ensures
        offsets[i] <= offsets[j],
    decreases j - i,
{
    assert(offsets[j - 1] <= offsets[j - 1 + 1]);
    if i < j - 1 {
        lemma_offsets_ascend(offsets, i, j - 1);
    }
}

/// The line starts of a part are those of the whole that lie in it, in order.
pub proof fn parts_hold_their_line_starts(bytes: Seq<u8>, a: int, b: int, p: u64)
    requires
        0 <= a <= b <= u64::MAX,
    ensures
        starts_between(bytes, a, b).contains(p) <==> a <= p < b && (p == 0 || bytes[p - 1] == 10),
        forall|i: int, j: int|
            0 <= i < j < starts_between(bytes, a, b).len() ==> starts_between(bytes, a, b)[i] < starts_between(
                bytes,
                a,
                b,
            )[j],
{
    lemma_starts_bounds(bytes, a, b);
    let starts = starts_between(bytes, a, b);
    if starts.contains(p) {
        let i = choose|i: int| 0 <= i < starts.len() && starts[i] == p;
        assert(is_line_start(bytes, starts[i] as int));
    }
    if a <= p < b && (p == 0 || bytes[p - 1] == 10) {
        lemma_starts_complete(bytes, a, b, p as int);
    }
}

} // verus!
