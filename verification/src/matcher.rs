//! Regex verification of candidate files.
//!
//! A candidate file (narrowed by the trigram index, or any file in brute-force
//! mode) is matched as raw bytes; the matches are grouped by line and shown in
//! `path:line:content` form.

use regex::bytes::Regex;
use rustc_hash::FxHashMap;
use vstd::prelude::*;
use vstd::slice::slice_subrange;

use crate::analysis::{pattern_query, query_is_sound, query_of};
use crate::expr::parsed;
use crate::fx;
use crate::index::{content_trigrams, INDEX_SAMPLE};
use crate::pattern::{find_spans, follows_tree, match_spans, source_of, span_bytes, spans_within};
use crate::query::satisfaction_is_monotone;
use crate::scanner::{binary, leading, starts_binary};
use crate::strings::copy_bytes;
use crate::text::{decimal, join, joined, lossy, push_decimal, push_lossy, same_text};
use crate::trigram::{folded_set, folding_only_adds, trigram_set};

verus! {

/// How many leading bytes are sampled to tell a binary file.
pub const BINARY_SAMPLE: usize = 8192;

#[derive(Debug, Clone, Copy, PartialEq, Eq, Structural)]
pub enum SearchMode {
    Normal,
    Count,
    FilesWithMatches,
}

#[derive(Debug, Clone, Copy, PartialEq, Eq, Structural)]
pub enum ColorWhen {
    Auto,
    Always,
    Never,
}

#[derive(Debug, Clone, Copy, PartialEq, Eq, Structural)]
pub struct SearchOptions {
    pub mode: SearchMode,
    pub before: usize,
    pub after: usize,
    pub color: ColorWhen,
}

impl Default for SearchOptions {
    fn default() -> (out: SearchOptions)
        ensures
            out == (SearchOptions { mode: SearchMode::Normal, before: 0, after: 0, color: ColorWhen::Auto }),
    {
        SearchOptions { mode: SearchMode::Normal, before: 0, after: 0, color: ColorWhen::Auto }
    }
}

impl SearchOptions {
    /// Lines around the matches are shown too.
    pub open spec fn has_context(self) -> bool {
        self.before > 0 || self.after > 0
    }

    /// Whether lines around the matches are shown too.
    pub fn wants_context(&self) -> (out: bool)
        ensures
            out == self.has_context(),
    {
        self.before > 0 || self.after > 0
    }
}

/// A line to print, with the byte spans (relative to `content`) of any matches
/// on it — kept as bytes so colouring can splice ANSI codes at exact offsets.
/// Line 0 stands for a gap between lines shown in context.
#[derive(Debug)]
pub struct PrintEntry {
    pub line: usize,
    pub content: Vec<u8>,
    pub spans: Vec<(usize, usize)>,
    pub is_match: bool,
}

/// The mathematical form of a [`PrintEntry`].
#[verifier::ext_equal]
pub struct EntrySpec {
    pub line: int,
    pub content: Seq<u8>,
    pub spans: Seq<(int, int)>,
    pub is_match: bool,
}

/// Spans as pairs of integers.
pub open spec fn span_ints(spans: Seq<(usize, usize)>) -> Seq<(int, int)> {
    spans.map_values(|s: (usize, usize)| (s.0 as int, s.1 as int))
}

impl View for PrintEntry {
    type V = EntrySpec;

    open spec fn view(&self) -> EntrySpec {
        EntrySpec {
            line: self.line as int,
            content: self.content@,
            spans: span_ints(self.spans@),
            is_match: self.is_match,
        }
    }
}

/// The mathematical forms of several entries.
pub open spec fn entries_of(entries: Seq<PrintEntry>) -> Seq<EntrySpec> {
    entries.map_values(|e: PrintEntry| e@)
}

#[derive(Debug)]
pub struct FileResult {
    pub rel_path: Vec<u8>,
    pub match_count: usize,
    pub entries: Vec<PrintEntry>,
}

/// The offsets at which lines begin, as far as the first `n` bytes show: line 1
/// at 0, and each further line behind a newline that is not the last byte.
pub open spec fn starts_within(bytes: Seq<u8>, n: nat) -> Seq<int>
    decreases n,
{
    if n == 0 {
        seq![0]
    } else {
        let before = starts_within(bytes, (n - 1) as nat);
        if bytes[n - 1] == 10 && n < bytes.len() {
            before.push(n as int)
        } else {
            before
        }
    }
}

/// The offsets at which lines begin.
pub open spec fn line_starts(bytes: Seq<u8>) -> Seq<int> {
    starts_within(bytes, bytes.len())
}

/// How many of the ascending offsets are at most `pos`: the number of the line
/// that holds the byte at `pos`, counted from 1.
pub open spec fn line_of(starts: Seq<int>, pos: int) -> int
    decreases starts.len(),
{
    if starts.len() == 0 {
        0
    } else {
        line_of(starts.drop_last(), pos) + if starts.last() <= pos {
            1int
        } else {
            0int
        }
    }
}

/// Where line number `line` ends, its line break (`\n` or `\r\n`) left out.
pub open spec fn line_end_of(bytes: Seq<u8>, line: int) -> int {
    let starts = line_starts(bytes);
    let end = if line < starts.len() {
        starts[line]
    } else {
        bytes.len() as int
    };
    if end > 0 && bytes[end - 1] == 10 {
        if end > 1 && bytes[end - 2] == 13 {
            end - 2
        } else {
            end - 1
        }
    } else {
        end
    }
}

/// The bytes of line number `line`.
pub open spec fn line_content(bytes: Seq<u8>, line: int) -> Seq<u8> {
    bytes.subrange(line_starts(bytes)[line - 1], line_end_of(bytes, line))
}

/// The matches that start on line number `line`, relative to its start.
pub open spec fn spans_on(bytes: Seq<u8>, spans: Seq<(usize, usize)>, line: int) -> Seq<(int, int)>
    decreases spans.len(),
{
    if spans.len() == 0 {
        Seq::empty()
    } else {
        let before = spans_on(bytes, spans.drop_last(), line);
        let (s, e) = spans.last();
        let starts = line_starts(bytes);
        if line_of(starts, s as int) == line {
            before.push((s - starts[line - 1], e - starts[line - 1]))
        } else {
            before
        }
    }
}

/// A match starts on line number `line`.
pub open spec fn is_matched(bytes: Seq<u8>, spans: Seq<(usize, usize)>, line: int) -> bool {
    exists|i: int| 0 <= i < spans.len() && line_of(line_starts(bytes), (#[trigger] spans[i]).0 as int) == line
}

/// How many of the first `n` lines have a match.
pub open spec fn matched_count(bytes: Seq<u8>, spans: Seq<(usize, usize)>, n: nat) -> nat
    decreases n,
{
    if n == 0 {
        0
    } else {
        matched_count(bytes, spans, (n - 1) as nat) + if is_matched(bytes, spans, n as int) {
            1nat
        } else {
            0nat
        }
    }
}

/// Line number `line` is at most `before` lines in front of a matched line or
/// at most `after` lines behind one.
pub open spec fn is_shown(bytes: Seq<u8>, spans: Seq<(usize, usize)>, before: nat, after: nat, line: int) -> bool {
    exists|m: int| #[trigger] is_matched(bytes, spans, m) && m - before <= line <= m + after
}

/// What is printed of line number `line`.
pub open spec fn entry_for(bytes: Seq<u8>, spans: Seq<(usize, usize)>, line: int) -> EntrySpec {
    EntrySpec {
        line,
        content: line_content(bytes, line),
        spans: spans_on(bytes, spans, line),
        is_match: is_matched(bytes, spans, line),
    }
}

/// What is printed where lines are left out.
pub open spec fn gap_marker() -> EntrySpec {
    EntrySpec { line: 0, content: seq![45u8, 45u8], spans: Seq::empty(), is_match: false }
}

/// What is printed of the first `n` lines: each match plus the lines around
/// it, with a marker wherever there is a gap if lines around matches are shown.
pub open spec fn entries_upto(bytes: Seq<u8>, spans: Seq<(usize, usize)>, opts: SearchOptions, n: nat) -> Seq<EntrySpec>
    decreases n,
{
    if n == 0 {
        Seq::empty()
    } else {
        let above = entries_upto(bytes, spans, opts, (n - 1) as nat);
        if is_shown(bytes, spans, opts.before as nat, opts.after as nat, n as int) {
            let gap = opts.has_context() && above.len() > 0 && !is_shown(
                bytes,
                spans,
                opts.before as nat,
                opts.after as nat,
                n - 1,
            );
            (if gap {
                above.push(gap_marker())
            } else {
                above
            }).push(entry_for(bytes, spans, n as int))
        } else {
            above
        }
    }
}

/// What is printed of a file.
pub open spec fn file_entries(bytes: Seq<u8>, spans: Seq<(usize, usize)>, opts: SearchOptions) -> Seq<EntrySpec> {
    entries_upto(bytes, spans, opts, line_starts(bytes).len())
}

/// The result of a file in which `spans` match, `None` where there are none.
pub open spec fn is_result(
    out: Option<FileResult>,
    rel_path: Seq<u8>,
    bytes: Seq<u8>,
    spans: Seq<(usize, usize)>,
    opts: SearchOptions,
) -> bool {
    &&& out is Some <==> spans.len() > 0
    &&& out matches Some(r) ==> {
        &&& r.rel_path@ == rel_path
        &&& r.match_count == matched_count(bytes, spans, line_starts(bytes).len())
        &&& entries_of(r.entries@) == file_entries(bytes, spans, opts)
    }
}

/// The leading sample of a file marks it binary: it is not searched.
pub open spec fn skipped(bytes: Seq<u8>) -> bool {
    binary(leading(bytes, BINARY_SAMPLE as nat))
}

/// What holds of line starts: line 1 starts at 0, they ascend, and in front of
/// each later one there is a newline.
pub proof fn lemma_starts(bytes: Seq<u8>, n: nat)
    requires
        n <= bytes.len(),
    ensures
        1 <= starts_within(bytes, n).len() <= n + 1,
        starts_within(bytes, n)[0] == 0,
        forall|i: int, j: int|
            0 <= i < j < starts_within(bytes, n).len() ==> starts_within(bytes, n)[i] < starts_within(bytes, n)[j],
        forall|i: int|
            0 < i < starts_within(bytes, n).len() ==> 0 < #[trigger] starts_within(bytes, n)[i] <= n && starts_within(
                bytes,
                n,
            )[i] < bytes.len() && bytes[starts_within(bytes, n)[i] - 1] == 10,
    decreases n,
{
    if n > 0 {
        lemma_starts(bytes, (n - 1) as nat);
    }
}

proof fn lemma_line_of(starts: Seq<int>, k: int, pos: int)
    requires
        0 <= k <= starts.len(),
        forall|i: int| 0 <= i < k ==> starts[i] <= pos,
        forall|i: int| k <= i < starts.len() ==> pos < starts[i],
    ensures
        line_of(starts, pos) == k,
    decreases starts.len(),
{
    if starts.len() > 0 {
        let init = starts.drop_last();
        if k == starts.len() {
            lemma_line_of(init, k - 1, pos);
        } else {
            lemma_line_of(init, k, pos);
        }
    }
}

/// A byte offset lies on one of the lines, at or behind its start.
pub proof fn lemma_line_of_range(bytes: Seq<u8>, pos: int)
    requires
        0 <= pos,
    ensures
        1 <= line_of(line_starts(bytes), pos) <= line_starts(bytes).len(),
        line_starts(bytes)[line_of(line_starts(bytes), pos) - 1] <= pos,
{
    lemma_starts(bytes, bytes.len());
    lemma_line_of_split(line_starts(bytes), pos);
}

proof fn lemma_line_of_split(starts: Seq<int>, pos: int)
    requires
        forall|i: int, j: int| 0 <= i < j < starts.len() ==> starts[i] < starts[j],
    ensures
        0 <= line_of(starts, pos) <= starts.len(),
        forall|i: int| 0 <= i < line_of(starts, pos) ==> starts[i] <= pos,
        forall|i: int| line_of(starts, pos) <= i < starts.len() ==> pos < starts[i],
    decreases starts.len(),
{
    if starts.len() > 0 {
        let init = starts.drop_last();
        lemma_line_of_split(init, pos);
        assert forall|i: int| 0 <= i < init.len() implies #[trigger] starts[i] == init[i] by {}
        if starts.last() <= pos {
            assert forall|i: int| 0 <= i < init.len() implies init[i] <= pos by {
                assert(starts[i] < starts[starts.len() - 1]);
            }
            lemma_line_of(init, init.len() as int, pos);
        }
    }
}

/// A line's content lies within the bytes.
pub proof fn lemma_line_bounds(bytes: Seq<u8>, line: int)
    requires
        1 <= line <= line_starts(bytes).len(),
    ensures
        0 <= line_starts(bytes)[line - 1] <= line_end_of(bytes, line) <= bytes.len(),
{
    lemma_starts(bytes, bytes.len());
    let starts = line_starts(bytes);
    if line < starts.len() {
        assert(starts[line - 1] < starts[line]);
    }
    if line > 1 {
        assert(bytes[starts[line - 1] - 1] == 10);
    }
}

/// Offsets as integers.
pub open spec fn offset_ints(offsets: Seq<usize>) -> Seq<int> {
    offsets.map_values(|o: usize| o as int)
}

/// Byte offsets at which each line begins (line 1 starts at 0).
pub fn line_start_offsets(bytes: &[u8]) -> (starts: Vec<usize>)
    ensures
        offset_ints(starts@) == line_starts(bytes@),
{
    let mut starts: Vec<usize> = Vec::new();
    starts.push(0);
    let mut i: usize = 0;
    assert(offset_ints(starts@) =~= starts_within(bytes@, 0));
    while i < bytes.len()
        invariant
            i <= bytes@.len(),
            offset_ints(starts@) == starts_within(bytes@, i as nat),
        decreases bytes@.len() - i,
    {
        let ghost before = offset_ints(starts@);
        if bytes[i] == 10 && i + 1 < bytes.len() {
            starts.push(i + 1);
            assert(offset_ints(starts@) =~= before.push(i + 1));
        }
        i += 1;
    }
    starts
}

/// 1-based line number containing byte offset `pos`.
pub fn line_number(starts: &[usize], pos: usize) -> (line: usize)
    requires
        forall|i: int, j: int| 0 <= i < j < starts@.len() ==> starts@[i] < starts@[j],
    ensures
        line == line_of(offset_ints(starts@), pos as int),
        line <= starts@.len(),
        forall|i: int| 0 <= i < line ==> starts@[i] <= pos,
        forall|i: int| line <= i < starts@.len() ==> pos < starts@[i],
{
    let mut lo: usize = 0;
    let mut hi: usize = starts.len();
    while lo < hi
        invariant
            lo <= hi <= starts@.len(),
            forall|i: int, j: int| 0 <= i < j < starts@.len() ==> starts@[i] < starts@[j],
            forall|i: int| 0 <= i < lo ==> starts@[i] <= pos,
            forall|i: int| hi <= i < starts@.len() ==> pos < starts@[i],
        decreases hi - lo,
    {
        let mid: usize = lo + (hi - lo) / 2;
        if starts[mid] <= pos {
            lo = mid + 1;
        } else {
            hi = mid;
        }
    }
    proof {
        lemma_line_of(offset_ints(starts@), lo as int, pos as int);
    }
    lo
}

/// End byte offset (exclusive) of `line`, excluding any trailing newline.
/// Works for both interior lines (whose end is the start of the next line) and
/// the final line (whose end is the end of the buffer).
pub fn line_end(bytes: &[u8], starts: &[usize], line: usize) -> (end: usize)
    requires
        offset_ints(starts@) == line_starts(bytes@),
        1 <= line <= starts@.len(),
    ensures
        end == line_end_of(bytes@, line as int),
{
    proof {
        lemma_starts(bytes@, bytes@.len());
    }
    let mut end: usize = if line < starts.len() {
        assert(offset_ints(starts@)[line as int] == starts@[line as int]);
        starts[line]
    } else {
        bytes.len()
    };
    if end > 0 && bytes[end - 1] == 10 {
        end -= 1;
        if end > 0 && bytes[end - 1] == 13 {
            end -= 1;
        }
    }
    end
}

proof fn lemma_matched_push(bytes: Seq<u8>, spans: Seq<(usize, usize)>, n: int, line: int)
    requires
        0 <= n < spans.len(),
    ensures
        is_matched(bytes, spans.take(n + 1), line) <==> is_matched(bytes, spans.take(n), line) || line_of(
            line_starts(bytes),
            spans[n].0 as int,
        ) == line,
        spans_on(bytes, spans.take(n + 1), line) == if line_of(line_starts(bytes), spans[n].0 as int) == line {
            spans_on(bytes, spans.take(n), line).push(
                (spans[n].0 - line_starts(bytes)[line - 1], spans[n].1 - line_starts(bytes)[line - 1]),
            )
        } else {
            spans_on(bytes, spans.take(n), line)
        },
{
    let more = spans.take(n + 1);
    let less = spans.take(n);
    assert(more.drop_last() =~= less);
    assert(more[n] == spans[n]);
    assert forall|i: int| 0 <= i < n implies #[trigger] less[i] == more[i] by {}
    assert forall|i: int| 0 <= i < n implies #[trigger] more[i] == less[i] by {}
}

proof fn lemma_unmatched_spans(bytes: Seq<u8>, spans: Seq<(usize, usize)>, line: int)
    requires
        !is_matched(bytes, spans, line),
    ensures
        spans_on(bytes, spans, line) == Seq::<(int, int)>::empty(),
    decreases spans.len(),
{
    if spans.len() > 0 {
        let init = spans.drop_last();
        assert(spans[spans.len() - 1] == spans.last());
        assert forall|i: int| 0 <= i < init.len() implies #[trigger] init[i] == spans[i] by {}
        lemma_unmatched_spans(bytes, init, line);
    }
}

/// Matches by line: line number → byte spans within that line.
type SpansByLine = FxHashMap<usize, Vec<(usize, usize)>>;

/// `map` leads from each of the lines on which one of `spans` starts to the
/// spans on it.
spec fn groups(map: Map<usize, Vec<(usize, usize)>>, bytes: Seq<u8>, spans: Seq<(usize, usize)>) -> bool {
    &&& forall|line: usize| #[trigger] map.contains_key(line) <==> is_matched(bytes, spans, line as int)
    &&& forall|line: usize| #[trigger]
        map.contains_key(line) ==> span_ints(map[line]@) == spans_on(bytes, spans, line as int)
}

/// Group matches by the line they start on.
fn group_spans(bytes: &[u8], starts: &[usize], spans: &[(usize, usize)]) -> (map: SpansByLine)
    requires
        offset_ints(starts@) == line_starts(bytes@),
        spans_within(spans@, bytes@.len()),
    ensures
        groups(map@, bytes@, spans@),
{
    let mut map: SpansByLine = FxHashMap::default();
    let mut n: usize = 0;
    proof {
        lemma_starts(bytes@, bytes@.len());
        assert(spans@.take(0) =~= Seq::empty());
        assert forall|i: int, j: int| 0 <= i < j < starts@.len() implies starts@[i] < starts@[j] by {
            assert(offset_ints(starts@)[i] < offset_ints(starts@)[j]);
        }
    }
    while n < spans.len()
        invariant
            n <= spans@.len(),
            offset_ints(starts@) == line_starts(bytes@),
            spans_within(spans@, bytes@.len()),
            forall|i: int, j: int| 0 <= i < j < starts@.len() ==> starts@[i] < starts@[j],
            groups(map@, bytes@, spans@.take(n as int)),
        decreases spans@.len() - n,
    {
        let (start, end) = spans[n];
        let line = line_number(starts, start);
        proof {
            assert(spans@[n as int].0 <= spans@[n as int].1);
            lemma_line_of_range(bytes@, start as int);
            assert(offset_ints(starts@)[line - 1] == starts@[line - 1]);
        }
        let lstart = starts[line - 1];
        let ghost before = map@;
        let mut list = match fx::map_remove(&mut map, &line) {
            Some(list) => list,
            None => Vec::new(),
        };
        proof {
            lemma_matched_push(bytes@, spans@, n as int, line as int);
            if !before.contains_key(line) {
                lemma_unmatched_spans(bytes@, spans@.take(n as int), line as int);
            }
            assert(span_ints(list@) =~= spans_on(bytes@, spans@.take(n as int), line as int));
        }
        let ghost old_list = span_ints(list@);
        list.push((start - lstart, end - lstart));
        assert(span_ints(list@) =~= old_list.push((start - lstart, end - lstart)));
        fx::map_insert(&mut map, line, list);
        proof {
            assert forall|l: usize| #[trigger] map@.contains_key(l) == is_matched(
                bytes@,
                spans@.take(n + 1),
                l as int,
            ) by {
                lemma_matched_push(bytes@, spans@, n as int, l as int);
                assert(l != line ==> map@.contains_key(l) == before.contains_key(l));
            }
            assert forall|l: usize| #[trigger] map@.contains_key(l) implies span_ints(map@[l]@) == spans_on(
                bytes@,
                spans@.take(n + 1),
                l as int,
            ) by {
                lemma_matched_push(bytes@, spans@, n as int, l as int);
                if l != line {
                    assert(before.contains_key(l));
                    assert(map@[l] == before[l]);
                }
            }
        }
        n += 1;
    }
    assert(spans@.take(n as int) =~= spans@);
    map
}

/// The numbers of the lines with a match, ascending.
spec fn lists_matched(lines: Seq<usize>, bytes: Seq<u8>, spans: Seq<(usize, usize)>, n: int) -> bool {
    &&& forall|i: int, j: int| 0 <= i < j < lines.len() ==> lines[i] < lines[j]
    &&& forall|i: int| 0 <= i < lines.len() ==> 1 <= #[trigger] lines[i] <= n && is_matched(bytes, spans, lines[i] as int)
    &&& forall|l: int| 1 <= l <= n && #[trigger] is_matched(bytes, spans, l) ==> exists|i: int|
        0 <= i < lines.len() && #[trigger] lines[i] == l
}

/// The lines with a match, ascending.
fn matched_lines(map: &SpansByLine, total: usize, Ghost(bytes): Ghost<Seq<u8>>, Ghost(spans): Ghost<
    Seq<(usize, usize)>,
>) -> (lines: Vec<usize>)
    requires
        groups(map@, bytes, spans),
    ensures
        lists_matched(lines@, bytes, spans, total as int),
        lines@.len() == matched_count(bytes, spans, total as nat),
{
    let mut lines: Vec<usize> = Vec::new();
    let mut n: usize = 0;
    while n < total
        invariant
            n <= total,
            groups(map@, bytes, spans),
            lists_matched(lines@, bytes, spans, n as int),
            lines@.len() == matched_count(bytes, spans, n as nat),
        decreases total - n,
    {
        n += 1;
        let ghost before = lines@;
        let hit = fx::map_get(map, &n).is_some();
        if hit {
            lines.push(n);
        }
        proof {
            assert forall|l: int| 1 <= l <= n && #[trigger] is_matched(bytes, spans, l) implies exists|i: int|
                0 <= i < lines@.len() && #[trigger] lines@[i] == l by {
                if l < n {
                    let i = choose|i: int| 0 <= i < before.len() && #[trigger] before[i] == l;
                    assert(lines@[i] == l);
                } else {
                    assert(lines@[before.len() as int] == l);
                }
            }
        }
    }
    lines
}

/// A copy of a list of spans.
fn copy_spans(spans: &Vec<(usize, usize)>) -> (out: Vec<(usize, usize)>)
    ensures
        out@ == spans@,
{
    let mut out: Vec<(usize, usize)> = Vec::with_capacity(spans.len());
    let mut i: usize = 0;
    while i < spans.len()
        invariant
            i <= spans@.len(),
            out@ =~= spans@.take(i as int),
        decreases spans@.len() - i,
    {
        out.push(spans[i]);
        i += 1;
    }
    assert(out@ =~= spans@);
    out
}

/// What to print of line number `line`.
fn make_entry(
    bytes: &[u8],
    starts: &[usize],
    map: &SpansByLine,
    line: usize,
    Ghost(spans): Ghost<Seq<(usize, usize)>>,
) -> (entry: PrintEntry)
    requires
        offset_ints(starts@) == line_starts(bytes@),
        groups(map@, bytes@, spans),
        1 <= line <= starts@.len(),
    ensures
        entry@ == entry_for(bytes@, spans, line as int),
{
    proof {
        lemma_line_bounds(bytes@, line as int);
        assert(offset_ints(starts@)[line - 1] == starts@[line - 1]);
    }
    let end = line_end(bytes, starts, line);
    let content = copy_bytes(slice_subrange(bytes, starts[line - 1], end));
    let (list, is_match): (Vec<(usize, usize)>, bool) = match fx::map_get(map, &line) {
        Some(list) => {
            (copy_spans(list), true)
        },
        None => {
            proof {
                lemma_unmatched_spans(bytes@, spans, line as int);
            }
            (Vec::new(), false)
        },
    };
    let entry = PrintEntry { line, content, spans: list, is_match };
    assert(entry@.spans =~= spans_on(bytes@, spans, line as int));
    entry
}

/// Emit the lines to print: each match plus `before`/`after` surrounding
/// lines, with a separator marker wherever there is a gap.
fn build_entries(
    bytes: &[u8],
    starts: &[usize],
    map: &SpansByLine,
    lines: &[usize],
    opts: &SearchOptions,
    Ghost(spans): Ghost<Seq<(usize, usize)>>,
) -> (entries: Vec<PrintEntry>)
    requires
        offset_ints(starts@) == line_starts(bytes@),
        groups(map@, bytes@, spans),
        lists_matched(lines@, bytes@, spans, starts@.len() as int),
        forall|l: int| #[trigger] is_matched(bytes@, spans, l) ==> 1 <= l <= starts@.len(),
    ensures
        entries_of(entries@) == file_entries(bytes@, spans, *opts),
{
    let context = opts.wants_context();
    let mut entries: Vec<PrintEntry> = Vec::new();
    let mut above = false;
    let mut j: usize = 0;
    let mut n: usize = 0;
    assert(entries_of(entries@) =~= Seq::empty());
    while n < starts.len()
        invariant
            n <= starts@.len(),
            j <= lines@.len(),
            offset_ints(starts@) == line_starts(bytes@),
            groups(map@, bytes@, spans),
            lists_matched(lines@, bytes@, spans, starts@.len() as int),
            forall|l: int| #[trigger] is_matched(bytes@, spans, l) ==> 1 <= l <= starts@.len(),
            context == opts.has_context(),
            forall|i: int| 0 <= i < j ==> lines@[i] + opts.after < n + 1,
            n > 0 ==> above == is_shown(bytes@, spans, opts.before as nat, opts.after as nat, n as int),
            n == 0 ==> entries@.len() == 0,
            entries_of(entries@) == entries_upto(bytes@, spans, *opts, n as nat),
        decreases starts@.len() - n,
    {
        n += 1;
        // Skip the matches too far above to reach this line.
        while j < lines.len() && lines[j] < n && n - lines[j] > opts.after
            invariant
                j <= lines@.len(),
                forall|i: int| 0 <= i < j ==> lines@[i] + opts.after < n,
            decreases lines@.len() - j,
        {
            j += 1;
        }
        let shown = j < lines.len() && (lines[j] <= n || lines[j] - n <= opts.before);
        proof {
            let (b, a) = (opts.before as nat, opts.after as nat);
            if shown {
                assert(is_matched(bytes@, spans, lines@[j as int] as int));
                assert(is_shown(bytes@, spans, b, a, n as int));
            } else if is_shown(bytes@, spans, b, a, n as int) {
                let m = choose|m: int| #[trigger] is_matched(bytes@, spans, m) && m - b <= n <= m + a;
                let i = choose|i: int| 0 <= i < lines@.len() && #[trigger] lines@[i] == m;
                assert(i >= j);
                assert(j < lines@.len());
                assert(lines@[j as int] <= lines@[i]);
            }
        }
        let ghost done = entries_of(entries@);
        if shown {
            if context && entries.len() > 0 && !above {
                let mut content: Vec<u8> = Vec::new();
                content.push(45);
                content.push(45);
                let marker = PrintEntry { line: 0, content, spans: Vec::new(), is_match: false };
                entries.push(marker);
                assert(marker@ =~= gap_marker());
                assert(entries_of(entries@) =~= done.push(gap_marker()));
            }
            let ghost with_gap = entries_of(entries@);
            let entry = make_entry(bytes, starts, map, n, Ghost(spans));
            entries.push(entry);
            assert(entries_of(entries@) =~= with_gap.push(entry_for(bytes@, spans, n as int)));
        }
        assert(entries_of(entries@).len() == entries@.len());
        above = shown;
    }
    entries
}

/// The result of a file given the spans at which it matches; `None` if there
/// are none.
pub fn matched_file(rel_path: &[u8], bytes: &[u8], spans: &[(usize, usize)], opts: &SearchOptions) -> (out: Option<
    FileResult,
>)
    requires
        spans_within(spans@, bytes@.len()),
    ensures
        is_result(out, rel_path@, bytes@, spans@, *opts),
{
    if spans.len() == 0 {
        return None;
    }
    let starts = line_start_offsets(bytes);
    let map = group_spans(bytes, &starts, spans);
    let lines = matched_lines(&map, starts.len(), Ghost(bytes@), Ghost(spans@));
    proof {
        assert(starts@.len() == offset_ints(starts@).len());
        assert forall|l: int| #[trigger] is_matched(bytes@, spans@, l) implies 1 <= l <= starts@.len() by {
            let i = choose|i: int|
                0 <= i < spans@.len() && line_of(line_starts(bytes@), (#[trigger] spans@[i]).0 as int) == l;
            lemma_line_of_range(bytes@, spans@[i].0 as int);
        }
    }
    let match_count = lines.len();
    let entries = build_entries(bytes, &starts, &map, &lines, opts, Ghost(spans@));
    Some(FileResult { rel_path: copy_bytes(rel_path), match_count, entries })
}

/// A pattern matches in a file that is searched.
pub open spec fn is_hit(pattern: Seq<char>, bytes: Seq<u8>) -> bool {
    !skipped(bytes) && match_spans(pattern, bytes).len() > 0
}

/// A file that the matcher searches was indexed under its trigrams: its sample
/// covers that of the index.
pub proof fn searched_files_are_indexed(bytes: Seq<u8>)
    requires
        !skipped(bytes),
    ensures
        content_trigrams(bytes) == folded_set(bytes),
{
    let sample = leading(bytes, INDEX_SAMPLE as nat);
    if binary(sample) {
        let i = choose|i: int| 0 <= i < sample.len() && sample[i] == 0;
        assert(leading(bytes, BINARY_SAMPLE as nat)[i] == 0);
    }
}

/// The trigrams of a file in which a pattern matches satisfy the pattern's
/// query.
pub proof fn hits_satisfy_the_query(pattern: Seq<char>, bytes: Seq<u8>)
    requires
        follows_tree(pattern),
        is_hit(pattern, bytes),
    ensures
        pattern_query(pattern).satisfied(content_trigrams(bytes)),
{
    searched_files_are_indexed(bytes);
    if let Some(expr) = parsed(pattern) {
        let span = match_spans(pattern, bytes)[0];
        assert(spans_within(match_spans(pattern, bytes), bytes.len()));
        assert(expr.matches(span_bytes(bytes, span)));
        query_is_sound(expr, bytes, span.0 as int, span.1 as int);
        folding_only_adds(bytes);
        satisfaction_is_monotone(query_of(expr), trigram_set(bytes), folded_set(bytes));
    }
}

/// Verify one file against `regex`. Binary files never match.
pub fn match_file(rel_path: &[u8], bytes: &[u8], regex: &Regex, opts: &SearchOptions) -> (out: Option<FileResult>)
    ensures
        out is Some <==> is_hit(source_of(*regex), bytes@),
        out is Some ==> is_result(out, rel_path@, bytes@, match_spans(source_of(*regex), bytes@), *opts),
{
    if starts_binary(bytes, BINARY_SAMPLE) {
        return None;
    }
    let spans = find_spans(regex, bytes);
    matched_file(rel_path, bytes, &spans, opts)
}

/// What a `--color` value asks for; `terminal` says whether output goes to one.
pub open spec fn color_for(value: Seq<char>, terminal: bool) -> ColorWhen {
    if value == "always"@ || value == "yes"@ || value == "force"@ {
        ColorWhen::Always
    } else if value == "never"@ || value == "no"@ {
        ColorWhen::Never
    } else if terminal {
        ColorWhen::Always
    } else {
        ColorWhen::Never
    }
}

/// Resolve a `--color` value, honouring the terminal for `auto`.
pub fn resolve_color(value: &str, terminal: bool) -> (out: ColorWhen)
    ensures
        out == color_for(value@, terminal),
{
    if same_text(value, "always") || same_text(value, "yes") || same_text(value, "force") {
        ColorWhen::Always
    } else if same_text(value, "never") || same_text(value, "no") {
        ColorWhen::Never
    } else if terminal {
        ColorWhen::Always
    } else {
        ColorWhen::Never
    }
}

/// The ANSI code that makes text red.
pub open spec fn color_red() -> Seq<u8> {
    seq![27u8, 91u8, 51u8, 49u8, 109u8]
}

/// The ANSI code that ends coloured text.
pub open spec fn color_reset() -> Seq<u8> {
    seq![27u8, 91u8, 48u8, 109u8]
}

/// `content` from `from` on, with the spans made red. A span that starts before
/// `from`, runs backwards or ends behind the content is left as it is.
pub open spec fn colored_from(content: Seq<u8>, spans: Seq<(int, int)>, from: int) -> Seq<u8>
    decreases spans.len(),
{
    if spans.len() == 0 {
        content.skip(from)
    } else {
        let (s, e) = spans[0];
        let rest = spans.drop_first();
        if s < from || e > content.len() || s > e {
            colored_from(content, rest, from)
        } else {
            content.subrange(from, s) + color_red() + content.subrange(s, e) + color_reset() + colored_from(
                content,
                rest,
                e,
            )
        }
    }
}

/// `content` with the spans made red.
pub fn colored(content: &[u8], spans: &[(usize, usize)]) -> (out: Vec<u8>)
    ensures
        out@ == colored_from(content@, span_ints(spans@), 0),
{
    let mut out: Vec<u8> = Vec::new();
    let mut from: usize = 0;
    let mut i: usize = 0;
    let ghost all = span_ints(spans@);
    assert(all.skip(0) =~= all);
    while i < spans.len()
        invariant
            i <= spans@.len(),
            from <= content@.len(),
            all == span_ints(spans@),
            out@ + colored_from(content@, all.skip(i as int), from as int) == colored_from(content@, all, 0),
        decreases spans@.len() - i,
    {
        let (s, e) = spans[i];
        proof {
            assert(all.skip(i as int)[0] == all[i as int]);
            assert(all.skip(i as int).drop_first() =~= all.skip(i + 1));
        }
        if !(s < from || e > content.len() || s > e) {
            let ghost before = out@;
            out.extend_from_slice(slice_subrange(content, from, s));
            out.push(27);
            out.push(91);
            out.push(51);
            out.push(49);
            out.push(109);
            out.extend_from_slice(slice_subrange(content, s, e));
            out.push(27);
            out.push(91);
            out.push(48);
            out.push(109);
            proof {
                let tail = colored_from(content@, all.skip(i + 1), e as int);
                assert(out@ =~= before + (content@.subrange(from as int, s as int) + color_red() + content@.subrange(
                    s as int,
                    e as int,
                ) + color_reset()));
                assert(out@ + tail =~= before + (content@.subrange(from as int, s as int) + color_red()
                    + content@.subrange(s as int, e as int) + color_reset() + tail));
            }
            from = e;
        }
        i += 1;
    }
    let ghost before = out@;
    out.extend_from_slice(slice_subrange(content, from, content.len()));
    assert(content@.subrange(from as int, content@.len() as int) =~= content@.skip(from as int));
    assert(all.skip(i as int) =~= Seq::empty());
    assert(out@ =~= before + content@.skip(from as int));
    out
}

/// The mathematical form of a [`FileResult`].
#[verifier::ext_equal]
pub struct FileSpec {
    pub rel_path: Seq<u8>,
    pub match_count: int,
    pub entries: Seq<EntrySpec>,
}

impl View for FileResult {
    type V = FileSpec;

    open spec fn view(&self) -> FileSpec {
        FileSpec {
            rel_path: self.rel_path@,
            match_count: self.match_count as int,
            entries: entries_of(self.entries@),
        }
    }
}

/// The mathematical forms of several results.
pub open spec fn results_of(results: Seq<FileResult>) -> Seq<FileSpec> {
    results.map_values(|r: FileResult| r@)
}

/// An entry is shown as a line around a match.
pub open spec fn is_context(entry: EntrySpec, opts: SearchOptions) -> bool {
    opts.has_context() && !entry.is_match
}

/// The line printed for an entry of the file shown as `path`:
/// `path:line:content` for a match, with the matches coloured if asked for,
/// `path-line-content` for a line around one, and the marker alone for a gap.
pub open spec fn entry_line(path: Seq<u8>, entry: EntrySpec, opts: SearchOptions) -> Seq<u8> {
    if is_context(entry, opts) {
        if entry.line == 0 {
            lossy(entry.content).push(10)
        } else {
            (path.push(45) + decimal(entry.line as nat)).push(45) + lossy(entry.content).push(10)
        }
    } else {
        let content = if opts.color == ColorWhen::Always && entry.spans.len() > 0 {
            colored_from(entry.content, entry.spans, 0)
        } else {
            entry.content
        };
        (path.push(58) + decimal(entry.line as nat)).push(58) + lossy(content).push(10)
    }
}

/// The lines printed for the entries of the file shown as `path`.
pub open spec fn entry_lines(path: Seq<u8>, entries: Seq<EntrySpec>, opts: SearchOptions) -> Seq<u8>
    decreases entries.len(),
{
    if entries.len() == 0 {
        Seq::empty()
    } else {
        entry_lines(path, entries.drop_last(), opts) + entry_line(path, entries.last(), opts)
    }
}

/// How many of the entries are printed as matches.
pub open spec fn match_lines(entries: Seq<EntrySpec>, opts: SearchOptions) -> nat
    decreases entries.len(),
{
    if entries.len() == 0 {
        0
    } else {
        match_lines(entries.drop_last(), opts) + if is_context(entries.last(), opts) {
            0nat
        } else {
            1nat
        }
    }
}

/// What is printed for a file; `first` says whether it is the first one.
pub open spec fn file_output(file: FileSpec, base: Seq<u8>, opts: SearchOptions, first: bool) -> Seq<u8> {
    let path = lossy(joined(base, file.rel_path));
    match opts.mode {
        SearchMode::FilesWithMatches => path.push(10),
        SearchMode::Count => path.push(58) + decimal(file.match_count as nat).push(10),
        SearchMode::Normal => (if opts.has_context() && !first {
            seq![10u8]
        } else {
            Seq::empty()
        }) + entry_lines(path, file.entries, opts),
    }
}

/// What is printed for several files.
pub open spec fn output_of(results: Seq<FileSpec>, base: Seq<u8>, opts: SearchOptions) -> Seq<u8>
    decreases results.len(),
{
    if results.len() == 0 {
        Seq::empty()
    } else {
        output_of(results.drop_last(), base, opts) + file_output(results.last(), base, opts, results.len() == 1)
    }
}

/// How many matched lines are printed for several files.
pub open spec fn printed_of(results: Seq<FileSpec>, opts: SearchOptions) -> nat
    decreases results.len(),
{
    if results.len() == 0 {
        0
    } else {
        printed_of(results.drop_last(), opts) + if opts.mode == SearchMode::Normal {
            match_lines(results.last().entries, opts)
        } else {
            0
        }
    }
}

/// Append the line of one entry; the result says whether it is a match.
fn push_entry(out: &mut Vec<u8>, path: &[u8], entry: &PrintEntry, opts: &SearchOptions) -> (matched: bool)
    ensures
        final(out)@ == old(out)@ + entry_line(path@, entry@, *opts),
        matched == !is_context(entry@, *opts),
        final(out)@.len() > old(out)@.len(),
{
    let context = opts.wants_context() && !entry.is_match;
    if context && entry.line == 0 {
        push_lossy(out, &entry.content);
        out.push(10);
        assert(out@ =~= old(out)@ + entry_line(path@, entry@, *opts));
        return false;
    }
    let mark: u8 = if context {
        45
    } else {
        58
    };
    out.extend_from_slice(path);
    out.push(mark);
    push_decimal(out, entry.line as u64);
    out.push(mark);
    assert(span_ints(entry.spans@).len() == entry.spans@.len());
    if !context && opts.color == ColorWhen::Always && entry.spans.len() > 0 {
        let content = colored(&entry.content, &entry.spans);
        push_lossy(out, &content);
    } else {
        push_lossy(out, &entry.content);
    }
    out.push(10);
    assert(out@ =~= old(out)@ + entry_line(path@, entry@, *opts));
    !context
}

/// Append what is printed for one file; the result is the number of matched
/// lines printed.
fn push_file(out: &mut Vec<u8>, file: &FileResult, base: &[u8], opts: &SearchOptions, first: bool) -> (printed: usize)
    ensures
        final(out)@ == old(out)@ + file_output(file@, base@, *opts, first),
        printed == if opts.mode == SearchMode::Normal {
            match_lines(file@.entries, *opts)
        } else {
            0
        },
        final(out)@.len() >= old(out)@.len() + printed,
{
    let mut path: Vec<u8> = Vec::new();
    push_lossy(&mut path, &join(base, &file.rel_path));
    assert(path@ =~= lossy(joined(base@, file.rel_path@)));
    match opts.mode {
        SearchMode::FilesWithMatches => {
            out.append(&mut path);
            out.push(10);
            assert(out@ =~= old(out)@ + file_output(file@, base@, *opts, first));
            0
        },
        SearchMode::Count => {
            out.append(&mut path);
            out.push(58);
            push_decimal(out, file.match_count as u64);
            out.push(10);
            assert(out@ =~= old(out)@ + file_output(file@, base@, *opts, first));
            0
        },
        SearchMode::Normal => {
            if opts.wants_context() && !first {
                out.push(10);
            }
            let ghost head = out@;
            let ghost all = entries_of(file.entries@);
            let mut printed: usize = 0;
            let mut i: usize = 0;
            assert(all.take(0) =~= Seq::empty());
            assert(head + entry_lines(path@, all.take(0), *opts) =~= head);
            while i < file.entries.len()
                invariant
                    i <= file.entries@.len(),
                    all == entries_of(file.entries@),
                    out@ == head + entry_lines(path@, all.take(i as int), *opts),
                    printed == match_lines(all.take(i as int), *opts),
                    out@.len() >= head.len() + printed,
                decreases file.entries@.len() - i,
            {
                let ghost before = out@;
                let matched = push_entry(out, &path, &file.entries[i], opts);
                proof {
                    let e = all[i as int];
                    assert(all.take(i + 1).drop_last() =~= all.take(i as int));
                    assert(all.take(i + 1).last() == e);
                    assert(out@ =~= head + (entry_lines(path@, all.take(i as int), *opts) + entry_line(path@, e, *opts)));
                }
                assert(out.len() == out@.len());
                if matched {
                    printed += 1;
                }
                i += 1;
            }
            assert(all.take(i as int) =~= all);
            assert(out@ =~= old(out)@ + file_output(file@, base@, *opts, first));
            printed
        },
    }
}

/// The results in `path:line:content` form (mode-dependent), with optional ANSI
/// colour on matched substrings, and the number of matched lines printed across
/// all files.
pub fn write_results(results: &[FileResult], base: &[u8], opts: &SearchOptions) -> (out: (Vec<u8>, usize))
    ensures
        out.0@ == output_of(results_of(results@), base@, *opts),
        out.1 == printed_of(results_of(results@), *opts),
{
    let mut out: Vec<u8> = Vec::new();
    let mut printed: usize = 0;
    let mut i: usize = 0;
    let ghost all = results_of(results@);
    assert(all.take(0) =~= Seq::empty());
    while i < results.len()
        invariant
            i <= results@.len(),
            all == results_of(results@),
            out@ == output_of(all.take(i as int), base@, *opts),
            printed == printed_of(all.take(i as int), *opts),
            printed <= out@.len(),
        decreases results@.len() - i,
    {
        let n = push_file(&mut out, &results[i], base, opts, i == 0);
        proof {
            assert(all.take(i + 1).drop_last() =~= all.take(i as int));
            assert(all.take(i + 1).last() == all[i as int]);
        }
        assert(out.len() == out@.len());
        printed += n;
        i += 1;
    }
    assert(all.take(i as int) =~= all);
    (out, printed)
}

/// A file to search: its path and, if it could be read, its content.
#[derive(Debug)]
pub struct SourceFile {
    pub rel_path: Vec<u8>,
    pub bytes: Option<Vec<u8>>,
}

/// The result of a file in which `pattern` matches.
pub open spec fn hit_of(rel_path: Seq<u8>, bytes: Seq<u8>, pattern: Seq<char>, opts: SearchOptions) -> FileSpec {
    let spans = match_spans(pattern, bytes);
    FileSpec {
        rel_path,
        match_count: matched_count(bytes, spans, line_starts(bytes).len()) as int,
        entries: file_entries(bytes, spans, opts),
    }
}

/// The results of the files in which `pattern` matches, in order.
pub open spec fn hits_of(files: Seq<SourceFile>, pattern: Seq<char>, opts: SearchOptions) -> Seq<FileSpec>
    decreases files.len(),
{
    if files.len() == 0 {
        Seq::empty()
    } else {
        let init = hits_of(files.drop_last(), pattern, opts);
        match files.last().bytes {
            Some(bytes) => if is_hit(pattern, bytes@) {
                init.push(hit_of(files.last().rel_path@, bytes@, pattern, opts))
            } else {
                init
            },
            None => init,
        }
    }
}

/// Verify files against `regex`. Files that could not be read never match.
pub fn search_files(files: &[SourceFile], regex: &Regex, opts: &SearchOptions) -> (results: Vec<FileResult>)
    ensures
        results_of(results@) == hits_of(files@, source_of(*regex), *opts),
{
    let mut results: Vec<FileResult> = Vec::new();
    let mut i: usize = 0;
    assert(results_of(results@) =~= Seq::empty());
    while i < files.len()
        invariant
            i <= files@.len(),
            results_of(results@) == hits_of(files@.take(i as int), source_of(*regex), *opts),
        decreases files@.len() - i,
    {
        let ghost before = results_of(results@);
        assert(files@.take(i + 1).drop_last() =~= files@.take(i as int));
        assert(files@.take(i + 1).last() == files@[i as int]);
        if let Some(bytes) = &files[i].bytes {
            if let Some(result) = match_file(&files[i].rel_path, bytes, regex, opts) {
                results.push(result);
                assert(results_of(results@) =~= before.push(result@));
            }
        }
        i += 1;
    }
    assert(files@.take(i as int) =~= files@);
    results
}

/// The offsets among the first `n` at which a line begins are all found.
proof fn lemma_starts_complete(bytes: Seq<u8>, n: nat, p: int)
    requires
        n <= bytes.len(),
        0 < p <= n,
        p < bytes.len(),
        bytes[p - 1] == 10,
    ensures
        starts_within(bytes, n).contains(p),
    decreases n,
{
    let before = starts_within(bytes, (n - 1) as nat);
    let now = starts_within(bytes, n);
    if p == n {
        assert(now[before.len() as int] == p);
    } else {
        lemma_starts_complete(bytes, (n - 1) as nat, p);
        let i = choose|i: int| 0 <= i < before.len() && before[i] == p;
        assert(now[i] == p);
    }
}

/// A line starts at the first byte and behind every newline that is not the last
/// byte, and nowhere else.
pub proof fn lines_start_behind_newlines(bytes: Seq<u8>, p: int)
    ensures
        line_starts(bytes).contains(p) <==> p == 0 || (0 < p < bytes.len() && bytes[p - 1] == 10),
        forall|i: int, j: int| 0 <= i < j < line_starts(bytes).len() ==> line_starts(bytes)[i] < line_starts(bytes)[j],
{
    lemma_starts(bytes, bytes.len());
    let starts = line_starts(bytes);
    if starts.contains(p) {
        let i = choose|i: int| 0 <= i < starts.len() && starts[i] == p;
    }
    if p == 0 {
        assert(starts[0] == 0);
    } else if 0 < p < bytes.len() && bytes[p - 1] == 10 {
        lemma_starts_complete(bytes, bytes.len(), p);
    }
}

/// How many newlines there are.
pub open spec fn newlines(bytes: Seq<u8>) -> nat {
    bytes.filter(|b: u8| b == 10).len()
}

proof fn lemma_newlines_push(bytes: Seq<u8>, b: u8)
    ensures
        newlines(bytes.push(b)) == newlines(bytes) + if b == 10 {
            1nat
        } else {
            0nat
        },
{
    reveal(Seq::filter);
    assert(bytes.push(b).drop_last() =~= bytes);
}

proof fn lemma_starts_count(bytes: Seq<u8>, n: nat)
    requires
        n < bytes.len(),
    ensures
        starts_within(bytes, n).len() == 1 + newlines(bytes.take(n as int)),
    decreases n,
{
    if n == 0 {
        reveal(Seq::filter);
        assert(bytes.take(0) =~= Seq::empty());
    } else {
        lemma_starts_count(bytes, (n - 1) as nat);
        assert(bytes.take(n as int) =~= bytes.take(n - 1).push(bytes[n - 1]));
        lemma_newlines_push(bytes.take(n - 1), bytes[n - 1]);
    }
}

proof fn lemma_starts_prefix(bytes: Seq<u8>, n: nat, m: nat)
    requires
        n <= m <= bytes.len(),
    ensures
        starts_within(bytes, n).len() <= starts_within(bytes, m).len(),
        forall|i: int| 0 <= i < starts_within(bytes, n).len() ==> starts_within(bytes, m)[i] == starts_within(bytes, n)[i],
        forall|i: int| starts_within(bytes, n).len() <= i < starts_within(bytes, m).len() ==> starts_within(bytes, m)[i] > n,
    decreases m,
{
    if n < m {
        lemma_starts_prefix(bytes, n, (m - 1) as nat);
    }
}

/// The number of the line that holds a byte is one more than the newlines in
/// front of it.
pub proof fn line_numbers_count_newlines(bytes: Seq<u8>, pos: int)
    requires
        0 <= pos < bytes.len(),
    ensures
        line_of(line_starts(bytes), pos) == 1 + newlines(bytes.take(pos)),
{
    let k = starts_within(bytes, pos as nat).len() as int;
    lemma_starts(bytes, bytes.len());
    lemma_starts(bytes, pos as nat);
    lemma_starts_prefix(bytes, pos as nat, bytes.len());
    lemma_starts_count(bytes, pos as nat);
    let starts = line_starts(bytes);
    assert forall|i: int| 0 <= i < k implies starts[i] <= pos by {
        assert(starts[i] == starts_within(bytes, pos as nat)[i]);
        if i > 0 {
            assert(0 < starts_within(bytes, pos as nat)[i] <= pos);
        }
    }
    lemma_line_of(starts, k, pos);
}

/// Where line number `line` gives way to the next one, or to the end.
pub open spec fn line_limit(bytes: Seq<u8>, line: int) -> int {
    if line < line_starts(bytes).len() {
        line_starts(bytes)[line]
    } else {
        bytes.len() as int
    }
}

/// The bytes from the start of a line to that of the next are its content, which
/// holds no newline, and its line break: `\n` or `\r\n`, or none at the end. A
/// carriage return in front of the newline belongs to the break.
pub proof fn lines_are_content_and_break(bytes: Seq<u8>, line: int)
    requires
        1 <= line <= line_starts(bytes).len(),
    ensures
        !line_content(bytes, line).contains(10),
        ({
            let whole = bytes.subrange(line_starts(bytes)[line - 1], line_limit(bytes, line));
            let content = line_content(bytes, line);
            ||| whole == content && line == line_starts(bytes).len()
            ||| whole == content + seq![13u8, 10u8]
            ||| whole == content + seq![10u8] && (content.len() > 0 ==> content.last() != 13)
        }),
{
    lemma_starts(bytes, bytes.len());
    lemma_line_bounds(bytes, line);
    let starts = line_starts(bytes);
    let (a, z) = (starts[line - 1], line_limit(bytes, line));
    let end = line_end_of(bytes, line);
    let content = line_content(bytes, line);
    let whole = bytes.subrange(a, z);
    if line < starts.len() {
        assert(starts[line - 1] < starts[line]);
        assert(bytes[starts[line] - 1] == 10);
    }
    if line > 1 {
        assert(bytes[a - 1] == 10);
    }
    assert forall|i: int| 0 <= i < content.len() implies content[i] != 10 by {
        let p = a + i + 1;
        if content[i] == 10 {
            assert(bytes[p - 1] == 10);
            assert(p <= z);
            if p < z {
                lemma_starts_complete(bytes, bytes.len(), p);
                let j = choose|j: int| 0 <= j < starts.len() && starts[j] == p;
                if j < line {
                    assert(starts[j] <= starts[line - 1]);
                } else {
                    assert(starts[line] <= starts[j]);
                }
            }
        }
    }
    if end == z {
        assert(whole =~= content);
    } else if end == z - 1 {
        assert(whole =~= content + seq![10u8]);
    } else {
        assert(whole =~= content + seq![13u8, 10u8]);
    }
}

/// A byte offset lies on line number `line`: at or behind its start and, unless
/// it is the last line, before the start of the next.
pub open spec fn lies_on(bytes: Seq<u8>, pos: int, line: int) -> bool {
    let starts = line_starts(bytes);
    &&& 1 <= line <= starts.len()
    &&& starts[line - 1] <= pos
    &&& line < starts.len() ==> pos < starts[line]
}

proof fn lemma_lies_on(bytes: Seq<u8>, pos: int, line: int)
    requires
        0 <= pos,
    ensures
        lies_on(bytes, pos, line) <==> line_of(line_starts(bytes), pos) == line,
{
    lemma_starts(bytes, bytes.len());
    lemma_line_of_split(line_starts(bytes), pos);
    let starts = line_starts(bytes);
    let k = line_of(starts, pos);
    if lies_on(bytes, pos, line) {
        if k < line {
            assert(pos < starts[line - 1]);
        }
        if line < k {
            assert(starts[line] <= pos);
        }
    }
    if k == line {
        lemma_line_of_range(bytes, pos);
    }
}

/// A line has a match if and only if one starts on it, and the matches kept for
/// it are those that start on it, in order, counted from the start of the line.
pub proof fn matches_are_kept_by_line(bytes: Seq<u8>, spans: Seq<(usize, usize)>, line: int)
    ensures
        is_matched(bytes, spans, line) <==> exists|i: int|
            0 <= i < spans.len() && lies_on(bytes, (#[trigger] spans[i]).0 as int, line),
        1 <= line <= line_starts(bytes).len() ==> spans_on(bytes, spans, line) == spans.filter(
            |s: (usize, usize)| lies_on(bytes, s.0 as int, line),
        ).map_values(|s: (usize, usize)| (s.0 - line_starts(bytes)[line - 1], s.1 - line_starts(bytes)[line - 1])),
    decreases spans.len(),
{
    assert forall|i: int| 0 <= i < spans.len() implies lies_on(bytes, (#[trigger] spans[i]).0 as int, line) == (line_of(
        line_starts(bytes),
        spans[i].0 as int,
    ) == line) by {
        lemma_lies_on(bytes, spans[i].0 as int, line);
    }
    if 1 <= line <= line_starts(bytes).len() {
        reveal(Seq::filter);
        let on = |s: (usize, usize)| lies_on(bytes, s.0 as int, line);
        let rel = |s: (usize, usize)| (s.0 - line_starts(bytes)[line - 1], s.1 - line_starts(bytes)[line - 1]);
        if spans.len() == 0 {
            assert(spans.filter(on).map_values(rel) =~= spans_on(bytes, spans, line));
        } else {
            let init = spans.drop_last();
            matches_are_kept_by_line(bytes, init, line);
            lemma_lies_on(bytes, spans.last().0 as int, line);
            assert(spans.filter(on).map_values(rel) =~= spans_on(bytes, spans, line));
        }
    }
}

/// What is printed of the first `n` lines, seen from the outside: `shown` says
/// which lines are printed and `entry` what of each.
spec fn well_placed(
    shown: spec_fn(int) -> bool,
    entry: spec_fn(int) -> EntrySpec,
    context: bool,
    out: Seq<EntrySpec>,
    n: int,
) -> bool {
    &&& forall|i: int|
        0 <= i < out.len() && (#[trigger] out[i]).line == 0 ==> context && 0 < i < out.len() - 1 && out[i] == gap_marker()
            && 0 < out[i - 1].line && out[i - 1].line + 1 < out[i + 1].line
    &&& forall|i: int|
        0 <= i < out.len() && (#[trigger] out[i]).line != 0 ==> 1 <= out[i].line <= n && out[i] == entry(out[i].line)
            && shown(out[i].line)
    &&& forall|i: int, j: int|
        0 <= i < j < out.len() && (#[trigger] out[i]).line != 0 && (#[trigger] out[j]).line != 0 ==> out[i].line
            < out[j].line
    &&& context ==> forall|i: int|
        0 <= i < out.len() - 1 && (#[trigger] out[i]).line != 0 && out[i + 1].line != 0 ==> out[i + 1].line
            == out[i].line + 1
    &&& out.len() > 0 ==> out.last().line != 0 && (shown(n) ==> out.last().line == n)
    &&& forall|line: int| 1 <= line <= n && #[trigger] shown(line) ==> prints_line(out, line)
}

proof fn lemma_place_step(
    shown: spec_fn(int) -> bool,
    entry: spec_fn(int) -> EntrySpec,
    context: bool,
    above: Seq<EntrySpec>,
    out: Seq<EntrySpec>,
    n: int,
)
    requires
        n >= 1,
        shown(n),
        entry(n).line == n,
        well_placed(shown, entry, context, above, n - 1),
        out == (if context && above.len() > 0 && !shown(n - 1) {
            above.push(gap_marker())
        } else {
            above
        }).push(entry(n)),
    ensures
        well_placed(shown, entry, context, out, n),
{
    assert forall|i: int| 0 <= i < above.len() implies out[i] == #[trigger] above[i] by {}
    if above.len() > 0 {
        let last = above[above.len() - 1];
        assert(1 <= last.line <= n - 1 && shown(last.line));
        assert(!shown(n - 1) ==> last.line < n - 1);
    }
    assert forall|i: int| 0 <= i < out.len() && (#[trigger] out[i]).line == 0 implies context && 0 < i < out.len() - 1
        && out[i] == gap_marker() && 0 < out[i - 1].line && out[i - 1].line + 1 < out[i + 1].line by {
        if i < above.len() {
            assert(above[i].line == 0);
            assert(above[i - 1] == out[i - 1] && above[i + 1] == out[i + 1]);
        }
    }
    assert forall|i: int| 0 <= i < out.len() && (#[trigger] out[i]).line != 0 implies 1 <= out[i].line <= n && out[i]
        == entry(out[i].line) && shown(out[i].line) by {
        if i < above.len() {
            assert(above[i].line != 0);
        }
    }
    assert forall|i: int, j: int|
        0 <= i < j < out.len() && (#[trigger] out[i]).line != 0 && (#[trigger] out[j]).line != 0 implies out[i].line
        < out[j].line by {
        if j < above.len() {
            assert(above[i].line < above[j].line);
        } else if i < above.len() {
            assert(above[i].line <= n - 1);
        }
    }
    if context {
        assert forall|i: int| 0 <= i < out.len() - 1 && (#[trigger] out[i]).line != 0 && out[i + 1].line != 0 implies out[i
            + 1].line == out[i].line + 1 by {
            if i + 1 < above.len() {
                assert(above[i].line != 0 && above[i + 1] == out[i + 1]);
            }
        }
    }
    assert forall|line: int| 1 <= line <= n && #[trigger] shown(line) implies prints_line(out, line) by {
        if line == n {
            assert(out[out.len() - 1].line == n);
        } else {
            assert(prints_line(above, line));
            let i = choose|i: int| 0 <= i < above.len() && (#[trigger] above[i]).line == line;
            assert(out[i].line == line);
        }
    }
}

proof fn lemma_well_placed(
    bytes: Seq<u8>,
    spans: Seq<(usize, usize)>,
    opts: SearchOptions,
    shown: spec_fn(int) -> bool,
    entry: spec_fn(int) -> EntrySpec,
    n: nat,
)
    requires
        forall|line: int| #[trigger] shown(line) == is_shown(bytes, spans, opts.before as nat, opts.after as nat, line),
        forall|line: int| #[trigger] entry(line) == entry_for(bytes, spans, line),
    ensures
        well_placed(shown, entry, opts.before > 0 || opts.after > 0, entries_upto(bytes, spans, opts, n), n as int),
    decreases n,
{
    let context = opts.before > 0 || opts.after > 0;
    if n > 0 {
        let m = (n - 1) as nat;
        lemma_well_placed(bytes, spans, opts, shown, entry, m);
        let above = entries_upto(bytes, spans, opts, m);
        let out = entries_upto(bytes, spans, opts, n);
        let now = shown(n as int);
        let was = shown(m as int);
        let e = entry(n as int);
        if now {
            lemma_place_step(shown, entry, context, above, out, n as int);
        }
    }
}

/// One of the entries is line number `line`.
pub open spec fn prints_line(entries: Seq<EntrySpec>, line: int) -> bool {
    exists|i: int| 0 <= i < entries.len() && (#[trigger] entries[i]).line == line
}

/// What is printed of a file are the lines that lie at most `before` lines in
/// front of a line with a match or at most `after` lines behind one, each once
/// and in order, as they are in the file, and marked as matches where they have
/// one. Where lines around matches are asked for, a marker stands between two
/// lines that do not follow one another, and nowhere else.
pub proof fn shown_lines_surround_matches(bytes: Seq<u8>, spans: Seq<(usize, usize)>, opts: SearchOptions)
    ensures
        ({
            let out = file_entries(bytes, spans, opts);
            let total = line_starts(bytes).len();
            let context = opts.before > 0 || opts.after > 0;
            &&& forall|line: int|
                1 <= line <= total ==> (#[trigger] prints_line(out, line) <==> exists|m: int|
                    #[trigger] is_matched(bytes, spans, m) && m - opts.before <= line <= m + opts.after)
            &&& forall|i: int|
                0 <= i < out.len() && (#[trigger] out[i]).line != 0 ==> 1 <= out[i].line <= total && out[i].content
                    == line_content(bytes, out[i].line) && out[i].spans == spans_on(bytes, spans, out[i].line)
                    && out[i].is_match == is_matched(bytes, spans, out[i].line)
            &&& forall|i: int, j: int|
                0 <= i < j < out.len() && (#[trigger] out[i]).line != 0 && (#[trigger] out[j]).line != 0 ==> out[i].line
                    < out[j].line
            &&& forall|i: int|
                0 <= i < out.len() && (#[trigger] out[i]).line == 0 ==> context && 0 < i < out.len() - 1
                    && out[i].content == seq![45u8, 45u8] && !out[i].is_match && 0 < out[i - 1].line && out[i - 1].line
                    + 1 < out[i + 1].line
            &&& context ==> forall|i: int|
                0 <= i < out.len() - 1 && (#[trigger] out[i]).line != 0 && out[i + 1].line != 0 ==> out[i + 1].line
                    == out[i].line + 1
        }),
{
    let out = file_entries(bytes, spans, opts);
    let total = line_starts(bytes).len();
    let shown = |line: int| is_shown(bytes, spans, opts.before as nat, opts.after as nat, line);
    let entry = |line: int| entry_for(bytes, spans, line);
    lemma_well_placed(bytes, spans, opts, shown, entry, total);
    assert forall|line: int| 1 <= line <= total implies (#[trigger] prints_line(out, line) <==> exists|m: int|
        #[trigger] is_matched(bytes, spans, m) && m - opts.before <= line <= m + opts.after) by {
        if prints_line(out, line) {
            let i = choose|i: int| 0 <= i < out.len() && (#[trigger] out[i]).line == line;
            assert(shown(out[i].line));
        }
        if exists|m: int| #[trigger] is_matched(bytes, spans, m) && m - opts.before <= line <= m + opts.after {
            assert(shown(line));
        }
    }
}

proof fn lemma_matched_entries(bytes: Seq<u8>, spans: Seq<(usize, usize)>, opts: SearchOptions, n: nat)
    ensures
        matched_count(bytes, spans, n) == entries_upto(bytes, spans, opts, n).filter(|e: EntrySpec| e.is_match).len(),
    decreases n,
{
    reveal(Seq::filter);
    let f = |e: EntrySpec| e.is_match;
    if n > 0 {
        let m = (n - 1) as nat;
        lemma_matched_entries(bytes, spans, opts, m);
        let above = entries_upto(bytes, spans, opts, m);
        let out = entries_upto(bytes, spans, opts, n);
        if is_matched(bytes, spans, n as int) {
            assert(is_shown(bytes, spans, opts.before as nat, opts.after as nat, n as int));
        }
        if is_shown(bytes, spans, opts.before as nat, opts.after as nat, n as int) {
            let e = entry_for(bytes, spans, n as int);
            assert(out.last() == e);
            if out.len() == above.len() + 1 {
                assert(out.drop_last() =~= above);
            } else {
                let gapped = above.push(gap_marker());
                assert(out.drop_last() =~= gapped);
                assert(gapped.drop_last() =~= above);
                assert(gapped.filter(f) == above.filter(f));
            }
        }
    }
}

/// The count of a file is the number of lines printed as matches, whatever is
/// shown around them.
pub proof fn counted_lines_are_matches(bytes: Seq<u8>, spans: Seq<(usize, usize)>, opts: SearchOptions)
    ensures
        matched_count(bytes, spans, line_starts(bytes).len()) == file_entries(bytes, spans, opts).filter(
            |e: EntrySpec| e.is_match,
        ).len(),
{
    lemma_matched_entries(bytes, spans, opts, line_starts(bytes).len());
}

/// A file is hit if the pattern matches in it and there is no NUL byte among its
/// first 8192.
pub proof fn binary_files_are_no_hits(pattern: Seq<char>, bytes: Seq<u8>)
    ensures
        is_hit(pattern, bytes) <==> match_spans(pattern, bytes).len() > 0 && forall|i: int|
            0 <= i < bytes.len() && i < 8192 ==> bytes[i] != 0,
{
    let sample = leading(bytes, BINARY_SAMPLE as nat);
    if binary(sample) {
        let i = choose|i: int| 0 <= i < sample.len() && sample[i] == 0;
        assert(bytes[i] == 0);
    }
    if exists|i: int| 0 <= i < bytes.len() && i < 8192 && bytes[i] == 0 {
        let i = choose|i: int| 0 <= i < bytes.len() && i < 8192 && bytes[i] == 0;
        assert(sample[i] == 0);
    }
}

/// The results of files are those of the first followed by those of the others;
/// a single file has one if it could be read and is hit, under its own path.
pub proof fn results_come_file_by_file(
    files: Seq<SourceFile>,
    more: Seq<SourceFile>,
    file: SourceFile,
    pattern: Seq<char>,
    opts: SearchOptions,
)
    ensures
        hits_of(files + more, pattern, opts) == hits_of(files, pattern, opts) + hits_of(more, pattern, opts),
        ({
            let alone = hits_of(seq![file], pattern, opts);
            &&& alone.len() <= 1
            &&& alone.len() == 1 <==> (file.bytes matches Some(bytes) && is_hit(pattern, bytes@))
            &&& alone.len() == 1 ==> {
                let bytes = file.bytes->0@;
                let spans = match_spans(pattern, bytes);
                &&& alone[0].rel_path == file.rel_path@
                &&& alone[0].entries == file_entries(bytes, spans, opts)
                &&& alone[0].match_count == matched_count(bytes, spans, line_starts(bytes).len())
            }
        }),
    decreases more.len(),
{
    assert(seq![file].drop_last() =~= Seq::<SourceFile>::empty());
    assert(hits_of(seq![file].drop_last(), pattern, opts) =~= Seq::empty());
    if more.len() == 0 {
        assert(files + more =~= files);
        assert(hits_of(files, pattern, opts) + hits_of(more, pattern, opts) =~= hits_of(files, pattern, opts));
    } else {
        results_come_file_by_file(files, more.drop_last(), file, pattern, opts);
        assert((files + more).drop_last() =~= files + more.drop_last());
        assert((files + more).last() == more.last());
        assert(hits_of(files + more, pattern, opts) =~= hits_of(files, pattern, opts) + hits_of(more, pattern, opts));
    }
}

/// A line with a match is printed as `path:line:content`, one around a match as
/// `path-line-content`, a marker alone; each ends with a newline. Colour shows in
/// a line with a match only.
pub proof fn lines_are_printed_with_path_and_number(path: Seq<u8>, entry: EntrySpec, opts: SearchOptions)
    requires
        entry.line >= 0,
    ensures
        ({
            let context = opts.before > 0 || opts.after > 0;
            let line = entry_line(path, entry, opts);
            let number = decimal(entry.line as nat);
            &&& (entry.is_match || !context) && (opts.color != ColorWhen::Always || entry.spans.len() == 0) ==> line == path
                + seq![58u8] + number + seq![58u8] + lossy(entry.content) + seq![10u8]
            &&& (entry.is_match || !context) && opts.color == ColorWhen::Always && entry.spans.len() > 0 ==> line == path
                + seq![58u8] + number + seq![58u8] + lossy(colored_from(entry.content, entry.spans, 0)) + seq![10u8]
            &&& context && !entry.is_match && entry.line > 0 ==> line == path + seq![45u8] + number + seq![45u8] + lossy(
                entry.content,
            ) + seq![10u8]
            &&& context && !entry.is_match && entry.line == 0 ==> line == lossy(entry.content) + seq![10u8]
        }),
{
    let number = decimal(entry.line as nat);
    let line = entry_line(path, entry, opts);
    let shade = colored_from(entry.content, entry.spans, 0);
    assert(path + seq![58u8] + number + seq![58u8] + lossy(entry.content) + seq![10u8] =~= (path.push(58) + number).push(58)
        + lossy(entry.content).push(10));
    assert(path + seq![58u8] + number + seq![58u8] + lossy(shade) + seq![10u8] =~= (path.push(58) + number).push(58)
        + lossy(shade).push(10));
    assert(path + seq![45u8] + number + seq![45u8] + lossy(entry.content) + seq![10u8] =~= (path.push(45) + number).push(45)
        + lossy(entry.content).push(10));
    assert(lossy(entry.content) + seq![10u8] =~= lossy(entry.content).push(10));
}

/// The lines of entries come one behind the other.
pub proof fn printed_lines_follow_one_another(path: Seq<u8>, a: Seq<EntrySpec>, b: Seq<EntrySpec>, e: EntrySpec, opts: SearchOptions)
    ensures
        entry_lines(path, a + b, opts) == entry_lines(path, a, opts) + entry_lines(path, b, opts),
        entry_lines(path, seq![e], opts) == entry_line(path, e, opts),
    decreases b.len(),
{
    reveal_with_fuel(entry_lines, 2);
    assert(seq![e].drop_last() =~= Seq::<EntrySpec>::empty());
    assert(seq![e].last() == e);
    assert(entry_lines(path, seq![e], opts) =~= entry_line(path, e, opts));
    if b.len() == 0 {
        assert(a + b =~= a);
        assert(entry_lines(path, a, opts) + entry_lines(path, b, opts) =~= entry_lines(path, a, opts));
    } else {
        printed_lines_follow_one_another(path, a, b.drop_last(), e, opts);
        assert((a + b).drop_last() =~= a + b.drop_last());
        assert(entry_lines(path, a + b, opts) =~= entry_lines(path, a, opts) + entry_lines(path, b, opts));
    }
}

/// Files are printed one behind the other, with an empty line between them where
/// lines around matches are shown. Of a single file the mode says what is
/// printed: its path; its path and count; or its lines.
pub proof fn files_are_printed_in_order(a: Seq<FileSpec>, b: Seq<FileSpec>, file: FileSpec, base: Seq<u8>, opts: SearchOptions)
    requires
        file.match_count >= 0,
    ensures
        output_of(a + b, base, opts) == output_of(a, base, opts) + (if a.len() > 0 && b.len() > 0 && opts.mode
            == SearchMode::Normal && (opts.before > 0 || opts.after > 0) {
            seq![10u8]
        } else {
            Seq::empty()
        }) + output_of(b, base, opts),
        ({
            let path = lossy(joined(base, file.rel_path));
            let alone = output_of(seq![file], base, opts);
            &&& opts.mode == SearchMode::FilesWithMatches ==> alone == path + seq![10u8]
            &&& opts.mode == SearchMode::Count ==> alone == path + seq![58u8] + decimal(file.match_count as nat)
                + seq![10u8]
            &&& opts.mode == SearchMode::Normal ==> alone == entry_lines(path, file.entries, opts)
        }),
    decreases b.len(),
{
    let path = lossy(joined(base, file.rel_path));
    let alone = output_of(seq![file], base, opts);
    reveal_with_fuel(output_of, 2);
    assert(seq![file].drop_last() =~= Seq::<FileSpec>::empty());
    assert(seq![file].last() == file);
    assert(alone =~= file_output(file, base, opts, true));
    assert(path + seq![10u8] =~= path.push(10));
    assert(path + seq![58u8] + decimal(file.match_count as nat) + seq![10u8] =~= path.push(58) + decimal(
        file.match_count as nat,
    ).push(10));
    assert(Seq::<u8>::empty() + entry_lines(path, file.entries, opts) =~= entry_lines(path, file.entries, opts));
    let gap = if a.len() > 0 && b.len() > 0 && opts.mode == SearchMode::Normal && (opts.before > 0 || opts.after > 0) {
        seq![10u8]
    } else {
        Seq::empty()
    };
    if b.len() == 0 {
        assert(a + b =~= a);
        assert(output_of(a, base, opts) + gap + output_of(b, base, opts) =~= output_of(a, base, opts));
    } else {
        let init = b.drop_last();
        files_are_printed_in_order(a, init, file, base, opts);
        assert((a + b).drop_last() =~= a + init);
        assert((a + b).last() == b.last());
        if a.len() == 0 {
            assert(a + b =~= b);
            assert(output_of(a, base, opts) + gap + output_of(b, base, opts) =~= output_of(b, base, opts));
        } else {
            let tail = file_output(b.last(), base, opts, false);
            assert(output_of(a + b, base, opts) == output_of(a + init, base, opts) + tail);
            if init.len() == 0 {
                assert(a + init =~= a);
                assert(tail =~= gap + file_output(b.last(), base, opts, true));
                assert(output_of(b, base, opts) =~= file_output(b.last(), base, opts, true));
            }
            assert(output_of(a + b, base, opts) =~= output_of(a, base, opts) + gap + output_of(b, base, opts));
        }
    }
}

proof fn lemma_all_match(bytes: Seq<u8>, spans: Seq<(usize, usize)>, opts: SearchOptions, n: nat)
    ensures
        match_lines(entries_upto(bytes, spans, opts, n), opts) == matched_count(bytes, spans, n),
    decreases n,
{
    if n > 0 {
        let m = (n - 1) as nat;
        lemma_all_match(bytes, spans, opts, m);
        let above = entries_upto(bytes, spans, opts, m);
        let out = entries_upto(bytes, spans, opts, n);
        if is_matched(bytes, spans, n as int) {
            assert(is_shown(bytes, spans, opts.before as nat, opts.after as nat, n as int));
        }
        if is_shown(bytes, spans, opts.before as nat, opts.after as nat, n as int) {
            assert(out.last() == entry_for(bytes, spans, n as int));
            if out.len() == above.len() + 1 {
                assert(out.drop_last() =~= above);
            } else {
                let gapped = above.push(gap_marker());
                assert(out.drop_last() =~= gapped);
                assert(gapped.drop_last() =~= above);
                assert(match_lines(gapped, opts) == match_lines(above, opts));
            }
        }
    }
}

/// As many lines are printed as matches of a file as it has lines with a match.
pub proof fn printed_matches_are_the_counted_ones(bytes: Seq<u8>, spans: Seq<(usize, usize)>, opts: SearchOptions)
    ensures
        match_lines(file_entries(bytes, spans, opts), opts) == matched_count(bytes, spans, line_starts(bytes).len()),
{
    lemma_all_match(bytes, spans, opts, line_starts(bytes).len());
}

/// The lines with a match are those that hold the start of one, so there is at
/// least one if anything matches.
proof fn lemma_some_match(bytes: Seq<u8>, spans: Seq<(usize, usize)>, n: nat, line: int)
    requires
        1 <= line <= n,
        is_matched(bytes, spans, line),
    ensures
        matched_count(bytes, spans, n) > 0,
    decreases n,
{
    if line < n {
        lemma_some_match(bytes, spans, (n - 1) as nat, line);
    }
}

proof fn lemma_output_grows(results: Seq<FileSpec>, base: Seq<u8>, opts: SearchOptions, k: int)
    requires
        0 <= k < results.len(),
        results[k].entries.len() > 0,
    ensures
        output_of(results, base, opts).len() > 0,
    decreases results.len(),
{
    if k < results.len() - 1 {
        lemma_output_grows(results.drop_last(), base, opts, k);
    } else {
        let file = results.last();
        let path = lossy(joined(base, file.rel_path));
        assert(entry_line(path, file.entries.last(), opts).len() > 0);
        assert(entry_lines(path, file.entries, opts).len() > 0);
    }
}

proof fn lemma_hits_have_entries(files: Seq<SourceFile>, pattern: Seq<char>, opts: SearchOptions)
    requires
        follows_tree(pattern),
    ensures
        forall|k: int| 0 <= k < hits_of(files, pattern, opts).len() ==> (#[trigger] hits_of(files, pattern, opts)[k]).entries.len()
            > 0,
        hits_of(files, pattern, opts).len() > 0 <==> exists|i: int|
            0 <= i < files.len() && ((#[trigger] files[i]).bytes matches Some(bytes) && is_hit(pattern, bytes@)),
    decreases files.len(),
{
    if files.len() > 0 {
        let init = files.drop_last();
        lemma_hits_have_entries(init, pattern, opts);
        let file = files[files.len() - 1];
        let before = hits_of(init, pattern, opts);
        let now = hits_of(files, pattern, opts);
        assert forall|i: int| 0 <= i < init.len() implies #[trigger] init[i] == files[i] by {}
        if exists|i: int| 0 <= i < init.len() && ((#[trigger] init[i]).bytes matches Some(bytes) && is_hit(pattern, bytes@)) {
            let i = choose|i: int|
                0 <= i < init.len() && ((#[trigger] init[i]).bytes matches Some(bytes) && is_hit(pattern, bytes@));
            assert(files[i].bytes matches Some(bytes) && is_hit(pattern, bytes@));
        }
        if let Some(vec) = file.bytes {
            let bytes = vec@;
            if is_hit(pattern, bytes) {
                let spans = match_spans(pattern, bytes);
                let line = line_of(line_starts(bytes), spans[0].0 as int);
                lemma_line_of_range(bytes, spans[0].0 as int);
                assert(is_matched(bytes, spans, line));
                lemma_some_match(bytes, spans, line_starts(bytes).len(), line);
                lemma_all_match(bytes, spans, opts, line_starts(bytes).len());
                assert(now.last() == hit_of(file.rel_path@, bytes, pattern, opts));
                assert(now.last().entries.len() > 0);
                assert(now.len() > 0);
                assert(files[files.len() - 1].bytes matches Some(bytes) && is_hit(pattern, bytes@));
            }
        }
        assert forall|k: int| 0 <= k < now.len() implies (#[trigger] now[k]).entries.len() > 0 by {
            if k < before.len() {
                assert(now[k] == before[k]);
            }
        }
        if exists|i: int| 0 <= i < files.len() && ((#[trigger] files[i]).bytes matches Some(bytes) && is_hit(pattern, bytes@)) {
            let i = choose|i: int|
                0 <= i < files.len() && ((#[trigger] files[i]).bytes matches Some(bytes) && is_hit(pattern, bytes@));
            if i < init.len() {
                assert(init[i].bytes matches Some(bytes) && is_hit(pattern, bytes@));
            }
        }
    }
}

/// Something is printed if and only if a file is hit, whatever the options.
pub proof fn output_shows_whether_anything_matches(
    files: Seq<SourceFile>,
    pattern: Seq<char>,
    base: Seq<u8>,
    opts: SearchOptions,
)
    requires
        follows_tree(pattern),
    ensures
        output_of(hits_of(files, pattern, opts), base, opts).len() > 0 <==> exists|i: int|
            0 <= i < files.len() && ((#[trigger] files[i]).bytes matches Some(bytes) && is_hit(pattern, bytes@)),
{
    lemma_hits_have_entries(files, pattern, opts);
    let hits = hits_of(files, pattern, opts);
    if hits.len() > 0 {
        assert(hits[0].entries.len() > 0);
        lemma_output_grows(hits, base, opts, 0);
    }
}

/// Colouring one span more, behind the others: what stands in front of it is
/// coloured as before, the span is made red, and the rest stays. A span that ends
/// behind the content or runs backwards makes no difference, and without spans
/// nothing is coloured.
pub proof fn spans_are_coloured_one_by_one(content: Seq<u8>, spans: Seq<(int, int)>, from: int, s: int, e: int)
    requires
        0 <= from <= content.len(),
    ensures
        colored_from(content, Seq::empty(), from) == content.skip(from),
        e > content.len() || s > e ==> colored_from(content, spans.push((s, e)), from) == colored_from(
            content,
            spans,
            from,
        ),
        from <= s <= e <= content.len() && (forall|i: int|
            0 <= i < spans.len() ==> 0 <= (#[trigger] spans[i]).0 <= spans[i].1 <= s) ==> colored_from(
            content,
            spans.push((s, e)),
            from,
        ) == colored_from(content.take(s), spans, from) + seq![27u8, 91u8, 51u8, 49u8, 109u8] + content.subrange(s, e)
            + seq![27u8, 91u8, 48u8, 109u8] + content.skip(e),
    decreases spans.len(),
{
    let more = spans.push((s, e));
    reveal_with_fuel(colored_from, 2);
    if spans.len() == 0 {
        assert(more[0] == (s, e));
        assert(more.drop_first() =~= Seq::empty());
        if from <= s <= e <= content.len() {
            assert(content.take(s).skip(from) =~= content.subrange(from, s));
            assert(colored_from(content, more, from) =~= content.take(s).skip(from) + seq![27u8, 91u8, 51u8, 49u8, 109u8]
                + content.subrange(s, e) + seq![27u8, 91u8, 48u8, 109u8] + content.skip(e));
        }
    } else {
        let (a, b) = spans[0];
        let rest = spans.drop_first();
        assert(more[0] == spans[0]);
        assert(more.drop_first() =~= rest.push((s, e)));
        if a < from || b > content.len() || a > b {
            spans_are_coloured_one_by_one(content, rest, from, s, e);
            if from <= s <= e <= content.len() && (forall|i: int|
                0 <= i < spans.len() ==> 0 <= (#[trigger] spans[i]).0 <= spans[i].1 <= s) {
                assert forall|i: int| 0 <= i < rest.len() implies 0 <= (#[trigger] rest[i]).0 <= rest[i].1 <= s by {
                    assert(rest[i] == spans[i + 1]);
                }
            }
        } else {
            spans_are_coloured_one_by_one(content, rest, b, s, e);
            if from <= s <= e <= content.len() && (forall|i: int|
                0 <= i < spans.len() ==> 0 <= (#[trigger] spans[i]).0 <= spans[i].1 <= s) {
                assert forall|i: int| 0 <= i < rest.len() implies 0 <= (#[trigger] rest[i]).0 <= rest[i].1 <= s by {
                    assert(rest[i] == spans[i + 1]);
                }
                assert(content.take(s).subrange(from, a) =~= content.subrange(from, a));
                assert(content.take(s).subrange(a, b) =~= content.subrange(a, b));
                let head = content.subrange(from, a) + color_red() + content.subrange(a, b) + color_reset();
                let inner = colored_from(content.take(s), rest, b);
                let tail = seq![27u8, 91u8, 51u8, 49u8, 109u8] + content.subrange(s, e) + seq![27u8, 91u8, 48u8, 109u8]
                    + content.skip(e);
                assert(colored_from(content, more, from) =~= head + (inner + seq![27u8, 91u8, 51u8, 49u8, 109u8]
                    + content.subrange(s, e) + seq![27u8, 91u8, 48u8, 109u8] + content.skip(e)));
                assert(colored_from(content, more, from) =~= (head + inner) + seq![27u8, 91u8, 51u8, 49u8, 109u8]
                    + content.subrange(s, e) + seq![27u8, 91u8, 48u8, 109u8] + content.skip(e));
            }
        }
    }
}

/// `always`, `yes` and `force` colour whatever the output goes to, `never` and
/// `no` do not, and any other value leaves it to the terminal.
pub proof fn colour_follows_its_value(value: Seq<char>, terminal: bool)
    ensures
        color_for(value, terminal) != ColorWhen::Auto,
        value == "always"@ ==> color_for(value, terminal) == ColorWhen::Always,
        value == "yes"@ ==> color_for(value, terminal) == ColorWhen::Always,
        value == "force"@ ==> color_for(value, terminal) == ColorWhen::Always,
        value == "never"@ ==> color_for(value, terminal) == ColorWhen::Never,
        value == "no"@ ==> color_for(value, terminal) == ColorWhen::Never,
        !(value == "always"@ || value == "yes"@ || value == "force"@ || value == "never"@ || value == "no"@) ==> (color_for(
            value,
            terminal,
        ) == ColorWhen::Always <==> terminal),
{
    reveal_strlit("always");
    reveal_strlit("yes");
    reveal_strlit("force");
    reveal_strlit("never");
    reveal_strlit("no");
    if value == "never"@ {
        assert(value.len() == 5);
        assert(value[0] == 'n');
    }
    if value == "no"@ {
        assert(value.len() == 2);
    }
}

/// The lines printed as matches are counted file by file, in the mode that prints
/// lines; of a file they are the entries with a match, or all of them where no lines
/// around matches are shown.
pub proof fn printed_matches_add_up(a: Seq<FileSpec>, b: Seq<FileSpec>, file: FileSpec, opts: SearchOptions)
    ensures
        printed_of(a + b, opts) == printed_of(a, opts) + printed_of(b, opts),
        opts.mode == SearchMode::Normal ==> printed_of(seq![file], opts) == file.entries.filter(
            |e: EntrySpec| e.is_match || (opts.before == 0 && opts.after == 0),
        ).len(),
        opts.mode != SearchMode::Normal ==> printed_of(seq![file], opts) == 0,
    decreases b.len(),
{
    reveal_with_fuel(printed_of, 2);
    assert(seq![file].drop_last() =~= Seq::<FileSpec>::empty());
    assert(seq![file].last() == file);
    lemma_match_lines(file.entries, opts);
    if b.len() == 0 {
        assert(a + b =~= a);
    } else {
        printed_matches_add_up(a, b.drop_last(), file, opts);
        assert((a + b).drop_last() =~= a + b.drop_last());
        assert((a + b).last() == b.last());
    }
}

proof fn lemma_match_lines(entries: Seq<EntrySpec>, opts: SearchOptions)
    ensures
        match_lines(entries, opts) == entries.filter(
            |e: EntrySpec| e.is_match || (opts.before == 0 && opts.after == 0),
        ).len(),
    decreases entries.len(),
{
    reveal(Seq::filter);
    if entries.len() > 0 {
        lemma_match_lines(entries.drop_last(), opts);
    }
}

/// A span that starts before the place from which on the content is coloured, as one
/// does that overlaps the span in front of it, makes no difference.
pub proof fn overlapping_spans_are_left_out(content: Seq<u8>, spans: Seq<(int, int)>, from: int, a: (int, int), b: (int, int))
    requires
        0 <= from <= a.0 <= a.1 <= content.len(),
        b.0 < a.1,
    ensures
        colored_from(content, seq![a, b] + spans, from) == colored_from(content, seq![a] + spans, from),
{
    reveal_with_fuel(colored_from, 3);
    let (both, one) = (seq![a, b] + spans, seq![a] + spans);
    assert(both[0] == a && one[0] == a);
    assert(both.drop_first() =~= seq![b] + spans);
    assert(one.drop_first() =~= spans);
    assert((seq![b] + spans)[0] == b);
    assert((seq![b] + spans).drop_first() =~= spans);
}

} // verus!
