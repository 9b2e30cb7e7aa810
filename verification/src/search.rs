//! The shared indexed-search core.
//!
//! Both the one-shot CLI path and the daemon go through [`plan_search`] and
//! [`finish_search`] so their output is byte-identical — the daemon is purely a
//! "keep the index hot and skip the per-call disk load" optimization.

use regex::bytes::Regex;
use roaring::RoaringBitmap;
use vstd::prelude::*;

use crate::analysis::{analyze, analyze_folded, folded_pattern_query, pattern_query, query_is_sound, query_of};
use crate::bitmap::{bitmap_ids, count_ids};
use crate::expr::{parsed, ExprSpec};
use crate::fold::{folded_is_well_formed, folding_follows_matches};
use crate::index::{content_trigrams, exact, ids_at, indexes, resolved, resolved_contains, resolved_is_live, FileState, Index};
use crate::matcher::{
    hit_of, hits_of, hits_satisfy_the_query, is_hit, output_of, output_shows_whether_anything_matches, results_of,
    searched_files_are_indexed, write_results, FileResult, FileSpec, SearchOptions, SourceFile,
};
use crate::paths::components;
use crate::pattern::{
    compile_regex, effective_pattern, effective_source, follows_tree, match_spans, regex_fault, source_of, span_bytes,
    spans_within, InvalidRegex,
};
use crate::query::{evaluate, recorded, satisfaction_is_monotone, CandidateSet, QuerySpec};
use crate::store::{
    has_text_paths, loaded, parse_index, posting_sets, stored, text_paths_are_kept, IndexData, LoadError,
};
use crate::strings::{strings_of, Strings};
use crate::trigram::{folded_set, folding_only_adds, lower, trigram_set, Trigram};

verus! {

/// The outcome of an indexed search.
#[derive(Debug)]
pub struct SearchOutcome {
    /// Formatted output bytes (what would be printed to stdout).
    pub output: Vec<u8>,
    /// Process exit code: 0 if anything was printed, 1 otherwise.
    pub exit: i32,
    pub candidate_count: usize,
    pub total_files: usize,
    pub eval_us: u128,
    pub verify_us: u128,
}

/// What to verify: the compiled pattern and the files that may match.
#[derive(Debug)]
pub struct SearchPlan {
    pub regex: Regex,
    pub files: Vec<Vec<u8>>,
    pub candidate_count: usize,
}

/// The query that is looked up. The index holds lowercased trigrams too, so
/// where case is ignored it is that of the expression with its letters made
/// lower-case.
pub open spec fn search_query(pattern: Seq<char>, ignore_case: bool) -> QuerySpec {
    if ignore_case {
        folded_pattern_query(effective_pattern(pattern, ignore_case))
    } else {
        pattern_query(pattern)
    }
}

/// The ids that a query admits; `None` if it admits all without a look-up.
pub open spec fn admitted(postings: Map<Trigram, RoaringBitmap>, query: QuerySpec) -> Option<Set<u32>> {
    if query.asks_nothing() {
        None
    } else {
        Some(Set::new(|id: u32| query.satisfied(recorded(postings, id))))
    }
}

/// The paths of the live files that a query admits, in the order of their ids.
pub open spec fn candidates(index: Index, query: QuerySpec) -> Strings {
    resolved(
        strings_of(index.files@),
        bitmap_ids(index.removed_ids),
        admitted(index.postings@, query),
        index.files@.len(),
    )
}

/// How many files a query admits, removed ones included.
pub open spec fn candidate_total(index: Index, query: QuerySpec) -> usize {
    match admitted(index.postings@, query) {
        Some(ids) => ids.len() as usize,
        None => index.files@.len() as usize,
    }
}

/// Compile the regex and prune candidates via the trigram index. No file in
/// which the pattern matches is lost.
pub fn plan_search(index: &Index, pattern: &str, ignore_case: bool) -> (out: Result<SearchPlan, InvalidRegex>)
    requires
        index.files@.len() <= 0x1_0000_0000,
    ensures
        out is Ok <==> regex_fault(effective_pattern(pattern@, ignore_case)) is None,
        out matches Err(error) ==> error.message@ == "Invalid regex: "@ + regex_fault(
            effective_pattern(pattern@, ignore_case),
        )->0,
        out matches Ok(plan) ==> {
            let query = search_query(pattern@, ignore_case);
            &&& source_of(plan.regex) == effective_pattern(pattern@, ignore_case)
            &&& strings_of(plan.files@) == candidates(*index, query)
            &&& plan.candidate_count == candidate_total(*index, query)
        },
        out is Ok ==> follows_tree(effective_pattern(pattern@, ignore_case)),
        out matches Ok(plan) ==> search_query(pattern@, ignore_case).asks_nothing() ==> plan.candidate_count
            == index.files@.len(),
        out matches Ok(plan) ==> !search_query(pattern@, ignore_case).asks_nothing() ==> plan.candidate_count == Set::new(
            |id: u32| search_query(pattern@, ignore_case).satisfied(recorded(index.postings@, id)),
        ).len() as usize,
        !ignore_case ==> (out is Ok <==> regex_fault(pattern@) is None),
        !ignore_case ==> (out matches Ok(plan) ==> source_of(plan.regex) == pattern@),
        ignore_case ==> (out matches Ok(plan) ==> source_of(plan.regex) == "(?i:"@ + pattern@ + ")"@),
        out matches Ok(plan) ==> forall|tree: Map<Seq<u8>, Seq<u8>>|
            records(*index, tree) ==> #[trigger] matching(strings_of(plan.files@), tree, source_of(plan.regex)) == matching(
                live_paths(*index),
                tree,
                source_of(plan.regex),
            ),
        out matches Ok(plan) ==> forall|tree: Map<Seq<u8>, Seq<u8>>|
            records(*index, tree) ==> #[trigger] matching(
                strings_of(plan.files@),
                tree,
                effective_pattern(pattern@, ignore_case),
            ) == matching(live_paths(*index), tree, effective_pattern(pattern@, ignore_case)),
{
    let regex = match compile_regex(pattern, ignore_case) {
        Ok(regex) => regex,
        Err(error) => {
            return Err(error);
        },
    };
    let query = if ignore_case {
        let source = effective_source(pattern, ignore_case);
        analyze_folded(source.as_str())
    } else {
        analyze(pattern)
    };
    proof {
        assert forall|tree: Map<Seq<u8>, Seq<u8>>| records(*index, tree) implies #[trigger] matching(
            candidates(*index, query@),
            tree,
            effective_pattern(pattern@, ignore_case),
        ) == matching(live_paths(*index), tree, effective_pattern(pattern@, ignore_case)) by {
            indexed_search_misses_nothing(*index, tree, pattern@, ignore_case);
        }
    }
    let (files, candidate_count) = match evaluate(&query, &index.postings) {
        CandidateSet::All => (index.resolve_files(None), index.files.len()),
        CandidateSet::Only(bitmap) => {
            proof {
                let ids = Set::new(|id: u32| query@.satisfied(recorded(index.postings@, id)));
                assert forall|id: u32| bitmap_ids(bitmap).contains(id) == ids.contains(id) by {
                    assert(CandidateSet::Only(bitmap).admits(id) == query@.satisfied(recorded(index.postings@, id)));
                }
                assert(bitmap_ids(bitmap) =~= ids);
            }
            (index.resolve_files(Some(&bitmap)), count_ids(&bitmap) as usize)
        },
    };
    assert(strings_of(files@) == candidates(*index, query@));
    Ok(SearchPlan { regex, files, candidate_count })
}

/// The exit code of a search with this output.
pub open spec fn exit_for(output: Seq<u8>) -> i32 {
    if output.len() == 0 {
        1
    } else {
        0
    }
}

/// Format the results of a search.
pub fn finish_search(
    results: &[FileResult],
    root: &[u8],
    opts: &SearchOptions,
    candidate_count: usize,
    total_files: usize,
    eval_us: u128,
    verify_us: u128,
) -> (outcome: SearchOutcome)
    ensures
        outcome.output@ == output_of(results_of(results@), root@, *opts),
        outcome.exit == exit_for(outcome.output@),
        outcome.candidate_count == candidate_count,
        outcome.total_files == total_files,
        outcome.eval_us == eval_us,
        outcome.verify_us == verify_us,
{
    let (output, _) = write_results(results, root, opts);
    let exit: i32 = if output.len() == 0 {
        1
    } else {
        0
    };
    SearchOutcome { output, exit, candidate_count, total_files, eval_us, verify_us }
}

/// The trigrams of a file in which a search finds a match satisfy the query that
/// is looked up, whether case counts or not.
pub proof fn search_query_is_sound(pattern: Seq<char>, ignore_case: bool, bytes: Seq<u8>)
    requires
        follows_tree(effective_pattern(pattern, ignore_case)),
        is_hit(effective_pattern(pattern, ignore_case), bytes),
    ensures
        search_query(pattern, ignore_case).satisfied(content_trigrams(bytes)),
{
    let source = effective_pattern(pattern, ignore_case);
    if ignore_case {
        searched_files_are_indexed(bytes);
        if let Some(expr) = parsed(source) {
            let spans = match_spans(source, bytes);
            let span = spans[0];
            let (start, end) = (span.0 as int, span.1 as int);
            assert(spans_within(spans, bytes.len()));
            assert(expr.matches(span_bytes(bytes, span)));
            folding_follows_matches(expr, span_bytes(bytes, span));
            folded_is_well_formed(expr);
            assert(lower(bytes).subrange(start, end) =~= lower(span_bytes(bytes, span)));
            folded_query_is_sound(expr.folded(), bytes, start, end);
        }
    } else {
        hits_satisfy_the_query(source, bytes);
    }
}

/// No match is pruned: a live file in which the pattern matches is among the
/// candidates of an index that records its trigrams.
pub proof fn candidates_keep_every_match(
    index: Index,
    pattern: Seq<char>,
    ignore_case: bool,
    id: u32,
    text: Seq<u8>,
)
    requires
        id < index.files@.len(),
        !bitmap_ids(index.removed_ids).contains(id),
        recorded(index.postings@, id) == content_trigrams(text),
        follows_tree(effective_pattern(pattern, ignore_case)),
        is_hit(effective_pattern(pattern, ignore_case), text),
    ensures
        candidates(index, search_query(pattern, ignore_case)).contains(index.files@[id as int]@),
{
    let wanted = admitted(index.postings@, search_query(pattern, ignore_case));
    search_query_is_sound(pattern, ignore_case, text);
    resolved_contains(
        strings_of(index.files@),
        bitmap_ids(index.removed_ids),
        wanted,
        index.files@.len(),
        id,
    );
}

/// Where an expression matches in the lowercased text of a file, the trigrams
/// that the file is indexed under satisfy its query.
pub proof fn folded_query_is_sound(expr: ExprSpec, text: Seq<u8>, start: int, end: int)
    requires
        expr.well_formed(),
        0 <= start <= end <= text.len(),
        expr.matches(lower(text).subrange(start, end)),
    ensures
        query_of(expr).satisfied(folded_set(text)),
{
    query_is_sound(expr, lower(text), start, end);
    folding_only_adds(text);
    satisfaction_is_monotone(query_of(expr), trigram_set(lower(text)), folded_set(text));
}

/// The paths of `paths` whose content, as `tree` has it, `pattern` matches.
pub open spec fn matching(paths: Strings, tree: Map<Seq<u8>, Seq<u8>>, pattern: Seq<char>) -> Strings
    decreases paths.len(),
{
    if paths.len() == 0 {
        paths
    } else {
        let init = matching(paths.drop_last(), tree, pattern);
        if tree.contains_key(paths.last()) && is_hit(pattern, tree[paths.last()]) {
            init.push(paths.last())
        } else {
            init
        }
    }
}

proof fn lemma_matching_push(paths: Strings, path: Seq<u8>, tree: Map<Seq<u8>, Seq<u8>>, pattern: Seq<char>)
    ensures
        matching(paths.push(path), tree, pattern) == if tree.contains_key(path) && is_hit(pattern, tree[path]) {
            matching(paths, tree, pattern).push(path)
        } else {
            matching(paths, tree, pattern)
        },
{
    assert(paths.push(path).drop_last() =~= paths);
}

proof fn lemma_same_matches(
    files: Strings,
    removed: Set<u32>,
    wanted: Option<Set<u32>>,
    n: nat,
    tree: Map<Seq<u8>, Seq<u8>>,
    pattern: Seq<char>,
)
    requires
        n <= files.len() <= 0x1_0000_0000,
        forall|i: int|
            0 <= i < n && !removed.contains(i as u32) && tree.contains_key(#[trigger] files[i]) && is_hit(
                pattern,
                tree[files[i]],
            ) ==> (wanted matches Some(ids) ==> ids.contains(i as u32)),
    ensures
        matching(resolved(files, removed, wanted, n), tree, pattern) == matching(
            resolved(files, removed, None, n),
            tree,
            pattern,
        ),
    decreases n,
{
    if n > 0 {
        let m = (n - 1) as nat;
        lemma_same_matches(files, removed, wanted, m, tree, pattern);
        lemma_matching_push(resolved(files, removed, wanted, m), files[n - 1], tree, pattern);
        lemma_matching_push(resolved(files, removed, None, m), files[n - 1], tree, pattern);
    }
}

/// The paths of the live files, in the order of their ids.
pub open spec fn live_paths(index: Index) -> Strings {
    resolved(strings_of(index.files@), bitmap_ids(index.removed_ids), None, index.files@.len())
}

/// The index records the trigrams of the live files as they are in `tree`.
pub open spec fn records(index: Index, tree: Map<Seq<u8>, Seq<u8>>) -> bool {
    forall|i: int|
        0 <= i < index.files@.len() && !bitmap_ids(index.removed_ids).contains(i as u32) && tree.contains_key(
            (#[trigger] index.files@[i])@,
        ) ==> recorded(index.postings@, i as u32) == content_trigrams(tree[index.files@[i]@])
}

/// The candidates of a query are all the files in which a pattern matches, if
/// each such file satisfies the query.
proof fn lemma_nothing_missed(index: Index, tree: Map<Seq<u8>, Seq<u8>>, pattern: Seq<char>, query: QuerySpec)
    requires
        index.files@.len() <= 0x1_0000_0000,
        records(index, tree),
        forall|bytes: Seq<u8>| #[trigger] is_hit(pattern, bytes) ==> query.satisfied(content_trigrams(bytes)),
    ensures
        matching(candidates(index, query), tree, pattern) == matching(live_paths(index), tree, pattern),
{
    let files = strings_of(index.files@);
    let removed = bitmap_ids(index.removed_ids);
    let wanted = admitted(index.postings@, query);
    assert forall|i: int|
        0 <= i < files.len() && !removed.contains(i as u32) && tree.contains_key(#[trigger] files[i]) && is_hit(
            pattern,
            tree[files[i]],
        ) implies (wanted matches Some(ids) ==> ids.contains(i as u32)) by {
        assert(files[i] == index.files@[i]@);
    }
    lemma_same_matches(files, removed, wanted, files.len(), tree, pattern);
}

/// An indexed search finds exactly what a search of all indexed files finds,
/// in the same order, if the index records the trigrams of the files as they
/// are in `tree`.
pub proof fn indexed_search_misses_nothing(
    index: Index,
    tree: Map<Seq<u8>, Seq<u8>>,
    pattern: Seq<char>,
    ignore_case: bool,
)
    requires
        index.files@.len() <= 0x1_0000_0000,
        records(index, tree),
        follows_tree(effective_pattern(pattern, ignore_case)),
    ensures
        matching(
            candidates(index, search_query(pattern, ignore_case)),
            tree,
            effective_pattern(pattern, ignore_case),
        ) == matching(live_paths(index), tree, effective_pattern(pattern, ignore_case)),
{
    let source = effective_pattern(pattern, ignore_case);
    let query = search_query(pattern, ignore_case);
    assert forall|bytes: Seq<u8>| #[trigger] is_hit(source, bytes) implies query.satisfied(content_trigrams(bytes)) by {
        search_query_is_sound(pattern, ignore_case, bytes);
    }
    lemma_nothing_missed(index, tree, source, query);
}

/// `files` are what is read under these paths in `tree`.
pub open spec fn reads(files: Seq<SourceFile>, paths: Strings, tree: Map<Seq<u8>, Seq<u8>>) -> bool {
    &&& files.len() == paths.len()
    &&& forall|i: int|
        0 <= i < files.len() ==> (#[trigger] files[i]).rel_path@ == paths[i] && match files[i].bytes {
            Some(bytes) => tree.contains_key(paths[i]) && tree[paths[i]] == bytes@,
            None => !tree.contains_key(paths[i]),
        }
}

/// The results of files in `tree`.
pub open spec fn results_in(
    paths: Strings,
    tree: Map<Seq<u8>, Seq<u8>>,
    pattern: Seq<char>,
    opts: SearchOptions,
) -> Seq<FileSpec> {
    paths.map_values(|path: Seq<u8>| hit_of(path, tree[path], pattern, opts))
}

proof fn lemma_hits_in_tree(
    files: Seq<SourceFile>,
    paths: Strings,
    tree: Map<Seq<u8>, Seq<u8>>,
    pattern: Seq<char>,
    opts: SearchOptions,
)
    requires
        reads(files, paths, tree),
    ensures
        hits_of(files, pattern, opts) == results_in(matching(paths, tree, pattern), tree, pattern, opts),
    decreases files.len(),
{
    if files.len() == 0 {
        assert(results_in(paths, tree, pattern, opts) =~= Seq::empty());
    } else {
        let (f, p) = (files.drop_last(), paths.drop_last());
        assert(files[files.len() - 1].rel_path@ == paths.last());
        assert forall|i: int| 0 <= i < f.len() implies (#[trigger] f[i]).rel_path@ == p[i] && match f[i].bytes {
            Some(bytes) => tree.contains_key(p[i]) && tree[p[i]] == bytes@,
            None => !tree.contains_key(p[i]),
        } by {
            assert(f[i] == files[i]);
        }
        lemma_hits_in_tree(f, p, tree, pattern, opts);
        assert(hits_of(files, pattern, opts) =~= results_in(matching(paths, tree, pattern), tree, pattern, opts));
    }
}

/// An indexed search prints exactly what a search of all indexed files prints:
/// `found` are the candidates as read, `all` the live files as read.
pub proof fn indexed_search_prints_the_same(
    index: Index,
    tree: Map<Seq<u8>, Seq<u8>>,
    pattern: Seq<char>,
    ignore_case: bool,
    found: Seq<SourceFile>,
    all: Seq<SourceFile>,
    root: Seq<u8>,
    opts: SearchOptions,
)
    requires
        index.files@.len() <= 0x1_0000_0000,
        records(index, tree),
        follows_tree(effective_pattern(pattern, ignore_case)),
        reads(found, candidates(index, search_query(pattern, ignore_case)), tree),
        reads(all, live_paths(index), tree),
    ensures
        output_of(hits_of(found, effective_pattern(pattern, ignore_case), opts), root, opts) == output_of(
            hits_of(all, effective_pattern(pattern, ignore_case), opts),
            root,
            opts,
        ),
{
    let source = effective_pattern(pattern, ignore_case);
    indexed_search_misses_nothing(index, tree, pattern, ignore_case);
    lemma_hits_in_tree(found, candidates(index, search_query(pattern, ignore_case)), tree, source, opts);
    lemma_hits_in_tree(all, live_paths(index), tree, source, opts);
}

/// A fresh index records the files that were read completely.
pub proof fn built_index_records(index: Index, states: Seq<FileState>, tree: Map<Seq<u8>, Seq<u8>>)
    requires
        index.files@.len() == states.len() <= 0x1_0000_0000,
        indexes(index.postings@, states, 0),
        forall|i: int|
            0 <= i < states.len() && tree.contains_key((#[trigger] index.files@[i])@) ==> states[i].is_complete()
                && states[i].bytes->0@ == tree[index.files@[i]@],
    ensures
        records(index, tree),
{
    assert forall|i: int|
        0 <= i < index.files@.len() && !bitmap_ids(index.removed_ids).contains(i as u32) && tree.contains_key(
            (#[trigger] index.files@[i])@,
        ) implies recorded(index.postings@, i as u32) == content_trigrams(tree[index.files@[i]@]) by {
        let found = recorded(index.postings@, i as u32);
        let wanted = content_trigrams(tree[index.files@[i]@]);
        assert forall|t: Trigram| found.contains(t) == wanted.contains(t) by {
            assert(ids_at(index.postings@, t).contains(i as u32) == states[i].built_trigrams().contains(t));
        }
        assert(found =~= wanted);
    }
}

/// An index that is exact for the files in `tree`, as an update makes it,
/// records them.
pub proof fn exact_index_records(
    index: Index,
    current: Strings,
    now: Map<Strings, Set<Trigram>>,
    tree: Map<Seq<u8>, Seq<u8>>,
)
    requires
        index.files@.len() <= 0x1_0000_0000,
        exact(index.slots(), current, now),
        forall|path: Seq<u8>| #[trigger] tree.contains_key(path) ==> now[components(path)] == content_trigrams(
            tree[path],
        ),
    ensures
        records(index, tree),
{
    let slots = index.slots();
    assert forall|i: int|
        0 <= i < index.files@.len() && !bitmap_ids(index.removed_ids).contains(i as u32) && tree.contains_key(
            (#[trigger] index.files@[i])@,
        ) implies recorded(index.postings@, i as u32) == content_trigrams(tree[index.files@[i]@]) by {
        assert(slots[i].live);
    }
}

/// An index that was stored and read again answers every query as it did, and
/// records what it recorded: `data` is what [`crate::store::save`] writes of the
/// index, `again` what [`crate::store::load`] makes of that. Its paths are text.
pub proof fn stored_index_answers_alike(index: Index, data: Seq<u8>, again: Index, query: QuerySpec)
    requires
        parse_index(data) == Ok::<Option<IndexData>, LoadError>(Some(stored(index))),
        loaded(Ok(Some(again))) == parse_index(data),
        has_text_paths(index),
    ensures
        candidates(again, query) == candidates(index, query),
        live_paths(again) == live_paths(index),
        forall|tree: Map<Seq<u8>, Seq<u8>>| #[trigger] records(index, tree) ==> records(again, tree),
{
    text_paths_are_kept(index);
    assert(again.data() == stored(index));
    assert(strings_of(again.files@) == strings_of(index.files@));
    assert(strings_of(again.files@).len() == strings_of(index.files@).len());
    let (kept, before) = (posting_sets(again.postings@), posting_sets(index.postings@));
    assert forall|id: u32| #[trigger] recorded(again.postings@, id) == recorded(index.postings@, id) by {
        assert forall|t: Trigram| recorded(again.postings@, id).contains(t) == recorded(
            index.postings@,
            id,
        ).contains(t) by {
            assert(kept.contains_key(t) == before.contains_key(t));
            if before.contains_key(t) {
                assert(kept[t] == before[t]);
            }
        }
        assert(recorded(again.postings@, id) =~= recorded(index.postings@, id));
    }
    if !query.asks_nothing() {
        assert(admitted(again.postings@, query)->0 =~= admitted(index.postings@, query)->0);
    }
    assert forall|tree: Map<Seq<u8>, Seq<u8>>| #[trigger] records(index, tree) implies records(again, tree) by {
        assert forall|i: int|
            0 <= i < again.files@.len() && !bitmap_ids(again.removed_ids).contains(i as u32) && tree.contains_key(
                (#[trigger] again.files@[i])@,
            ) implies recorded(again.postings@, i as u32) == content_trigrams(tree[again.files@[i]@]) by {
            assert(strings_of(again.files@)[i] == strings_of(index.files@)[i]);
            assert(index.files@[i]@ == again.files@[i]@);
        }
    }
}

/// A search with the index that was read again prints what the search with the
/// index that was built printed, on a tree that has not changed: `first` and
/// `second` are the candidates of the two as read.
pub proof fn second_search_prints_the_same(
    index: Index,
    data: Seq<u8>,
    again: Index,
    tree: Map<Seq<u8>, Seq<u8>>,
    pattern: Seq<char>,
    ignore_case: bool,
    first: Seq<SourceFile>,
    second: Seq<SourceFile>,
    root: Seq<u8>,
    opts: SearchOptions,
)
    requires
        parse_index(data) == Ok::<Option<IndexData>, LoadError>(Some(stored(index))),
        loaded(Ok(Some(again))) == parse_index(data),
        has_text_paths(index),
        reads(first, candidates(index, search_query(pattern, ignore_case)), tree),
        reads(second, candidates(again, search_query(pattern, ignore_case)), tree),
    ensures
        output_of(hits_of(first, effective_pattern(pattern, ignore_case), opts), root, opts) == output_of(
            hits_of(second, effective_pattern(pattern, ignore_case), opts),
            root,
            opts,
        ),
{
    let source = effective_pattern(pattern, ignore_case);
    let query = search_query(pattern, ignore_case);
    stored_index_answers_alike(index, data, again, query);
    lemma_hits_in_tree(first, candidates(index, query), tree, source, opts);
    lemma_hits_in_tree(second, candidates(again, query), tree, source, opts);
}

/// A search exits with 0 if a file is hit and with 1 if none is, whatever the
/// options.
pub proof fn exit_shows_whether_anything_matches(
    files: Seq<SourceFile>,
    pattern: Seq<char>,
    root: Seq<u8>,
    opts: SearchOptions,
)
    requires
        follows_tree(pattern),
    ensures
        ({
            let exit = exit_for(output_of(hits_of(files, pattern, opts), root, opts));
            let hit = exists|i: int|
                0 <= i < files.len() && ((#[trigger] files[i]).bytes matches Some(bytes) && is_hit(pattern, bytes@));
            &&& hit ==> exit == 0
            &&& !hit ==> exit == 1
        }),
{
    output_shows_whether_anything_matches(files, pattern, root, opts);
}

/// The paths in whose content a pattern matches are those that are hit, in their
/// order.
pub proof fn matching_paths_are_hit(paths: Strings, tree: Map<Seq<u8>, Seq<u8>>, pattern: Seq<char>)
    ensures
        matching(paths, tree, pattern) == paths.filter(
            |path: Seq<u8>| tree.contains_key(path) && is_hit(pattern, tree[path]),
        ),
    decreases paths.len(),
{
    reveal(Seq::filter);
    if paths.len() > 0 {
        matching_paths_are_hit(paths.drop_last(), tree, pattern);
    }
}

/// An indexed search exits with 0 if and only if the pattern matches in a file of
/// the index, as the file is now.
pub proof fn indexed_search_exits_by_what_is_there(
    index: Index,
    tree: Map<Seq<u8>, Seq<u8>>,
    pattern: Seq<char>,
    ignore_case: bool,
    found: Seq<SourceFile>,
    root: Seq<u8>,
    opts: SearchOptions,
)
    requires
        index.files@.len() <= 0x1_0000_0000,
        records(index, tree),
        follows_tree(effective_pattern(pattern, ignore_case)),
        reads(found, candidates(index, search_query(pattern, ignore_case)), tree),
    ensures
        exit_for(output_of(hits_of(found, effective_pattern(pattern, ignore_case), opts), root, opts)) == 0
            <==> exists|i: int|
            0 <= i < index.files@.len() && !bitmap_ids(index.removed_ids).contains(i as u32) && tree.contains_key(
                (#[trigger] index.files@[i])@,
            ) && is_hit(effective_pattern(pattern, ignore_case), tree[index.files@[i]@]),
{
    let source = effective_pattern(pattern, ignore_case);
    let query = search_query(pattern, ignore_case);
    let paths = candidates(index, query);
    let removed = bitmap_ids(index.removed_ids);
    exit_shows_whether_anything_matches(found, source, root, opts);
    if exists|k: int| 0 <= k < found.len() && ((#[trigger] found[k]).bytes matches Some(bytes) && is_hit(source, bytes@)) {
        let k = choose|k: int|
            0 <= k < found.len() && ((#[trigger] found[k]).bytes matches Some(bytes) && is_hit(source, bytes@));
        assert(found[k].rel_path@ == paths[k]);
        assert(paths.contains(paths[k]));
        resolved_is_live(strings_of(index.files@), removed, admitted(index.postings@, query), index.files@.len(), paths[k]);
        let wanted = admitted(index.postings@, query);
        let id = choose|id: u32|
            id < index.files@.len() && !removed.contains(id) && (wanted matches Some(ids) ==> ids.contains(id))
                && #[trigger] strings_of(index.files@)[id as int] == paths[k];
        assert(index.files@[id as int]@ == paths[k]);
    }
    if exists|i: int|
        0 <= i < index.files@.len() && !removed.contains(i as u32) && tree.contains_key((#[trigger] index.files@[i])@)
            && is_hit(source, tree[index.files@[i]@]) {
        let i = choose|i: int|
            0 <= i < index.files@.len() && !removed.contains(i as u32) && tree.contains_key(
                (#[trigger] index.files@[i])@,
            ) && is_hit(source, tree[index.files@[i]@]);
        let path = index.files@[i]@;
        candidates_keep_every_match(index, pattern, ignore_case, i as u32, tree[path]);
        let k = choose|k: int| 0 <= k < paths.len() && paths[k] == path;
        assert(found[k].rel_path@ == paths[k]);
        assert(found[k].bytes matches Some(bytes) && is_hit(source, bytes@));
    }
}

/// What is looked up is the query of the pattern as it is parsed, and where case is
/// ignored that of the parse tree with its letters made lower-case. A pattern that
/// does not parse as text asks for nothing.
pub proof fn the_parsed_pattern_is_looked_up(pattern: Seq<char>)
    ensures
        parsed(pattern) matches Some(expr) ==> search_query(pattern, false) == query_of(expr),
        parsed(pattern) is None ==> search_query(pattern, false).asks_nothing(),
        parsed("(?i:"@ + pattern + ")"@) matches Some(expr) ==> search_query(pattern, true) == query_of(expr.folded()),
        parsed("(?i:"@ + pattern + ")"@) is None ==> search_query(pattern, true).asks_nothing(),
{
}

} // verus!
