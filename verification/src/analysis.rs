//! Regex → trigram query analysis.
//!
//! For each subexpression five facts are tracked — can-empty, the exact set of
//! matched strings (if known), a set of prefixes, a set of suffixes, and a
//! boolean trigram query — and combined structurally. The result is a *sound*
//! trigram query: every document the regex matches in satisfies it (see
//! [`query_is_sound`]), so candidate selection never produces false negatives,
//! while staying far more precise than scanning literal runs.
//!
//! Reference: <https://swtch.com/~rsc/regexp/regexp4.html>

use vstd::prelude::*;
use vstd::utf8::{encode_scalar, is_scalar};

use crate::expr::{
    byte_ranges, char_ranges, exprs_of, in_ranges, lemma_expr_view, parsed, ranges_ordered, Expr, ExprSpec,
};
use crate::fold::folded_is_well_formed;
use crate::query::{
    conjunction, conjunction_is_and, disjunction, disjunction_is_or, satisfaction_is_monotone, string_set_query,
    string_set_query_means_some_string, Query, QuerySpec,
};
use crate::strings::{
    copy_bytes, cross, has_prefix_of, has_suffix_of, lemma_cross_contains, single_strings_are_kept, truncated,
    truncated_suffixes, truncation_covers_prefixes, truncation_covers_suffixes, StringSet, Strings, MAX_SET,
};
use crate::trigram::{substring_trigrams, trigram_set, trigrams, Trigram};

verus! {

/// Keep the exact set only while it has this few strings; beyond that it is
/// treated as unknown.
pub const MAX_EXACT: usize = 8;

/// A character class is enumerated only up to this many members.
pub const MAX_CLASS: u32 = 100;

/// What is known of the strings that an expression matches.
#[derive(Debug)]
pub struct Info {
    /// The empty string may be among them.
    pub can_empty: bool,
    /// All of them, or `None` if they are unknown or too many.
    pub exact: Option<StringSet>,
    /// Each of them starts with one of these.
    pub prefix: StringSet,
    /// Each of them ends with one of these.
    pub suffix: StringSet,
    /// Each document that contains one of them satisfies this.
    pub query: Query,
}

/// The mathematical form of an [`Info`].
#[verifier::ext_equal]
pub struct InfoSpec {
    pub can_empty: bool,
    pub exact: Option<Strings>,
    pub prefix: Strings,
    pub suffix: Strings,
    pub query: QuerySpec,
}

/// The strings of an exact set, if it is known.
pub open spec fn exact_view(exact: Option<StringSet>) -> Option<Strings> {
    match exact {
        Some(set) => Some(set@),
        None => None,
    }
}

impl View for Info {
    type V = InfoSpec;

    open spec fn view(&self) -> InfoSpec {
        InfoSpec {
            can_empty: self.can_empty,
            exact: exact_view(self.exact),
            prefix: self.prefix@,
            suffix: self.suffix@,
            query: self.query@,
        }
    }
}

/// The set that holds the empty string alone.
pub open spec fn empty_string() -> Strings {
    seq![Seq::<u8>::empty()]
}

/// Nothing is known of the matched strings.
pub open spec fn unknown_info() -> InfoSpec {
    InfoSpec {
        can_empty: true,
        exact: None,
        prefix: empty_string(),
        suffix: empty_string(),
        query: QuerySpec::All,
    }
}

/// The matched strings are exactly those of `set`.
pub open spec fn exact_info(can_empty: bool, set: Strings) -> InfoSpec {
    InfoSpec { can_empty, exact: Some(set), prefix: set, suffix: set, query: QuerySpec::All }
}

/// The number of code points in a class.
pub open spec fn class_size(ranges: Seq<(u32, u32)>) -> nat
    decreases ranges.len(),
{
    if ranges.len() == 0 {
        0
    } else {
        (class_size(ranges.drop_last()) + ranges.last().1 - ranges.last().0 + 1) as nat
    }
}

/// The UTF-8 form of a code point; empty for a surrogate, which has none.
pub open spec fn code_point_bytes(c: u32) -> Seq<u8> {
    if is_scalar(c) {
        encode_scalar(c)
    } else {
        Seq::empty()
    }
}

/// The UTF-8 forms of the code points from `lo` to `hi`.
pub open spec fn range_strings(lo: u32, hi: u32) -> Strings {
    Seq::new((hi - lo + 1) as nat, |i: int| code_point_bytes((lo + i) as u32))
}

/// The UTF-8 forms of the members of a class.
pub open spec fn class_strings(ranges: Seq<(u32, u32)>) -> Strings
    decreases ranges.len(),
{
    if ranges.len() == 0 {
        Seq::empty()
    } else {
        class_strings(ranges.drop_last()) + range_strings(ranges.last().0, ranges.last().1)
    }
}

/// What is known of a character class.
pub open spec fn class_info(ranges: Seq<(u32, u32)>) -> InfoSpec {
    if class_size(ranges) == 0 {
        InfoSpec {
            can_empty: false,
            exact: Some(Seq::empty()),
            prefix: Seq::empty(),
            suffix: Seq::empty(),
            query: QuerySpec::Never,
        }
    } else if class_size(ranges) > MAX_CLASS {
        unknown_info()
    } else {
        exact_info(false, class_strings(ranges))
    }
}

/// What is known of an expression repeated at least once.
pub open spec fn repeated(info: InfoSpec) -> InfoSpec {
    match info.exact {
        Some(set) => InfoSpec { exact: None, prefix: set, suffix: set, ..info },
        None => info,
    }
}

/// Some suffix of `x` and some prefix of `y` together have a trigram.
pub open spec fn seam_has_trigram(suffix: Strings, prefix: Strings) -> bool {
    exists|i: int, j: int|
        0 <= i < suffix.len() && 0 <= j < prefix.len() && (#[trigger] suffix[i]).len() + (#[trigger] prefix[j]).len()
            >= 3
}

/// What is known of `x` followed by `y`.
pub open spec fn concatenated(x: InfoSpec, y: InfoSpec) -> InfoSpec {
    let product = cross(x.exact->0, y.exact->0);
    let both = conjunction(x.query, y.query);
    InfoSpec {
        can_empty: x.can_empty && y.can_empty,
        exact: if x.exact is Some && y.exact is Some && product.len() <= MAX_EXACT {
            Some(product)
        } else {
            None
        },
        prefix: truncated(
            match x.exact {
                Some(set) => cross(set, y.prefix),
                None => if x.can_empty {
                    x.prefix + y.prefix
                } else {
                    x.prefix
                },
            },
        ),
        suffix: truncated_suffixes(
            match y.exact {
                Some(set) => cross(x.suffix, set),
                None => if y.can_empty {
                    y.suffix + x.suffix
                } else {
                    y.suffix
                },
            },
        ),
        // Trigrams that span the seam between the two.
        query: if x.exact is None && y.exact is None && x.suffix.len() <= MAX_SET && y.prefix.len() <= MAX_SET
            && seam_has_trigram(x.suffix, y.prefix) {
            conjunction(both, string_set_query(cross(x.suffix, y.prefix)))
        } else {
            both
        },
    }
}

/// What is known of `x` or `y`.
pub open spec fn alternated(x: InfoSpec, y: InfoSpec) -> InfoSpec {
    InfoSpec {
        can_empty: x.can_empty || y.can_empty,
        exact: if x.exact is Some && y.exact is Some {
            Some(x.exact->0 + y.exact->0)
        } else {
            None
        },
        prefix: truncated(x.prefix + y.prefix),
        suffix: truncated_suffixes(x.suffix + y.suffix),
        query: disjunction(x.query, y.query),
    }
}

/// What is known of an expression.
pub open spec fn info_of(expr: ExprSpec) -> InfoSpec
    decreases expr,
{
    match expr {
        ExprSpec::Empty => exact_info(true, empty_string()),
        ExprSpec::Literal(bytes) => exact_info(false, seq![bytes]),
        ExprSpec::ClassUnicode(ranges) => class_info(char_ranges(ranges)),
        ExprSpec::ClassBytes(ranges) => class_info(byte_ranges(ranges)),
        ExprSpec::Look => unknown_info(),
        ExprSpec::Repetition { counts, sub } => if counts.contains(0) {
            unknown_info()
        } else {
            repeated(info_of(*sub))
        },
        ExprSpec::Capture(sub) => info_of(*sub),
        ExprSpec::Concat(parts) => concat_info(parts),
        ExprSpec::Alternation(parts) => alternation_info(parts),
    }
}

/// What is known of expressions one after the other.
pub open spec fn concat_info(parts: Seq<ExprSpec>) -> InfoSpec
    decreases parts,
{
    if parts.len() == 0 {
        unknown_info()
    } else if parts.len() == 1 {
        info_of(parts[0])
    } else {
        concatenated(concat_info(parts.drop_last()), info_of(parts.last()))
    }
}

/// What is known of one of several expressions.
pub open spec fn alternation_info(parts: Seq<ExprSpec>) -> InfoSpec
    decreases parts,
{
    if parts.len() == 0 {
        unknown_info()
    } else if parts.len() == 1 {
        info_of(parts[0])
    } else {
        alternated(alternation_info(parts.drop_last()), info_of(parts.last()))
    }
}

/// The query with the exact / prefix / suffix trigrams folded in. An exact set
/// already subsumes the other two.
pub open spec fn folded_query(info: InfoSpec) -> QuerySpec {
    if info.exact is Some && (info.exact->0).len() > 0 {
        conjunction(info.query, string_set_query(info.exact->0))
    } else {
        let with_prefix = if info.prefix.len() > 0 {
            conjunction(info.query, string_set_query(info.prefix))
        } else {
            info.query
        };
        if info.suffix.len() > 0 {
            conjunction(with_prefix, string_set_query(info.suffix))
        } else {
            with_prefix
        }
    }
}

/// The trigram query of an expression.
pub open spec fn query_of(expr: ExprSpec) -> QuerySpec {
    folded_query(info_of(expr))
}

/// The trigram query of a pattern; one with a syntax error prunes nothing.
pub open spec fn pattern_query(pattern: Seq<char>) -> QuerySpec {
    match parsed(pattern) {
        Some(expr) => query_of(expr),
        None => QuerySpec::All,
    }
}

/// The trigram query of a pattern with its letters made lower-case.
pub open spec fn folded_pattern_query(pattern: Seq<char>) -> QuerySpec {
    match parsed(pattern) {
        Some(expr) => query_of(expr.folded()),
        None => QuerySpec::All,
    }
}

/// What `info` says holds of the string `s`.
pub open spec fn covers(info: InfoSpec, s: Seq<u8>) -> bool {
    &&& info.exact matches Some(set) ==> set.contains(s)
    &&& has_prefix_of(info.prefix, s)
    &&& has_suffix_of(info.suffix, s)
    &&& info.query.satisfied(trigram_set(s))
}

proof fn lemma_exact_covers(can_empty: bool, set: Strings, s: Seq<u8>)
    requires
        set.contains(s),
    ensures
        covers(exact_info(can_empty, set), s),
{
    let i = choose|i: int| 0 <= i < set.len() && set[i] == s;
    assert(s.subrange(0, s.len() as int) =~= s);
    assert(set[i].is_prefix_of(s));
    assert(set[i].is_suffix_of(s));
}

proof fn lemma_unknown_covers(s: Seq<u8>)
    ensures
        covers(unknown_info(), s),
{
    let e = empty_string();
    assert(s.subrange(0, 0) =~= e[0]);
    assert(s.subrange(s.len() as int, s.len() as int) =~= e[0]);
    assert(e[0].is_prefix_of(s));
    assert(e[0].is_suffix_of(s));
}

proof fn lemma_class_size(ranges: Seq<(u32, u32)>)
    requires
        ranges_ordered(ranges),
        ranges.len() > 0,
    ensures
        class_size(ranges) > 0,
{
    assert(ranges[ranges.len() - 1] == ranges.last());
}

proof fn lemma_class_strings(ranges: Seq<(u32, u32)>, c: u32)
    requires
        in_ranges(ranges, c),
    ensures
        class_strings(ranges).contains(code_point_bytes(c)),
    decreases ranges.len(),
{
    let i = choose|i: int| 0 <= i < ranges.len() && (#[trigger] ranges[i]).0 <= c <= ranges[i].1;
    let init = class_strings(ranges.drop_last());
    let tail = range_strings(ranges.last().0, ranges.last().1);
    if i < ranges.len() - 1 {
        assert(ranges.drop_last()[i] == ranges[i]);
        lemma_class_strings(ranges.drop_last(), c);
        let k = choose|k: int| 0 <= k < init.len() && init[k] == code_point_bytes(c);
        assert((init + tail)[k] == code_point_bytes(c));
    } else {
        let k = c - ranges[i].0;
        assert(tail[k] == code_point_bytes(c));
        assert((init + tail)[init.len() + k] == code_point_bytes(c));
    }
}

proof fn lemma_class_covers(ranges: Seq<(u32, u32)>, c: u32)
    requires
        ranges_ordered(ranges),
        in_ranges(ranges, c),
        is_scalar(c),
    ensures
        covers(class_info(ranges), encode_scalar(c)),
{
    lemma_class_size(ranges);
    if class_size(ranges) > MAX_CLASS {
        lemma_unknown_covers(encode_scalar(c));
    } else {
        lemma_class_strings(ranges, c);
        lemma_exact_covers(false, class_strings(ranges), encode_scalar(c));
    }
}

proof fn lemma_prefix_of_sum(set: Strings, a: Seq<u8>, b: Seq<u8>)
    requires
        has_prefix_of(set, a),
    ensures
        has_prefix_of(set, a + b),
{
    let i = choose|i: int| 0 <= i < set.len() && (#[trigger] set[i]).is_prefix_of(a);
    assert((a + b).subrange(0, set[i].len() as int) =~= a.subrange(0, set[i].len() as int));
    assert(set[i].is_prefix_of(a + b));
}

proof fn lemma_suffix_of_sum(set: Strings, a: Seq<u8>, b: Seq<u8>)
    requires
        has_suffix_of(set, b),
    ensures
        has_suffix_of(set, a + b),
{
    let i = choose|i: int| 0 <= i < set.len() && (#[trigger] set[i]).is_suffix_of(b);
    let s = a + b;
    let n = set[i].len();
    assert(s.subrange(s.len() - n, s.len() as int) =~= b.subrange(b.len() - n, b.len() as int));
    assert(set[i].is_suffix_of(s));
}

proof fn lemma_prefix_of_union(a: Strings, b: Strings, s: Seq<u8>)
    requires
        has_prefix_of(a, s) || has_prefix_of(b, s),
    ensures
        has_prefix_of(a + b, s),
{
    if has_prefix_of(a, s) {
        let i = choose|i: int| 0 <= i < a.len() && (#[trigger] a[i]).is_prefix_of(s);
        assert((a + b)[i].is_prefix_of(s));
    } else {
        let i = choose|i: int| 0 <= i < b.len() && (#[trigger] b[i]).is_prefix_of(s);
        assert((a + b)[a.len() + i].is_prefix_of(s));
    }
}

proof fn lemma_suffix_of_union(a: Strings, b: Strings, s: Seq<u8>)
    requires
        has_suffix_of(a, s) || has_suffix_of(b, s),
    ensures
        has_suffix_of(a + b, s),
{
    if has_suffix_of(a, s) {
        let i = choose|i: int| 0 <= i < a.len() && (#[trigger] a[i]).is_suffix_of(s);
        assert((a + b)[i].is_suffix_of(s));
    } else {
        let i = choose|i: int| 0 <= i < b.len() && (#[trigger] b[i]).is_suffix_of(s);
        assert((a + b)[a.len() + i].is_suffix_of(s));
    }
}

/// A product with a set that holds `a` covers the starts of `a + b`.
proof fn lemma_prefix_of_cross(set: Strings, prefix: Strings, a: Seq<u8>, b: Seq<u8>)
    requires
        set.contains(a),
        has_prefix_of(prefix, b),
    ensures
        has_prefix_of(cross(set, prefix), a + b),
{
    let i = choose|i: int| 0 <= i < set.len() && set[i] == a;
    let j = choose|j: int| 0 <= j < prefix.len() && (#[trigger] prefix[j]).is_prefix_of(b);
    lemma_cross_contains(set, prefix, i, j);
    let x = a + prefix[j];
    let k = choose|k: int| 0 <= k < cross(set, prefix).len() && cross(set, prefix)[k] == x;
    assert((a + b).subrange(0, x.len() as int) =~= a + b.subrange(0, prefix[j].len() as int));
    assert(cross(set, prefix)[k].is_prefix_of(a + b));
}

proof fn lemma_suffix_of_cross(suffix: Strings, set: Strings, a: Seq<u8>, b: Seq<u8>)
    requires
        has_suffix_of(suffix, a),
        set.contains(b),
    ensures
        has_suffix_of(cross(suffix, set), a + b),
{
    let i = choose|i: int| 0 <= i < suffix.len() && (#[trigger] suffix[i]).is_suffix_of(a);
    let j = choose|j: int| 0 <= j < set.len() && set[j] == b;
    lemma_cross_contains(suffix, set, i, j);
    let x = suffix[i] + b;
    let k = choose|k: int| 0 <= k < cross(suffix, set).len() && cross(suffix, set)[k] == x;
    let s = a + b;
    assert(s.subrange(s.len() - x.len(), s.len() as int) =~= a.subrange(a.len() - suffix[i].len(), a.len() as int) + b);
    assert(cross(suffix, set)[k].is_suffix_of(s));
}

/// The trigrams across a seam are in the concatenation.
proof fn lemma_seam(suffix: Strings, prefix: Strings, a: Seq<u8>, b: Seq<u8>)
    requires
        has_suffix_of(suffix, a),
        has_prefix_of(prefix, b),
    ensures
        string_set_query(cross(suffix, prefix)).satisfied(trigram_set(a + b)),
{
    let i = choose|i: int| 0 <= i < suffix.len() && (#[trigger] suffix[i]).is_suffix_of(a);
    let j = choose|j: int| 0 <= j < prefix.len() && (#[trigger] prefix[j]).is_prefix_of(b);
    lemma_cross_contains(suffix, prefix, i, j);
    let both = cross(suffix, prefix);
    let x = suffix[i] + prefix[j];
    let k = choose|k: int| 0 <= k < both.len() && both[k] == x;
    let start = a.len() - suffix[i].len();
    let s = a + b;
    assert(s.subrange(start, start + x.len()) =~= a.subrange(start, a.len() as int) + b.subrange(
        0,
        prefix[j].len() as int,
    ));
    substring_trigrams(s, start, start + x.len());
    assert(trigram_set(both[k]).subset_of(trigram_set(s)));
    string_set_query_means_some_string(both, trigram_set(s));
}

proof fn lemma_query_of_sum(q: QuerySpec, a: Seq<u8>, b: Seq<u8>)
    ensures
        q.satisfied(trigram_set(a)) ==> q.satisfied(trigram_set(a + b)),
        q.satisfied(trigram_set(b)) ==> q.satisfied(trigram_set(a + b)),
{
    let s = a + b;
    substring_trigrams(s, 0, a.len() as int);
    substring_trigrams(s, a.len() as int, s.len() as int);
    assert(s.subrange(0, a.len() as int) =~= a);
    assert(s.subrange(a.len() as int, s.len() as int) =~= b);
    if q.satisfied(trigram_set(a)) {
        satisfaction_is_monotone(q, trigram_set(a), trigram_set(s));
    }
    if q.satisfied(trigram_set(b)) {
        satisfaction_is_monotone(q, trigram_set(b), trigram_set(s));
    }
}

proof fn lemma_concatenated_covers(x: InfoSpec, y: InfoSpec, a: Seq<u8>, b: Seq<u8>)
    requires
        covers(x, a),
        covers(y, b),
    ensures
        covers(concatenated(x, y), a + b),
{
    let s = a + b;
    let has = trigram_set(s);
    let both = conjunction(x.query, y.query);
    if x.exact is Some && y.exact is Some {
        let (p, q) = (x.exact->0, y.exact->0);
        let i = choose|i: int| 0 <= i < p.len() && p[i] == a;
        let j = choose|j: int| 0 <= j < q.len() && q[j] == b;
        lemma_cross_contains(p, q, i, j);
    }
    lemma_query_of_sum(x.query, a, b);
    lemma_query_of_sum(y.query, a, b);
    conjunction_is_and(x.query, y.query, has);
    lemma_seam(x.suffix, y.prefix, a, b);
    conjunction_is_and(both, string_set_query(cross(x.suffix, y.prefix)), has);

    let starts = match x.exact {
        Some(set) => cross(set, y.prefix),
        None => if x.can_empty {
            x.prefix + y.prefix
        } else {
            x.prefix
        },
    };
    assert(has_prefix_of(starts, s)) by {
        if let Some(set) = x.exact {
            lemma_prefix_of_cross(set, y.prefix, a, b);
        } else {
            lemma_prefix_of_sum(x.prefix, a, b);
            lemma_prefix_of_union(x.prefix, y.prefix, s);
        }
    }
    truncation_covers_prefixes(starts, s);

    let ends = match y.exact {
        Some(set) => cross(x.suffix, set),
        None => if y.can_empty {
            y.suffix + x.suffix
        } else {
            y.suffix
        },
    };
    assert(has_suffix_of(ends, s)) by {
        if let Some(set) = y.exact {
            lemma_suffix_of_cross(x.suffix, set, a, b);
        } else {
            lemma_suffix_of_sum(y.suffix, a, b);
            lemma_suffix_of_union(y.suffix, x.suffix, s);
        }
    }
    truncation_covers_suffixes(ends, s);
}

proof fn lemma_alternated_covers(x: InfoSpec, y: InfoSpec, s: Seq<u8>)
    requires
        covers(x, s) || covers(y, s),
    ensures
        covers(alternated(x, y), s),
{
    disjunction_is_or(x.query, y.query, trigram_set(s));
    lemma_prefix_of_union(x.prefix, y.prefix, s);
    lemma_suffix_of_union(x.suffix, y.suffix, s);
    truncation_covers_prefixes(x.prefix + y.prefix, s);
    truncation_covers_suffixes(x.suffix + y.suffix, s);
    if x.exact is Some && y.exact is Some {
        let (p, q) = (x.exact->0, y.exact->0);
        if p.contains(s) {
            let i = choose|i: int| 0 <= i < p.len() && p[i] == s;
            assert((p + q)[i] == s);
        } else {
            let i = choose|i: int| 0 <= i < q.len() && q[i] == s;
            assert((p + q)[p.len() + i] == s);
        }
    }
}

/// Repetitions end with a copy of what is repeated.
proof fn lemma_last_copy(expr: ExprSpec, n: nat, s: Seq<u8>) -> (k: int)
    requires
        n > 0,
        expr.matches_times(n, s),
    ensures
        0 <= k <= s.len(),
        expr.matches(s.skip(k)),
    decreases n,
{
    let first = choose|k: int|
        0 <= k <= s.len() && expr.matches(#[trigger] s.take(k)) && expr.matches_times((n - 1) as nat, s.skip(k));
    if n == 1 {
        assert(s.skip(first).len() == 0);
        assert(s.take(first) =~= s);
        assert(s.skip(0) =~= s);
        0
    } else {
        let k = lemma_last_copy(expr, (n - 1) as nat, s.skip(first));
        assert(s.skip(first).skip(k) =~= s.skip(first + k));
        first + k
    }
}

proof fn lemma_repeated_covers(info: InfoSpec, s: Seq<u8>, first: int, last: int)
    requires
        0 <= first <= s.len(),
        0 <= last <= s.len(),
        covers(info, s.take(first)),
        covers(info, s.skip(last)),
    ensures
        covers(repeated(info), s),
{
    let (a, b) = (s.take(first), s.skip(first));
    let (c, d) = (s.take(last), s.skip(last));
    assert(a + b =~= s);
    assert(c + d =~= s);
    lemma_query_of_sum(info.query, a, b);
    if let Some(set) = info.exact {
        lemma_exact_covers(false, set, a);
        lemma_exact_covers(false, set, d);
        lemma_prefix_of_sum(set, a, b);
        lemma_suffix_of_sum(set, c, d);
    } else {
        lemma_prefix_of_sum(info.prefix, a, b);
        lemma_suffix_of_sum(info.suffix, c, d);
    }
}

/// What is tracked of an expression holds of every string it matches.
pub proof fn info_covers_matches(expr: ExprSpec, s: Seq<u8>)
    requires
        expr.well_formed(),
        expr.matches(s),
    ensures
        covers(info_of(expr), s),
    decreases expr,
{
    match expr {
        ExprSpec::Empty => {
            assert(s =~= Seq::<u8>::empty());
            assert(empty_string()[0] == s);
            lemma_exact_covers(true, empty_string(), s);
        },
        ExprSpec::Literal(bytes) => {
            assert(seq![bytes][0] == s);
            lemma_exact_covers(false, seq![bytes], s);
        },
        ExprSpec::ClassUnicode(ranges) => {
            let c = choose|c: u32| #[trigger]
                is_scalar(c) && in_ranges(char_ranges(ranges), c) && s == encode_scalar(c);
            lemma_class_covers(char_ranges(ranges), c);
        },
        ExprSpec::ClassBytes(ranges) => {
            let c = s[0] as u32;
            let all = byte_ranges(ranges);
            let i = choose|i: int| 0 <= i < all.len() && (#[trigger] all[i]).0 <= c <= all[i].1;
            assert(all[i].1 == ranges[i].1 as u32);
            assert((c & 0x7f) == c) by (bit_vector)
                requires
                    c <= 0x7f,
            ;
            assert(encode_scalar(c) =~= s);
            lemma_class_covers(all, c);
        },
        ExprSpec::Look => {
            lemma_unknown_covers(s);
        },
        ExprSpec::Repetition { counts, sub } => {
            if counts.contains(0) {
                lemma_unknown_covers(s);
            } else {
                let n = choose|n: int|
                    n >= 0 && #[trigger] counts.contains(n) && (*sub).matches_times(n as nat, s);
                let first = choose|k: int|
                    0 <= k <= s.len() && (*sub).matches(#[trigger] s.take(k)) && (*sub).matches_times(
                        (n - 1) as nat,
                        s.skip(k),
                    );
                let last = lemma_last_copy(*sub, n as nat, s);
                info_covers_matches(*sub, s.take(first));
                info_covers_matches(*sub, s.skip(last));
                lemma_repeated_covers(info_of(*sub), s, first, last);
            }
        },
        ExprSpec::Capture(sub) => {
            info_covers_matches(*sub, s);
        },
        ExprSpec::Concat(parts) => {
            lemma_concat_covers(parts, s);
        },
        ExprSpec::Alternation(parts) => {
            let i = choose|i: int| 0 <= i < parts.len() && (#[trigger] parts[i]).matches(s);
            lemma_alternation_covers(parts, i, s);
        },
    }
}

proof fn lemma_concat_covers(parts: Seq<ExprSpec>, s: Seq<u8>)
    requires
        parts.len() > 0,
        forall|i: int| 0 <= i < parts.len() ==> (#[trigger] parts[i]).well_formed(),
        ExprSpec::matches_in_turn(parts, s),
    ensures
        covers(concat_info(parts), s),
    decreases parts,
{
    let init = parts.drop_last();
    let k = choose|k: int|
        0 <= k <= s.len() && ExprSpec::matches_in_turn(init, #[trigger] s.take(k)) && parts.last().matches(s.skip(k));
    info_covers_matches(parts.last(), s.skip(k));
    if parts.len() == 1 {
        assert(s.skip(k) =~= s);
    } else {
        assert forall|i: int| 0 <= i < init.len() implies (#[trigger] init[i]).well_formed() by {
            assert(init[i] == parts[i]);
        }
        lemma_concat_covers(init, s.take(k));
        lemma_concatenated_covers(concat_info(init), info_of(parts.last()), s.take(k), s.skip(k));
        assert(s.take(k) + s.skip(k) =~= s);
    }
}

proof fn lemma_alternation_covers(parts: Seq<ExprSpec>, i: int, s: Seq<u8>)
    requires
        0 <= i < parts.len(),
        parts[i].well_formed(),
        parts[i].matches(s),
    ensures
        covers(alternation_info(parts), s),
    decreases parts,
{
    if parts.len() == 1 {
        info_covers_matches(parts[0], s);
    } else {
        let init = parts.drop_last();
        if i < parts.len() - 1 {
            assert(init[i] == parts[i]);
            lemma_alternation_covers(init, i, s);
        } else {
            info_covers_matches(parts.last(), s);
        }
        lemma_alternated_covers(alternation_info(init), info_of(parts.last()), s);
    }
}

proof fn lemma_covered_set(set: Strings, s: Seq<u8>)
    requires
        has_prefix_of(set, s) || has_suffix_of(set, s),
    ensures
        string_set_query(set).satisfied(trigram_set(s)),
{
    string_set_query_means_some_string(set, trigram_set(s));
    if has_prefix_of(set, s) {
        let i = choose|i: int| 0 <= i < set.len() && (#[trigger] set[i]).is_prefix_of(s);
        substring_trigrams(s, 0, set[i].len() as int);
        assert(trigram_set(set[i]).subset_of(trigram_set(s)));
    } else {
        let i = choose|i: int| 0 <= i < set.len() && (#[trigger] set[i]).is_suffix_of(s);
        substring_trigrams(s, s.len() - set[i].len(), s.len() as int);
        assert(trigram_set(set[i]).subset_of(trigram_set(s)));
    }
}

/// The query of an expression is sound: a document in which the expression
/// matches somewhere satisfies it, so no match is ever pruned.
pub proof fn query_is_sound(expr: ExprSpec, text: Seq<u8>, start: int, end: int)
    requires
        expr.well_formed(),
        0 <= start <= end <= text.len(),
        expr.matches(text.subrange(start, end)),
    ensures
        query_of(expr).satisfied(trigram_set(text)),
{
    let s = text.subrange(start, end);
    let has = trigram_set(s);
    let info = info_of(expr);
    info_covers_matches(expr, s);
    if info.exact is Some && (info.exact->0).len() > 0 {
        let set = info.exact->0;
        lemma_exact_covers(false, set, s);
        lemma_covered_set(set, s);
        conjunction_is_and(info.query, string_set_query(set), has);
    } else {
        lemma_covered_set(info.prefix, s);
        lemma_covered_set(info.suffix, s);
        conjunction_is_and(info.query, string_set_query(info.prefix), has);
        conjunction_is_and(conjunction(info.query, string_set_query(info.prefix)), string_set_query(info.suffix), has);
        conjunction_is_and(info.query, string_set_query(info.suffix), has);
    }
    substring_trigrams(text, start, end);
    satisfaction_is_monotone(query_of(expr), has, trigram_set(text));
}

/// The UTF-8 form of a code point; empty for a surrogate, which has none.
pub fn encode_code_point(c: u32) -> (out: Vec<u8>)
    ensures
        out@ == code_point_bytes(c),
{
    let mut out: Vec<u8> = Vec::with_capacity(4);
    if c <= 0x7f {
        out.push((c & 0x7f) as u8);
    } else if c <= 0x7ff {
        out.push(0xc0u8 | ((c >> 6) & 0x1f) as u8);
        out.push(0x80u8 | (c & 0x3f) as u8);
    } else if c <= 0xffff && !(0xd800 <= c && c <= 0xdfff) {
        out.push(0xe0u8 | ((c >> 12) & 0x0f) as u8);
        out.push(0x80u8 | ((c >> 6) & 0x3f) as u8);
        out.push(0x80u8 | (c & 0x3f) as u8);
    } else if 0x10000 <= c && c <= 0x10ffff {
        out.push(0xf0u8 | ((c >> 18) & 0x7) as u8);
        out.push(0x80u8 | ((c >> 12) & 0x3f) as u8);
        out.push(0x80u8 | ((c >> 6) & 0x3f) as u8);
        out.push(0x80u8 | (c & 0x3f) as u8);
    }
    assert(out@ =~= code_point_bytes(c));
    out
}

impl Clone for Info {
    fn clone(&self) -> (out: Info)
        ensures
            out@ == self@,
    {
        Info {
            can_empty: self.can_empty,
            exact: match &self.exact {
                Some(set) => Some(set.clone()),
                None => None,
            },
            prefix: self.prefix.clone(),
            suffix: self.suffix.clone(),
            query: self.query.clone(),
        }
    }
}

impl Info {
    /// Stars / option can match the empty string and impose no required bytes,
    /// but they keep an empty-string prefix/suffix so concatenation still
    /// propagates neighbours across them.
    pub fn any_match() -> (out: Info)
        ensures
            out@ == unknown_info(),
    {
        let prefix = StringSet::one(Vec::new());
        let suffix = StringSet::one(Vec::new());
        assert(prefix@ =~= empty_string());
        assert(suffix@ =~= empty_string());
        Info { can_empty: true, exact: None, prefix, suffix, query: Query::All }
    }

    /// The matched strings are exactly those of `set`.
    fn exactly(can_empty: bool, set: StringSet) -> (out: Info)
        ensures
            out@ == exact_info(can_empty, set@),
    {
        Info { can_empty, exact: Some(set.clone()), prefix: set.clone(), suffix: set, query: Query::All }
    }
}

/// The number of code points in a class, at most `u32::MAX`.
fn count_class(ranges: &Vec<(u32, u32)>) -> (count: u32)
    requires
        ranges_ordered(ranges@),
        forall|i: int| 0 <= i < ranges@.len() ==> (#[trigger] ranges@[i]).1 <= 0x10ffff,
    ensures
        count == if class_size(ranges@) <= u32::MAX {
            class_size(ranges@)
        } else {
            u32::MAX as nat
        },
{
    let mut count: u32 = 0;
    let mut i: usize = 0;
    while i < ranges.len()
        invariant
            i <= ranges@.len(),
            ranges_ordered(ranges@),
            forall|i: int| 0 <= i < ranges@.len() ==> (#[trigger] ranges@[i]).1 <= 0x10ffff,
            count == if class_size(ranges@.take(i as int)) <= u32::MAX {
                class_size(ranges@.take(i as int))
            } else {
                u32::MAX as nat
            },
        decreases ranges@.len() - i,
    {
        let (lo, hi) = ranges[i];
        assert(ranges@.take(i + 1).drop_last() =~= ranges@.take(i as int));
        assert(ranges@.take(i + 1).last() == ranges@[i as int]);
        assert(ranges@[i as int].0 <= ranges@[i as int].1);
        count = count.saturating_add(hi - lo + 1);
        i += 1;
    }
    assert(ranges@.take(i as int) =~= ranges@);
    count
}

/// The UTF-8 forms of the members of a class.
fn enumerate_class(ranges: &Vec<(u32, u32)>) -> (out: StringSet)
    requires
        ranges_ordered(ranges@),
    ensures
        out@ == class_strings(ranges@),
{
    let mut out = StringSet::empty();
    let mut i: usize = 0;
    while i < ranges.len()
        invariant
            i <= ranges@.len(),
            ranges_ordered(ranges@),
            out@ =~= class_strings(ranges@.take(i as int)),
        decreases ranges@.len() - i,
    {
        let (lo, hi) = ranges[i];
        let ghost done = out@;
        let ghost tail = range_strings(lo, hi);
        let mut ch: u32 = lo;
        assert(ranges@[i as int].0 <= ranges@[i as int].1);
        assert(done + tail.take(0) =~= done);
        loop
            invariant_except_break
                lo <= ch <= hi,
                out@ =~= done + tail.take(ch - lo),
            invariant
                tail == range_strings(lo, hi),
                lo <= hi,
            ensures
                out@ =~= done + tail,
            decreases hi - ch,
        {
            out.add(encode_code_point(ch));
            assert(tail[ch - lo] == code_point_bytes(ch));
            assert(done + tail.take(ch - lo + 1) =~= (done + tail.take(ch - lo)).push(tail[ch - lo]));
            if ch == hi {
                assert(tail.take(ch - lo + 1) =~= tail);
                break;
            }
            ch += 1;
        }
        assert(ranges@.take(i + 1).drop_last() =~= ranges@.take(i as int));
        assert(ranges@.take(i + 1).last() == ranges@[i as int]);
        i += 1;
    }
    assert(ranges@.take(i as int) =~= ranges@);
    out
}

/// What is known of a character class, given as inclusive ranges of code
/// points.
fn analyze_class(ranges: &Vec<(u32, u32)>) -> (out: Info)
    requires
        ranges_ordered(ranges@),
        forall|i: int| 0 <= i < ranges@.len() ==> (#[trigger] ranges@[i]).1 <= 0x10ffff,
    ensures
        out@ == class_info(ranges@),
{
    let count = count_class(ranges);
    if count == 0 {
        return Info {
            can_empty: false,
            exact: Some(StringSet::empty()),
            prefix: StringSet::empty(),
            suffix: StringSet::empty(),
            query: Query::Never,
        };
    }
    if count > MAX_CLASS {
        return Info::any_match();
    }
    Info::exactly(false, enumerate_class(ranges))
}

/// The code points of a class of scalar values.
fn unicode_ranges(ranges: &Vec<(char, char)>) -> (out: Vec<(u32, u32)>)
    ensures
        out@ == char_ranges(ranges@),
{
    let mut out: Vec<(u32, u32)> = Vec::with_capacity(ranges.len());
    let mut i: usize = 0;
    while i < ranges.len()
        invariant
            i <= ranges@.len(),
            out@ =~= char_ranges(ranges@).take(i as int),
        decreases ranges@.len() - i,
    {
        out.push((ranges[i].0 as u32, ranges[i].1 as u32));
        i += 1;
    }
    assert(out@ =~= char_ranges(ranges@));
    out
}

/// The code points of a class of bytes.
fn ascii_ranges(ranges: &Vec<(u8, u8)>) -> (out: Vec<(u32, u32)>)
    ensures
        out@ == byte_ranges(ranges@),
{
    let mut out: Vec<(u32, u32)> = Vec::with_capacity(ranges.len());
    let mut i: usize = 0;
    while i < ranges.len()
        invariant
            i <= ranges@.len(),
            out@ =~= byte_ranges(ranges@).take(i as int),
        decreases ranges@.len() - i,
    {
        out.push((ranges[i].0 as u32, ranges[i].1 as u32));
        i += 1;
    }
    assert(out@ =~= byte_ranges(ranges@));
    out
}

/// Whether a suffix of one side and a prefix of the other have a trigram
/// together.
fn seam_ok(suffix: &StringSet, prefix: &StringSet) -> (out: bool)
    ensures
        out == seam_has_trigram(suffix@, prefix@),
{
    let mut i: usize = 0;
    while i < suffix.strings.len()
        invariant
            i <= suffix.strings@.len(),
            forall|k: int, j: int|
                0 <= k < i && 0 <= j < prefix@.len() ==> (#[trigger] suffix@[k]).len() + (#[trigger] prefix@[j]).len() < 3,
        decreases suffix.strings@.len() - i,
    {
        let mut j: usize = 0;
        while j < prefix.strings.len()
            invariant
                i < suffix.strings@.len(),
                j <= prefix.strings@.len(),
                forall|l: int| 0 <= l < j ==> suffix@[i as int].len() + (#[trigger] prefix@[l]).len() < 3,
            decreases prefix.strings@.len() - j,
        {
            let (a, b): (usize, usize) = (suffix.strings[i].len(), prefix.strings[j].len());
            if a >= 3 || b >= 3 || a + b >= 3 {
                assert(suffix@[i as int].len() + prefix@[j as int].len() >= 3);
                return true;
            }
            j += 1;
        }
        i += 1;
    }
    false
}

/// What is known of `x` followed by `y`.
pub fn concat(x: Info, y: Info) -> (out: Info)
    ensures
        out@ == concatenated(x@, y@),
{
    let can_empty = x.can_empty && y.can_empty;
    let exact = match (&x.exact, &y.exact) {
        (Some(a), Some(b)) => {
            let crossed = a.cross(b);
            if crossed.strings.len() <= MAX_EXACT {
                Some(crossed)
            } else {
                None
            }
        },
        _ => None,
    };

    // Cross-boundary trigrams: required trigrams spanning the seam between the
    // two subexpressions (e.g. `ab[cd]ef` ⇒ abc/bce/cef | abd/bde/def).
    let mut query = x.query.and(y.query);
    if x.exact.is_none() && y.exact.is_none() && x.suffix.strings.len() <= MAX_SET && y.prefix.strings.len()
        <= MAX_SET && seam_ok(&x.suffix, &y.prefix) {
        let seam = x.suffix.cross(&y.prefix);
        query = query.and(Query::from_string_set(&seam));
    }
    // The suffixes of a concatenation; the mirrored rule gives the prefixes.
    let mut suffix = match &y.exact {
        Some(ye) => x.suffix.cross(ye),
        None => if y.can_empty {
            y.suffix.union(x.suffix)
        } else {
            y.suffix
        },
    };
    let mut prefix = match &x.exact {
        Some(xe) => xe.cross(&y.prefix),
        None => if x.can_empty {
            x.prefix.union(y.prefix)
        } else {
            x.prefix
        },
    };
    prefix.truncate();
    suffix.truncate_suffixes();
    Info { can_empty, exact, prefix, suffix, query }
}

/// What is known of `x` or `y`.
pub fn alternate(x: Info, y: Info) -> (out: Info)
    ensures
        out@ == alternated(x@, y@),
{
    let can_empty = x.can_empty || y.can_empty;
    let exact = match (x.exact, y.exact) {
        (Some(a), Some(b)) => Some(a.union(b)),
        _ => None,
    };
    let mut prefix = x.prefix.union(y.prefix);
    let mut suffix = x.suffix.union(y.suffix);
    prefix.truncate();
    suffix.truncate_suffixes();
    let query = x.query.or(y.query);
    Info { can_empty, exact, prefix, suffix, query }
}

/// +, {n,m} with n>=1 — the body must occur at least once, so its required
/// trigrams still apply, but an exact match can no longer be claimed.
fn repeat(info: Info) -> (out: Info)
    ensures
        out@ == repeated(info@),
{
    match info.exact {
        Some(set) => Info {
            can_empty: info.can_empty,
            exact: None,
            prefix: set.clone(),
            suffix: set,
            query: info.query,
        },
        None => Info {
            can_empty: info.can_empty,
            exact: None,
            prefix: info.prefix,
            suffix: info.suffix,
            query: info.query,
        },
    }
}

/// What is known of expressions one after the other.
fn analyze_concat(parts: &Vec<Expr>) -> (out: Info)
    requires
        parts@.len() > 0,
        forall|i: int| 0 <= i < parts@.len() ==> (#[trigger] parts@[i])@.well_formed(),
    ensures
        out@ == concat_info(exprs_of(parts@)),
    decreases parts,
{
    let ghost all = exprs_of(parts@);
    let mut acc = analyze_expr(&parts[0]);
    let mut i: usize = 1;
    assert(all.take(1)[0] == parts@[0]@);
    while i < parts.len()
        invariant
            1 <= i <= parts@.len(),
            all == exprs_of(parts@),
            forall|i: int| 0 <= i < parts@.len() ==> (#[trigger] parts@[i])@.well_formed(),
            acc@ == concat_info(all.take(i as int)),
        decreases parts@.len() - i,
    {
        assert(decreases_to!(*parts => parts[i as int]));
        let next = analyze_expr(&parts[i]);
        acc = concat(acc, next);
        assert(all.take(i + 1).drop_last() =~= all.take(i as int));
        assert(all.take(i + 1).last() == parts@[i as int]@);
        i += 1;
    }
    assert(all.take(i as int) =~= all);
    acc
}

/// What is known of one of several expressions.
fn analyze_alternation(parts: &Vec<Expr>) -> (out: Info)
    requires
        parts@.len() > 0,
        forall|i: int| 0 <= i < parts@.len() ==> (#[trigger] parts@[i])@.well_formed(),
    ensures
        out@ == alternation_info(exprs_of(parts@)),
    decreases parts,
{
    let ghost all = exprs_of(parts@);
    let mut acc = analyze_expr(&parts[0]);
    let mut i: usize = 1;
    assert(all.take(1)[0] == parts@[0]@);
    while i < parts.len()
        invariant
            1 <= i <= parts@.len(),
            all == exprs_of(parts@),
            forall|i: int| 0 <= i < parts@.len() ==> (#[trigger] parts@[i])@.well_formed(),
            acc@ == alternation_info(all.take(i as int)),
        decreases parts@.len() - i,
    {
        assert(decreases_to!(*parts => parts[i as int]));
        let next = analyze_expr(&parts[i]);
        acc = alternate(acc, next);
        assert(all.take(i + 1).drop_last() =~= all.take(i as int));
        assert(all.take(i + 1).last() == parts@[i as int]@);
        i += 1;
    }
    assert(all.take(i as int) =~= all);
    acc
}

/// What is known of the strings that an expression matches.
pub fn analyze_expr(expr: &Expr) -> (out: Info)
    requires
        expr@.well_formed(),
    ensures
        out@ == info_of(expr@),
    decreases expr,
{
    proof {
        lemma_expr_view(*expr);
    }
    match expr {
        Expr::Empty => {
            let set = StringSet::one(Vec::new());
            assert(set@ =~= empty_string());
            Info::exactly(true, set)
        },
        Expr::Literal(bytes) => {
            let set = StringSet::one(copy_bytes(bytes));
            Info::exactly(false, set)
        },
        Expr::ClassUnicode(ranges) => {
            let points = unicode_ranges(ranges);
            assert forall|i: int| 0 <= i < points@.len() implies (#[trigger] points@[i]).1 <= 0x10ffff by {
                vstd::utf8::char_is_scalar(ranges@[i].1);
            }
            analyze_class(&points)
        },
        Expr::ClassBytes(ranges) => {
            let points = ascii_ranges(ranges);
            analyze_class(&points)
        },
        Expr::Look => Info::any_match(),
        Expr::Repetition { min, max, sub } => {
            assert(expr@->counts == crate::expr::repeats(*min, *max));
            if *min == 0 {
                // *, ?, {0,n} — the body is optional, so nothing is required.
                Info::any_match()
            } else {
                repeat(analyze_expr(sub))
            }
        },
        Expr::Capture(sub) => analyze_expr(sub),
        Expr::Concat(parts) => {
            assert forall|i: int| 0 <= i < parts@.len() implies (#[trigger] parts@[i])@.well_formed() by {
                assert(exprs_of(parts@)[i] == parts@[i]@);
            }
            analyze_concat(parts)
        },
        Expr::Alternation(parts) => {
            assert forall|i: int| 0 <= i < parts@.len() implies (#[trigger] parts@[i])@.well_formed() by {
                assert(exprs_of(parts@)[i] == parts@[i]@);
            }
            analyze_alternation(parts)
        },
    }
}

/// Fold the exact / prefix / suffix trigrams into the query. When the exact set
/// is known its trigrams already subsume the prefix/suffix ones, so only exact
/// is folded in that case to avoid redundant work.
pub fn simplify(info: Info) -> (query: Query)
    ensures
        query@ == folded_query(info@),
{
    let mut query = info.query;
    match &info.exact {
        Some(exact) => {
            if exact.strings.len() > 0 {
                return query.and(Query::from_string_set(exact));
            }
        },
        None => {},
    }
    if info.prefix.strings.len() > 0 {
        query = query.and(Query::from_string_set(&info.prefix));
    }
    if info.suffix.strings.len() > 0 {
        query = query.and(Query::from_string_set(&info.suffix));
    }
    query
}

/// The sound trigram query of a parsed expression.
pub fn analyze_parsed(expr: &Expr) -> (query: Query)
    requires
        expr@.well_formed(),
    ensures
        query@ == query_of(expr@),
{
    simplify(analyze_expr(expr))
}

/// Parse a pattern and produce the sound trigram query that drives candidate
/// selection. Returns [`Query::Never`] for patterns that can never match and
/// [`Query::All`] when the index cannot narrow the search.
pub fn analyze(pattern: &str) -> (query: Query)
    ensures
        query@ == pattern_query(pattern@),
{
    match Expr::parse(pattern) {
        Some(expr) => analyze_parsed(&expr),
        None => Query::All,
    }
}

/// The query of [`analyze`] for a pattern with its letters made lower-case, to be
/// looked up where case is ignored.
pub fn analyze_folded(pattern: &str) -> (query: Query)
    ensures
        query@ == folded_pattern_query(pattern@),
{
    match Expr::parse(pattern) {
        Some(expr) => {
            proof {
                folded_is_well_formed(expr@);
            }
            analyze_parsed(&expr.fold())
        },
        None => Query::All,
    }
}

/// A literal asks for each of its trigrams.
pub proof fn literals_ask_for_their_trigrams(bytes: Seq<u8>, has: Set<Trigram>)
    ensures
        query_of(ExprSpec::Literal(bytes)).satisfied(has) <==> forall|i: int|
            0 <= i < bytes.len() - 2 ==> has.contains(#[trigger] trigrams(bytes)[i]),
{
    let set = seq![bytes];
    let info = exact_info(false, set);
    conjunction_is_and(info.query, string_set_query(set), has);
    string_set_query_means_some_string(set, has);
    assert(set[0] == bytes);
    if trigram_set(bytes).subset_of(has) {
        assert forall|i: int| 0 <= i < bytes.len() - 2 implies has.contains(#[trigger] trigrams(bytes)[i]) by {
            assert(trigrams(bytes).contains(trigrams(bytes)[i]));
            assert(trigram_set(bytes).contains(trigrams(bytes)[i]));
        }
    }
    if forall|i: int| 0 <= i < bytes.len() - 2 ==> has.contains(#[trigger] trigrams(bytes)[i]) {
        assert forall|t: Trigram| trigram_set(bytes).contains(t) implies has.contains(t) by {
            let i = choose|i: int| 0 <= i < trigrams(bytes).len() && trigrams(bytes)[i] == t;
            assert(has.contains(trigrams(bytes)[i]));
        }
        assert(trigram_set(bytes).subset_of(has));
    }
}

/// Where the strings that an expression matches are known, its query asks for the
/// trigrams of one of them.
pub proof fn known_strings_are_asked_for(info: InfoSpec, has: Set<Trigram>)
    requires
        info.exact is Some,
        (info.exact->0).len() > 0,
    ensures
        folded_query(info).satisfied(has) <==> info.query.satisfied(has) && exists|i: int|
            0 <= i < (info.exact->0).len() && trigram_set(#[trigger] (info.exact->0)[i]).subset_of(has),
{
    conjunction_is_and(info.query, string_set_query(info.exact->0), has);
    string_set_query_means_some_string(info.exact->0, has);
}

/// One expression behind another asks for what both ask for; one of two asks for
/// what either does. What they match stays known while it is: behind one another up
/// to eight strings, side by side whatever their number.
pub proof fn compound_expressions_ask_for_their_parts(x: InfoSpec, y: InfoSpec, has: Set<Trigram>)
    ensures
        concatenated(x, y).query.satisfied(has) ==> x.query.satisfied(has) && y.query.satisfied(has),
        alternated(x, y).query.satisfied(has) <==> x.query.satisfied(has) || y.query.satisfied(has),
        concatenated(x, y).exact is Some <==> x.exact is Some && y.exact is Some && cross(x.exact->0, y.exact->0).len() <= 8,
        concatenated(x, y).exact is Some ==> concatenated(x, y).exact->0 == cross(x.exact->0, y.exact->0),
        x.exact is Some && y.exact is Some ==> alternated(x, y).exact == Some(x.exact->0 + y.exact->0),
        x.exact is None || y.exact is None ==> alternated(x, y).exact is None,
        concatenated(x, y).can_empty <==> x.can_empty && y.can_empty,
        alternated(x, y).can_empty <==> x.can_empty || y.can_empty,
{
    let both = conjunction(x.query, y.query);
    conjunction_is_and(x.query, y.query, has);
    conjunction_is_and(both, string_set_query(cross(x.suffix, y.prefix)), has);
    disjunction_is_or(x.query, y.query, has);
}

/// A class of up to a hundred members is known member by member, a larger one not
/// at all, and nothing matches an empty one.
pub proof fn small_classes_are_known(ranges: Seq<(u32, u32)>, has: Set<Trigram>)
    ensures
        1 <= class_size(ranges) <= 100 ==> class_info(ranges).exact == Some(class_strings(ranges)),
        class_size(ranges) > 100 ==> class_info(ranges).exact is None && class_info(ranges).query.satisfied(has),
        class_size(ranges) == 0 ==> !class_info(ranges).query.satisfied(has),
{
}

/// A group asks for what it holds, and what is repeated at least once asks for what
/// it asks for once.
pub proof fn groups_and_repetitions_ask_for_what_they_hold(expr: ExprSpec, counts: Set<int>, has: Set<Trigram>)
    ensures
        query_of(ExprSpec::Capture(Box::new(expr))) == query_of(expr),
        !counts.contains(0) && (info_of(expr).exact matches Some(set) ==> set.len() > 0) ==> (query_of(
            ExprSpec::Repetition { counts, sub: Box::new(expr) },
        ).satisfied(has) <==> query_of(expr).satisfied(has)),
{
    let info = info_of(expr);
    let again = repeated(info);
    if !counts.contains(0) && info.exact is Some && (info.exact->0).len() > 0 {
        let set = info.exact->0;
        let with_prefix = conjunction(info.query, string_set_query(set));
        conjunction_is_and(info.query, string_set_query(set), has);
        conjunction_is_and(with_prefix, string_set_query(set), has);
    }
}

/// Expressions behind one another ask for what the query of each asks for; of
/// several, one of them has to be met.
pub proof fn every_part_is_asked_for(parts: Seq<ExprSpec>, has: Set<Trigram>, i: int)
    requires
        0 <= i < parts.len(),
    ensures
        query_of(ExprSpec::Concat(parts)).satisfied(has) ==> info_of(parts[i]).query.satisfied(has),
        info_of(ExprSpec::Alternation(parts)).query.satisfied(has) <==> exists|k: int|
            0 <= k < parts.len() && info_of(#[trigger] parts[k]).query.satisfied(has),
{
    lemma_folded_implies(concat_info(parts), has);
    lemma_concat_parts(parts, has, i);
    lemma_alternation_parts(parts, has);
}

/// The query of an expression asks at least for what is known to hold inside.
proof fn lemma_folded_implies(info: InfoSpec, has: Set<Trigram>)
    ensures
        folded_query(info).satisfied(has) ==> info.query.satisfied(has),
{
    let with_prefix = conjunction(info.query, string_set_query(info.prefix));
    conjunction_is_and(info.query, string_set_query(info.exact->0), has);
    conjunction_is_and(info.query, string_set_query(info.prefix), has);
    conjunction_is_and(info.query, string_set_query(info.suffix), has);
    conjunction_is_and(with_prefix, string_set_query(info.suffix), has);
}

proof fn lemma_concat_parts(parts: Seq<ExprSpec>, has: Set<Trigram>, i: int)
    requires
        0 <= i < parts.len(),
    ensures
        concat_info(parts).query.satisfied(has) ==> info_of(parts[i]).query.satisfied(has),
    decreases parts.len(),
{
    if parts.len() > 1 {
        let init = parts.drop_last();
        compound_expressions_ask_for_their_parts(concat_info(init), info_of(parts.last()), has);
        if i < init.len() {
            lemma_concat_parts(init, has, i);
            assert(init[i] == parts[i]);
        }
    }
}

proof fn lemma_alternation_parts(parts: Seq<ExprSpec>, has: Set<Trigram>)
    requires
        parts.len() > 0,
    ensures
        alternation_info(parts).query.satisfied(has) <==> exists|k: int|
            0 <= k < parts.len() && info_of(#[trigger] parts[k]).query.satisfied(has),
    decreases parts.len(),
{
    let last = parts.len() - 1;
    if parts.len() == 1 {
        if info_of(parts[0]).query.satisfied(has) {
            assert(info_of(parts[0]).query.satisfied(has));
        }
    } else {
        let init = parts.drop_last();
        lemma_alternation_parts(init, has);
        compound_expressions_ask_for_their_parts(alternation_info(init), info_of(parts.last()), has);
        assert forall|k: int| 0 <= k < init.len() implies #[trigger] init[k] == parts[k] by {}
        if exists|k: int| 0 <= k < init.len() && info_of(#[trigger] init[k]).query.satisfied(has) {
            let k = choose|k: int| 0 <= k < init.len() && info_of(#[trigger] init[k]).query.satisfied(has);
            assert(info_of(parts[k]).query.satisfied(has));
        }
        if exists|k: int| 0 <= k < parts.len() && info_of(#[trigger] parts[k]).query.satisfied(has) {
            let k = choose|k: int| 0 <= k < parts.len() && info_of(#[trigger] parts[k]).query.satisfied(has);
            if k < init.len() {
                assert(info_of(init[k]).query.satisfied(has));
            } else {
                assert(info_of(parts[last]).query.satisfied(has));
            }
        }
    }
}

proof fn lemma_cross_one(a: Seq<u8>, b: Seq<u8>)
    ensures
        cross(seq![a], seq![b]) == seq![a + b],
{
    reveal_with_fuel(cross, 2);
    let one = seq![a];
    assert(one.drop_last() =~= Seq::<Seq<u8>>::empty());
    assert(one.last() == a);
    assert(seq![b].map_values(|r: Seq<u8>| one.last() + r) =~= seq![a + b]);
    assert(cross(one.drop_last(), seq![b]) =~= Seq::<Seq<u8>>::empty());
    assert(cross(one, seq![b]) =~= seq![a + b]);
}

/// What is known of a literal with something unknown behind it.
proof fn lemma_unknown_behind(a: Seq<u8>)
    ensures
        ({
            let xy = concatenated(exact_info(false, seq![a]), unknown_info());
            &&& xy.prefix == seq![a]
            &&& xy.suffix == empty_string()
            &&& xy.exact is None
            &&& !xy.can_empty
            &&& xy.query == QuerySpec::All
        }),
{
    let none = Seq::<u8>::empty();
    single_strings_are_kept(a);
    lemma_cross_one(a, none);
    assert(a + none =~= a);
    assert(empty_string() + seq![a] =~= seq![none, a]);
}

/// What is known of that with a literal behind it.
proof fn lemma_literal_behind(xy: InfoSpec, a: Seq<u8>, b: Seq<u8>)
    requires
        xy.prefix == seq![a],
        xy.suffix == empty_string(),
        xy.exact is None,
        !xy.can_empty,
        xy.query == QuerySpec::All,
    ensures
        ({
            let all = concatenated(xy, exact_info(false, seq![b]));
            &&& all.prefix == seq![a]
            &&& all.suffix == seq![b]
            &&& all.exact is None
            &&& all.query == QuerySpec::All
        }),
{
    let none = Seq::<u8>::empty();
    single_strings_are_kept(a);
    single_strings_are_kept(b);
    lemma_cross_one(none, b);
    assert(none + b =~= b);
}

/// A literal in front of something of which nothing is known, and one behind it, are
/// both asked for.
pub proof fn literals_around_the_unknown_are_asked_for(a: Seq<u8>, between: ExprSpec, b: Seq<u8>, has: Set<Trigram>)
    requires
        info_of(between) == unknown_info(),
    ensures
        query_of(ExprSpec::Concat(seq![ExprSpec::Literal(a), between, ExprSpec::Literal(b)])).satisfied(has)
            <==> trigram_set(a).subset_of(has) && trigram_set(b).subset_of(has),
{
    let parts = seq![ExprSpec::Literal(a), between, ExprSpec::Literal(b)];
    let two = seq![ExprSpec::Literal(a), between];
    let one = seq![ExprSpec::Literal(a)];
    let x = exact_info(false, seq![a]);
    let z = exact_info(false, seq![b]);
    assert(parts.drop_last() =~= two);
    assert(two.drop_last() =~= one);
    assert(info_of(ExprSpec::Literal(a)) == x);
    assert(info_of(ExprSpec::Literal(b)) == z);
    assert(one[0] == ExprSpec::Literal(a));
    assert(concat_info(one) == x);
    assert(two.last() == between);
    assert(concat_info(two) == concatenated(x, unknown_info()));
    assert(parts.last() == ExprSpec::Literal(b));
    let xy = concatenated(x, unknown_info());
    let all = concatenated(xy, z);
    assert(concat_info(parts) == all);
    lemma_unknown_behind(a);
    lemma_literal_behind(xy, a, b);
    let with_prefix = conjunction(QuerySpec::All, string_set_query(seq![a]));
    conjunction_is_and(QuerySpec::All, string_set_query(seq![a]), has);
    conjunction_is_and(with_prefix, string_set_query(seq![b]), has);
    string_set_query_means_some_string(seq![a], has);
    string_set_query_means_some_string(seq![b], has);
    assert(seq![a][0] == a && seq![b][0] == b);
}

} // verus!
