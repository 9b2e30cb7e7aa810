//! Boolean queries over trigrams.
//!
//! A [`Query`] says which trigrams a document has to contain to be worth
//! searching. [`crate::analysis`] derives one from a regex; [`evaluate`] turns
//! it into the set of candidate documents.

use roaring::RoaringBitmap;
use rustc_hash::FxHashMap;
use vstd::prelude::*;

pub use crate::analysis::analyze;
use crate::bitmap::{
    bitmap_ids, copy_bitmap, intersect_with, is_empty_bitmap, new_bitmap, unite_with,
};
use crate::fx;
use crate::strings::{StringSet, Strings};
use crate::trigram::{self, Trigram};

verus! {

/// A boolean query over trigrams.
#[derive(Debug, PartialEq, Eq)]
pub enum Query {
    /// No document can match (e.g. an empty character class).
    Never,
    /// Every document is a candidate — the index cannot help.
    All,
    /// Conjunction: all trigrams and all sub-queries must hold.
    And { trigrams: Vec<Trigram>, sub: Vec<Query> },
    /// Disjunction: any trigram or sub-query holding is sufficient.
    Or { trigrams: Vec<Trigram>, sub: Vec<Query> },
}

/// The mathematical form of a [`Query`].
#[verifier::ext_equal]
pub enum QuerySpec {
    Never,
    All,
    And { trigrams: Seq<Trigram>, sub: Seq<QuerySpec> },
    Or { trigrams: Seq<Trigram>, sub: Seq<QuerySpec> },
}

impl View for Query {
    type V = QuerySpec;

    open spec fn view(&self) -> QuerySpec
        decreases self,
    {
        match self {
            Query::Never => QuerySpec::Never,
            Query::All => QuerySpec::All,
            Query::And { trigrams, sub } => QuerySpec::And {
                trigrams: trigrams@,
                sub: Seq::new(
                    sub@.len(),
                    |i: int| if 0 <= i < sub@.len() { sub@[i].view() } else { QuerySpec::Never },
                ),
            },
            Query::Or { trigrams, sub } => QuerySpec::Or {
                trigrams: trigrams@,
                sub: Seq::new(
                    sub@.len(),
                    |i: int| if 0 <= i < sub@.len() { sub@[i].view() } else { QuerySpec::Never },
                ),
            },
        }
    }
}

/// The mathematical forms of several queries.
pub open spec fn queries_of(sub: Seq<Query>) -> Seq<QuerySpec> {
    sub.map_values(|q: Query| q@)
}

proof fn lemma_query_view(q: Query)
    ensures
        q matches Query::And { trigrams, sub } ==> q@ == (QuerySpec::And {
            trigrams: trigrams@,
            sub: queries_of(sub@),
        }),
        q matches Query::Or { trigrams, sub } ==> q@ == (QuerySpec::Or {
            trigrams: trigrams@,
            sub: queries_of(sub@),
        }),
{
    match q {
        Query::And { trigrams, sub } => {
            assert(q@->And_sub =~= queries_of(sub@));
        },
        Query::Or { trigrams, sub } => {
            assert(q@->Or_sub =~= queries_of(sub@));
        },
        _ => {},
    }
}

impl QuerySpec {
    /// Whether a document that contains exactly the trigrams `has` is a
    /// candidate.
    pub open spec fn satisfied(self, has: Set<Trigram>) -> bool
        decreases self,
    {
        match self {
            QuerySpec::Never => false,
            QuerySpec::All => true,
            QuerySpec::And { trigrams, sub } => {
                &&& forall|i: int| 0 <= i < trigrams.len() ==> has.contains(#[trigger] trigrams[i])
                &&& forall|i: int| 0 <= i < sub.len() ==> (#[trigger] sub[i]).satisfied(has)
            },
            QuerySpec::Or { trigrams, sub } => {
                ||| exists|i: int| 0 <= i < trigrams.len() && has.contains(#[trigger] trigrams[i])
                ||| exists|i: int| 0 <= i < sub.len() && (#[trigger] sub[i]).satisfied(has)
            },
        }
    }
}

/// `x` put in front of the trigrams at the end of `sorted` that are larger,
/// unless it is there already.
pub open spec fn insert_trigram(sorted: Seq<Trigram>, x: Trigram) -> Seq<Trigram>
    decreases sorted.len(),
{
    if sorted.len() == 0 || sorted.last() < x {
        sorted.push(x)
    } else if sorted.last() == x {
        sorted
    } else {
        insert_trigram(sorted.drop_last(), x).push(sorted.last())
    }
}

/// The distinct trigrams of `s`, ascending.
pub open spec fn distinct_trigrams(s: Seq<Trigram>) -> Seq<Trigram>
    decreases s.len(),
{
    if s.len() == 0 {
        s
    } else {
        insert_trigram(distinct_trigrams(s.drop_last()), s.last())
    }
}

/// The query that holds where both `l` and `r` hold, with nested conjunctions
/// merged.
pub open spec fn conjunction(l: QuerySpec, r: QuerySpec) -> QuerySpec {
    match (l, r) {
        (QuerySpec::Never, _) => QuerySpec::Never,
        (_, QuerySpec::Never) => QuerySpec::Never,
        (QuerySpec::All, _) => r,
        (_, QuerySpec::All) => l,
        (QuerySpec::And { trigrams: t, sub: s }, QuerySpec::And { trigrams: t2, sub: s2 }) => QuerySpec::And {
            trigrams: distinct_trigrams(t + t2),
            sub: s + s2,
        },
        (QuerySpec::And { trigrams, sub }, _) => QuerySpec::And { trigrams, sub: sub.push(r) },
        (_, QuerySpec::And { trigrams, sub }) => QuerySpec::And { trigrams, sub: sub.push(l) },
        _ => QuerySpec::And { trigrams: Seq::empty(), sub: seq![l, r] },
    }
}

/// The query that holds where `l` or `r` holds, with nested disjunctions
/// merged.
pub open spec fn disjunction(l: QuerySpec, r: QuerySpec) -> QuerySpec {
    match (l, r) {
        (QuerySpec::Never, _) => r,
        (_, QuerySpec::Never) => l,
        (QuerySpec::All, _) => QuerySpec::All,
        (_, QuerySpec::All) => QuerySpec::All,
        (QuerySpec::Or { trigrams: t, sub: s }, QuerySpec::Or { trigrams: t2, sub: s2 }) => QuerySpec::Or {
            trigrams: distinct_trigrams(t + t2),
            sub: s + s2,
        },
        (QuerySpec::Or { trigrams, sub }, _) => QuerySpec::Or { trigrams, sub: sub.push(r) },
        (_, QuerySpec::Or { trigrams, sub }) => QuerySpec::Or { trigrams, sub: sub.push(l) },
        _ => QuerySpec::Or { trigrams: Seq::empty(), sub: seq![l, r] },
    }
}

/// The query for documents that contain the string `s`.
pub open spec fn string_query(s: Seq<u8>) -> QuerySpec {
    if s.len() < 3 {
        QuerySpec::All
    } else {
        QuerySpec::And { trigrams: trigram::trigrams(s), sub: Seq::empty() }
    }
}

/// The query for documents that contain one of the strings.
pub open spec fn any_string_query(set: Strings) -> QuerySpec
    decreases set.len(),
{
    if set.len() == 0 {
        QuerySpec::Never
    } else {
        disjunction(any_string_query(set.drop_last()), string_query(set.last()))
    }
}

/// The query for a set of strings one of which a match has to contain; an
/// empty set says nothing.
pub open spec fn string_set_query(set: Strings) -> QuerySpec {
    if set.len() == 0 {
        QuerySpec::All
    } else {
        any_string_query(set)
    }
}

proof fn lemma_insert_trigram_contains(s: Seq<Trigram>, x: Trigram, y: Trigram)
    ensures
        insert_trigram(s, x).contains(y) <==> s.contains(y) || y == x,
    decreases s.len(),
{
    broadcast use vstd::seq_lib::group_seq_properties;

    if s.len() > 0 && s.last() > x {
        lemma_insert_trigram_contains(s.drop_last(), x, y);
        assert(s =~= s.drop_last().push(s.last()));
    } else if s.len() > 0 {
        assert(s[s.len() - 1] == s.last());
    }
}

/// Sorting and removing duplicates keeps exactly the trigrams.
pub proof fn lemma_distinct_trigrams_contains(s: Seq<Trigram>, y: Trigram)
    ensures
        distinct_trigrams(s).contains(y) <==> s.contains(y),
    decreases s.len(),
{
    broadcast use vstd::seq_lib::group_seq_properties;

    if s.len() > 0 {
        lemma_distinct_trigrams_contains(s.drop_last(), y);
        lemma_insert_trigram_contains(distinct_trigrams(s.drop_last()), s.last(), y);
        assert(s =~= s.drop_last().push(s.last()));
    }
}

/// `has` holds every trigram of `t`.
spec fn has_all(t: Seq<Trigram>, has: Set<Trigram>) -> bool {
    forall|x: Trigram| t.contains(x) ==> has.contains(x)
}

/// `has` holds a trigram of `t`.
spec fn has_any(t: Seq<Trigram>, has: Set<Trigram>) -> bool {
    exists|x: Trigram| t.contains(x) && has.contains(x)
}

spec fn all_satisfied(sub: Seq<QuerySpec>, has: Set<Trigram>) -> bool {
    forall|i: int| 0 <= i < sub.len() ==> (#[trigger] sub[i]).satisfied(has)
}

spec fn any_satisfied(sub: Seq<QuerySpec>, has: Set<Trigram>) -> bool {
    exists|i: int| 0 <= i < sub.len() && (#[trigger] sub[i]).satisfied(has)
}

proof fn lemma_satisfied(q: QuerySpec, has: Set<Trigram>)
    ensures
        q matches QuerySpec::And { trigrams, sub } ==> (q.satisfied(has) <==> has_all(trigrams, has)
            && all_satisfied(sub, has)),
        q matches QuerySpec::Or { trigrams, sub } ==> (q.satisfied(has) <==> has_any(trigrams, has)
            || any_satisfied(sub, has)),
{
    match q {
        QuerySpec::And { trigrams, sub } => {
            assert forall|i: int| 0 <= i < trigrams.len() && has_all(trigrams, has) implies has.contains(
                #[trigger] trigrams[i],
            ) by {
                assert(trigrams.contains(trigrams[i]));
            }
        },
        QuerySpec::Or { trigrams, sub } => {
            if exists|i: int| 0 <= i < trigrams.len() && has.contains(#[trigger] trigrams[i]) {
                let i = choose|i: int| 0 <= i < trigrams.len() && has.contains(#[trigger] trigrams[i]);
                assert(trigrams.contains(trigrams[i]));
            }
        },
        _ => {},
    }
}

proof fn lemma_merged_trigrams(t: Seq<Trigram>, t2: Seq<Trigram>, has: Set<Trigram>)
    ensures
        has_all(distinct_trigrams(t + t2), has) <==> has_all(t, has) && has_all(t2, has),
        has_any(distinct_trigrams(t + t2), has) <==> has_any(t, has) || has_any(t2, has),
{
    broadcast use vstd::seq_lib::group_seq_properties;

    assert forall|x: Trigram| distinct_trigrams(t + t2).contains(x) == (t.contains(x) || t2.contains(x)) by {
        lemma_distinct_trigrams_contains(t + t2, x);
    }
}

proof fn lemma_merged_queries(s: Seq<QuerySpec>, s2: Seq<QuerySpec>, has: Set<Trigram>)
    ensures
        all_satisfied(s + s2, has) <==> all_satisfied(s, has) && all_satisfied(s2, has),
        any_satisfied(s + s2, has) <==> any_satisfied(s, has) || any_satisfied(s2, has),
{
    let both = s + s2;
    assert forall|i: int| 0 <= i < s.len() implies #[trigger] s[i] == both[i] by {}
    assert forall|i: int| 0 <= i < s2.len() implies #[trigger] s2[i] == both[s.len() + i] by {}
    assert forall|i: int| 0 <= i < both.len() implies #[trigger] both[i] == if i < s.len() {
        s[i]
    } else {
        s2[i - s.len()]
    } by {}
}

proof fn lemma_one_query(q: QuerySpec, has: Set<Trigram>)
    ensures
        all_satisfied(seq![q], has) <==> q.satisfied(has),
        any_satisfied(seq![q], has) <==> q.satisfied(has),
{
    assert(seq![q][0] == q);
}

/// A conjunction is satisfied by exactly the documents that satisfy both parts.
pub proof fn conjunction_is_and(l: QuerySpec, r: QuerySpec, has: Set<Trigram>)
    ensures
        conjunction(l, r).satisfied(has) <==> l.satisfied(has) && r.satisfied(has),
{
    let q = conjunction(l, r);
    lemma_satisfied(l, has);
    lemma_satisfied(r, has);
    lemma_satisfied(q, has);
    lemma_one_query(l, has);
    lemma_one_query(r, has);
    match (l, r) {
        (QuerySpec::Never, _) => {},
        (_, QuerySpec::Never) => {},
        (QuerySpec::All, _) => {},
        (_, QuerySpec::All) => {},
        (QuerySpec::And { trigrams: t, sub: s }, QuerySpec::And { trigrams: t2, sub: s2 }) => {
            lemma_merged_trigrams(t, t2, has);
            lemma_merged_queries(s, s2, has);
        },
        (QuerySpec::And { trigrams, sub }, _) => {
            assert(sub.push(r) =~= sub + seq![r]);
            lemma_merged_queries(sub, seq![r], has);
        },
        (_, QuerySpec::And { trigrams, sub }) => {
            assert(sub.push(l) =~= sub + seq![l]);
            lemma_merged_queries(sub, seq![l], has);
        },
        _ => {
            assert(seq![l, r] =~= seq![l] + seq![r]);
            lemma_merged_queries(seq![l], seq![r], has);
        },
    }
}

/// A disjunction is satisfied by exactly the documents that satisfy a part.
pub proof fn disjunction_is_or(l: QuerySpec, r: QuerySpec, has: Set<Trigram>)
    ensures
        disjunction(l, r).satisfied(has) <==> l.satisfied(has) || r.satisfied(has),
{
    let q = disjunction(l, r);
    lemma_satisfied(l, has);
    lemma_satisfied(r, has);
    lemma_satisfied(q, has);
    lemma_one_query(l, has);
    lemma_one_query(r, has);
    match (l, r) {
        (QuerySpec::Never, _) => {},
        (_, QuerySpec::Never) => {},
        (QuerySpec::All, _) => {},
        (_, QuerySpec::All) => {},
        (QuerySpec::Or { trigrams: t, sub: s }, QuerySpec::Or { trigrams: t2, sub: s2 }) => {
            lemma_merged_trigrams(t, t2, has);
            lemma_merged_queries(s, s2, has);
        },
        (QuerySpec::Or { trigrams, sub }, _) => {
            assert(sub.push(r) =~= sub + seq![r]);
            lemma_merged_queries(sub, seq![r], has);
        },
        (_, QuerySpec::Or { trigrams, sub }) => {
            assert(sub.push(l) =~= sub + seq![l]);
            lemma_merged_queries(sub, seq![l], has);
        },
        _ => {
            assert(seq![l, r] =~= seq![l] + seq![r]);
            lemma_merged_queries(seq![l], seq![r], has);
        },
    }
}

/// More trigrams never turn a candidate away.
pub proof fn satisfaction_is_monotone(q: QuerySpec, has: Set<Trigram>, more: Set<Trigram>)
    requires
        q.satisfied(has),
        has.subset_of(more),
    ensures
        q.satisfied(more),
    decreases q,
{
    match q {
        QuerySpec::And { trigrams, sub } => {
            assert forall|i: int| 0 <= i < sub.len() implies (#[trigger] sub[i]).satisfied(more) by {
                satisfaction_is_monotone(sub[i], has, more);
            }
        },
        QuerySpec::Or { trigrams, sub } => {
            if exists|i: int| 0 <= i < sub.len() && (#[trigger] sub[i]).satisfied(has) {
                let i = choose|i: int| 0 <= i < sub.len() && (#[trigger] sub[i]).satisfied(has);
                satisfaction_is_monotone(sub[i], has, more);
            }
        },
        _ => {},
    }
}

proof fn lemma_string_query(s: Seq<u8>, has: Set<Trigram>)
    ensures
        string_query(s).satisfied(has) <==> trigram::trigram_set(s).subset_of(has),
{
    let t = trigram::trigrams(s);
    let q = string_query(s);
    lemma_satisfied(q, has);
    if s.len() >= 3 {
        assert(all_satisfied(q->And_sub, has));
        assert forall|x: Trigram| trigram::trigram_set(s).contains(x) == t.contains(x) by {}
    } else {
        assert(trigram::trigram_set(s) =~= Set::empty());
    }
}

proof fn lemma_any_string_query(set: Strings, has: Set<Trigram>)
    ensures
        any_string_query(set).satisfied(has) <==> exists|i: int|
            0 <= i < set.len() && trigram::trigram_set(#[trigger] set[i]).subset_of(has),
    decreases set.len(),
{
    if set.len() > 0 {
        let init = set.drop_last();
        lemma_any_string_query(init, has);
        lemma_string_query(set.last(), has);
        disjunction_is_or(any_string_query(init), string_query(set.last()), has);
        assert(set[set.len() - 1] == set.last());
        assert forall|i: int| 0 <= i < init.len() implies #[trigger] init[i] == set[i] by {}
        assert forall|i: int| 0 <= i < set.len() - 1 implies #[trigger] set[i] == init[i] by {}
    }
}

/// The query of a string set is satisfied by exactly the documents that
/// contain all trigrams of some member.
pub proof fn string_set_query_means_some_string(set: Strings, has: Set<Trigram>)
    ensures
        string_set_query(set).satisfied(has) <==> set.len() == 0 || exists|i: int|
            0 <= i < set.len() && trigram::trigram_set(#[trigger] set[i]).subset_of(has),
{
    lemma_any_string_query(set, has);
}

impl Clone for Query {
    fn clone(&self) -> (out: Query)
        ensures
            out@ == self@,
        decreases self,
    {
        match self {
            Query::Never => Query::Never,
            Query::All => Query::All,
            Query::And { trigrams, sub } => {
                let mut copy: Vec<Query> = Vec::with_capacity(sub.len());
                let mut i: usize = 0;
                while i < sub.len()
                    invariant
                        i <= sub@.len(),
                        self is And,
                        *sub == self->And_sub,
                        copy@.len() == i,
                        forall|j: int| 0 <= j < i ==> copy@[j]@ == (#[trigger] sub@[j])@,
                    decreases sub@.len() - i,
                {
                    assert(decreases_to!(*sub => sub[i as int]));
                    assert(decreases_to!(*self => self->And_sub));
                    copy.push(sub[i].clone());
                    i += 1;
                }
                let out = Query::And { trigrams: trigrams.clone(), sub: copy };
                proof {
                    lemma_query_view(*self);
                    lemma_query_view(out);
                    assert(out->And_trigrams@ =~= trigrams@);
                    assert(queries_of(copy@) =~= queries_of(sub@));
                }
                out
            },
            Query::Or { trigrams, sub } => {
                let mut copy: Vec<Query> = Vec::with_capacity(sub.len());
                let mut i: usize = 0;
                while i < sub.len()
                    invariant
                        i <= sub@.len(),
                        self is Or,
                        *sub == self->Or_sub,
                        copy@.len() == i,
                        forall|j: int| 0 <= j < i ==> copy@[j]@ == (#[trigger] sub@[j])@,
                    decreases sub@.len() - i,
                {
                    assert(decreases_to!(*sub => sub[i as int]));
                    assert(decreases_to!(*self => self->Or_sub));
                    copy.push(sub[i].clone());
                    i += 1;
                }
                let out = Query::Or { trigrams: trigrams.clone(), sub: copy };
                proof {
                    lemma_query_view(*self);
                    lemma_query_view(out);
                    assert(out->Or_trigrams@ =~= trigrams@);
                    assert(queries_of(copy@) =~= queries_of(sub@));
                }
                out
            },
        }
    }
}

/// Where an insertion that scans `s` from its end takes effect.
proof fn lemma_insert_trigram_at(s: Seq<Trigram>, x: Trigram, i: int)
    requires
        0 <= i <= s.len(),
        forall|j: int| i <= j < s.len() ==> x < #[trigger] s[j],
        i > 0 ==> s[i - 1] <= x,
    ensures
        insert_trigram(s, x) == if i > 0 && s[i - 1] == x {
            s
        } else {
            s.insert(i, x)
        },
    decreases s.len() - i,
{
    if i < s.len() {
        assert(s[s.len() - 1] == s.last());
        lemma_insert_trigram_at(s.drop_last(), x, i);
        assert(s.drop_last().push(s.last()) =~= s);
        assert(s.drop_last().insert(i, x).push(s.last()) =~= s.insert(i, x));
    } else {
        assert(s.insert(i, x) =~= s.push(x));
    }
}

/// Sort the trigrams and drop the duplicates.
fn dedup_trigrams(trigrams: &mut Vec<Trigram>)
    ensures
        final(trigrams)@ == distinct_trigrams(old(trigrams)@),
{
    let mut sorted: Vec<Trigram> = Vec::with_capacity(trigrams.len());
    let mut n: usize = 0;
    while n < trigrams.len()
        invariant
            n <= trigrams@.len(),
            trigrams@ == old(trigrams)@,
            sorted@ =~= distinct_trigrams(trigrams@.take(n as int)),
        decreases trigrams@.len() - n,
    {
        let x = trigrams[n];
        let ghost before = sorted@;
        let mut i: usize = sorted.len();
        while i > 0 && x < sorted[i - 1]
            invariant
                i <= sorted@.len(),
                forall|j: int| i <= j < sorted@.len() ==> x < #[trigger] sorted@[j],
            decreases i,
        {
            i -= 1;
        }
        proof {
            lemma_insert_trigram_at(before, x, i as int);
            assert(trigrams@.take(n + 1).drop_last() =~= trigrams@.take(n as int));
        }
        if i == 0 || sorted[i - 1] != x {
            sorted.insert(i, x);
        }
        n += 1;
    }
    assert(trigrams@.take(n as int) =~= trigrams@);
    *trigrams = sorted;
}

impl Query {
    /// The query that holds where both hold.
    pub fn and(self, other: Query) -> (out: Query)
        ensures
            out@ == conjunction(self@, other@),
    {
        proof {
            lemma_query_view(self);
            lemma_query_view(other);
        }
        match self {
            Query::Never => Query::Never,
            Query::All => other,
            Query::And { trigrams: t, sub: s } => match other {
                Query::Never => Query::Never,
                Query::All => Query::And { trigrams: t, sub: s },
                Query::And { trigrams: t2, sub: s2 } => {
                    let mut t = t;
                    let mut t2 = t2;
                    let mut s = s;
                    let mut s2 = s2;
                    t.append(&mut t2);
                    s.append(&mut s2);
                    dedup_trigrams(&mut t);
                    let out = Query::And { trigrams: t, sub: s };
                    proof {
                        lemma_query_view(out);
                        assert(queries_of(s@) =~= self@->And_sub + other@->And_sub);
                    }
                    out
                },
                Query::Or { .. } => {
                    let mut s = s;
                    s.push(other);
                    let out = Query::And { trigrams: t, sub: s };
                    proof {
                        lemma_query_view(out);
                        assert(queries_of(s@) =~= self@->And_sub.push(other@));
                    }
                    out
                },
            },
            Query::Or { .. } => match other {
                Query::Never => Query::Never,
                Query::All => self,
                Query::And { trigrams: t, sub: s } => {
                    let mut s = s;
                    s.push(self);
                    let out = Query::And { trigrams: t, sub: s };
                    proof {
                        lemma_query_view(out);
                        assert(queries_of(s@) =~= other@->And_sub.push(self@));
                    }
                    out
                },
                Query::Or { .. } => {
                    let mut s: Vec<Query> = Vec::new();
                    s.push(self);
                    s.push(other);
                    let out = Query::And { trigrams: Vec::new(), sub: s };
                    proof {
                        lemma_query_view(out);
                        assert(queries_of(s@) =~= seq![self@, other@]);
                    }
                    out
                },
            },
        }
    }

    /// The query that holds where either holds.
    pub fn or(self, other: Query) -> (out: Query)
        ensures
            out@ == disjunction(self@, other@),
    {
        proof {
            lemma_query_view(self);
            lemma_query_view(other);
        }
        match self {
            Query::Never => other,
            Query::All => Query::All,
            Query::Or { trigrams: t, sub: s } => match other {
                Query::Never => Query::Or { trigrams: t, sub: s },
                Query::All => Query::All,
                Query::Or { trigrams: t2, sub: s2 } => {
                    let mut t = t;
                    let mut t2 = t2;
                    let mut s = s;
                    let mut s2 = s2;
                    t.append(&mut t2);
                    s.append(&mut s2);
                    dedup_trigrams(&mut t);
                    let out = Query::Or { trigrams: t, sub: s };
                    proof {
                        lemma_query_view(out);
                        assert(queries_of(s@) =~= self@->Or_sub + other@->Or_sub);
                    }
                    out
                },
                Query::And { .. } => {
                    let mut s = s;
                    s.push(other);
                    let out = Query::Or { trigrams: t, sub: s };
                    proof {
                        lemma_query_view(out);
                        assert(queries_of(s@) =~= self@->Or_sub.push(other@));
                    }
                    out
                },
            },
            Query::And { .. } => match other {
                Query::Never => self,
                Query::All => Query::All,
                Query::Or { trigrams: t, sub: s } => {
                    let mut s = s;
                    s.push(self);
                    let out = Query::Or { trigrams: t, sub: s };
                    proof {
                        lemma_query_view(out);
                        assert(queries_of(s@) =~= other@->Or_sub.push(self@));
                    }
                    out
                },
                Query::And { .. } => {
                    let mut s: Vec<Query> = Vec::new();
                    s.push(self);
                    s.push(other);
                    let out = Query::Or { trigrams: Vec::new(), sub: s };
                    proof {
                        lemma_query_view(out);
                        assert(queries_of(s@) =~= seq![self@, other@]);
                    }
                    out
                },
            },
        }
    }

    /// Trigrams of a string set, OR'd across members (a string shorter than
    /// three bytes contributes no trigrams, i.e. it widens to `All`).
    pub fn from_string_set(set: &StringSet) -> (out: Query)
        ensures
            out@ == string_set_query(set@),
    {
        if set.strings.len() == 0 {
            return Query::All;
        }
        let ghost all = set@;
        let mut query = Query::Never;
        let mut i: usize = 0;
        assert(all.take(0) =~= Strings::empty());
        while i < set.strings.len()
            invariant
                i <= set.strings@.len(),
                all == set@,
                query@ == any_string_query(all.take(i as int)),
            decreases set.strings@.len() - i,
        {
            let trigrams = trigram::literal_trigrams(&set.strings[i]);
            let short = trigrams.len() == 0;
            let one = if short {
                Query::All
            } else {
                Query::And { trigrams, sub: Vec::new() }
            };
            proof {
                lemma_query_view(one);
                assert(!short ==> one@->And_sub =~= Seq::empty());
                assert(one@ == string_query(all[i as int]));
                assert(all.take(i + 1).drop_last() =~= all.take(i as int));
            }
            query = query.or(one);
            i += 1;
        }
        assert(all.take(i as int) =~= all);
        query
    }
}

/// The postings of an index: per trigram, the documents that contain it.
pub type Postings = FxHashMap<Trigram, RoaringBitmap>;

/// The trigrams that `postings` record for the document `id`.
pub open spec fn recorded(postings: Map<Trigram, RoaringBitmap>, id: u32) -> Set<Trigram> {
    Set::new(|t: Trigram| postings.contains_key(t) && bitmap_ids(postings[t]).contains(id))
}

impl QuerySpec {
    /// The query asks for nothing: no trigram has to be looked up to know that
    /// every document is a candidate.
    pub open spec fn asks_nothing(self) -> bool
        decreases self,
    {
        match self {
            QuerySpec::Never => false,
            QuerySpec::All => true,
            QuerySpec::And { trigrams, sub } => {
                &&& trigrams.len() == 0
                &&& forall|i: int| 0 <= i < sub.len() ==> (#[trigger] sub[i]).asks_nothing()
            },
            QuerySpec::Or { trigrams, sub } => exists|i: int|
                0 <= i < sub.len() && (#[trigger] sub[i]).asks_nothing(),
        }
    }
}

/// A query that asks for nothing is satisfied by every document.
pub proof fn asking_nothing_accepts_all(q: QuerySpec, has: Set<Trigram>)
    requires
        q.asks_nothing(),
    ensures
        q.satisfied(has),
    decreases q,
{
    match q {
        QuerySpec::And { trigrams, sub } => {
            assert forall|i: int| 0 <= i < sub.len() implies (#[trigger] sub[i]).satisfied(has) by {
                asking_nothing_accepts_all(sub[i], has);
            }
        },
        QuerySpec::Or { trigrams, sub } => {
            let i = choose|i: int| 0 <= i < sub.len() && (#[trigger] sub[i]).asks_nothing();
            asking_nothing_accepts_all(sub[i], has);
        },
        _ => {},
    }
}

/// A query that asks for something is not satisfied by a document without
/// trigrams.
pub proof fn asking_something_turns_away(q: QuerySpec)
    requires
        q.satisfied(Set::empty()),
    ensures
        q.asks_nothing(),
    decreases q,
{
    match q {
        QuerySpec::And { trigrams, sub } => {
            if trigrams.len() > 0 {
                assert(Set::<Trigram>::empty().contains(trigrams[0]));
            }
            assert forall|i: int| 0 <= i < sub.len() implies (#[trigger] sub[i]).asks_nothing() by {
                assert(sub[i].satisfied(Set::empty()));
                asking_something_turns_away(sub[i]);
            }
        },
        QuerySpec::Or { trigrams, sub } => {
            let i = choose|i: int| 0 <= i < sub.len() && (#[trigger] sub[i]).satisfied(Set::empty());
            asking_something_turns_away(sub[i]);
        },
        _ => {},
    }
}

/// Result of evaluating a [`Query`] against the index.
#[derive(Debug)]
pub enum CandidateSet {
    /// Every document is a candidate.
    All,
    /// The documents with these ids are.
    Only(RoaringBitmap),
}

impl CandidateSet {
    /// Whether the document `id` is a candidate.
    pub open spec fn admits(self, id: u32) -> bool {
        match self {
            CandidateSet::All => true,
            CandidateSet::Only(bitmap) => bitmap_ids(bitmap).contains(id),
        }
    }
}

/// `acc` restricted to `other`; no restriction so far is `None`.
fn narrow(acc: Option<RoaringBitmap>, other: &RoaringBitmap) -> (out: RoaringBitmap)
    ensures
        bitmap_ids(out) == match acc {
            Some(a) => bitmap_ids(a).intersect(bitmap_ids(*other)),
            None => bitmap_ids(*other),
        },
{
    match acc {
        Some(a) => {
            let mut a = a;
            intersect_with(&mut a, other);
            a
        },
        None => copy_bitmap(other),
    }
}

/// `acc` extended by `other`; nothing so far is `None`.
fn widen(acc: Option<RoaringBitmap>, other: &RoaringBitmap) -> (out: RoaringBitmap)
    ensures
        bitmap_ids(out) == match acc {
            Some(a) => bitmap_ids(a).union(bitmap_ids(*other)),
            None => bitmap_ids(*other),
        },
{
    match acc {
        Some(a) => {
            let mut a = a;
            unite_with(&mut a, other);
            a
        },
        None => copy_bitmap(other),
    }
}

/// The documents that satisfy the first `n` trigrams and the first `m`
/// sub-queries of a conjunction.
spec fn meets_all(
    postings: Map<Trigram, RoaringBitmap>,
    trigrams: Seq<Trigram>,
    sub: Seq<QuerySpec>,
    n: int,
    m: int,
    id: u32,
) -> bool {
    &&& forall|i: int| 0 <= i < n ==> recorded(postings, id).contains(#[trigger] trigrams[i])
    &&& forall|i: int| 0 <= i < m ==> (#[trigger] sub[i]).satisfied(recorded(postings, id))
}

/// The documents that satisfy one of the first `n` trigrams or one of the
/// first `m` sub-queries of a disjunction.
spec fn meets_any(
    postings: Map<Trigram, RoaringBitmap>,
    trigrams: Seq<Trigram>,
    sub: Seq<QuerySpec>,
    n: int,
    m: int,
    id: u32,
) -> bool {
    ||| exists|i: int| 0 <= i < n && recorded(postings, id).contains(#[trigger] trigrams[i])
    ||| exists|i: int| 0 <= i < m && (#[trigger] sub[i]).satisfied(recorded(postings, id))
}

proof fn lemma_meets(q: QuerySpec, postings: Map<Trigram, RoaringBitmap>, id: u32)
    ensures
        q matches QuerySpec::And { trigrams, sub } ==> (q.satisfied(recorded(postings, id)) <==> meets_all(
            postings,
            trigrams,
            sub,
            trigrams.len() as int,
            sub.len() as int,
            id,
        )),
        q matches QuerySpec::Or { trigrams, sub } ==> (q.satisfied(recorded(postings, id)) <==> meets_any(
            postings,
            trigrams,
            sub,
            trigrams.len() as int,
            sub.len() as int,
            id,
        )),
{
}

proof fn lemma_asks_nothing(q: QuerySpec)
    ensures
        q matches QuerySpec::And { trigrams, sub } ==> (q.asks_nothing() <==> trigrams.len() == 0 && (forall|i: int|
            0 <= i < sub.len() ==> (#[trigger] sub[i]).asks_nothing())),
        q matches QuerySpec::Or { trigrams, sub } ==> (q.asks_nothing() <==> exists|i: int|
            0 <= i < sub.len() && (#[trigger] sub[i]).asks_nothing()),
{
}

/// The documents admitted by a conjunction, of which `acc` holds those that
/// meet the first `n` trigrams and `m` sub-queries.
spec fn narrowed(
    acc: Option<RoaringBitmap>,
    postings: Map<Trigram, RoaringBitmap>,
    trigrams: Seq<Trigram>,
    sub: Seq<QuerySpec>,
    n: int,
    m: int,
) -> bool {
    &&& acc is None <==> n == 0 && (forall|i: int| 0 <= i < m ==> (#[trigger] sub[i]).asks_nothing())
    &&& acc matches Some(a) ==> forall|id: u32| #[trigger]
        bitmap_ids(a).contains(id) <==> meets_all(postings, trigrams, sub, n, m, id)
}

/// The documents admitted by a disjunction, of which `acc` holds those that
/// meet one of the first `n` trigrams or `m` sub-queries.
spec fn widened(
    acc: Option<RoaringBitmap>,
    postings: Map<Trigram, RoaringBitmap>,
    trigrams: Seq<Trigram>,
    sub: Seq<QuerySpec>,
    n: int,
    m: int,
) -> bool {
    &&& forall|i: int| 0 <= i < m ==> !(#[trigger] sub[i]).asks_nothing()
    &&& forall|id: u32| #[trigger]
        meets_any(postings, trigrams, sub, n, m, id) <==> (acc matches Some(a) && bitmap_ids(a).contains(id))
}

/// Evaluate `query` by looking each trigram up in `postings`, which lead to the
/// bitmap of file ids that contain the trigram, if any.
pub fn evaluate(query: &Query, postings: &Postings) -> (out: CandidateSet)
    ensures
        out is All <==> query@.asks_nothing(),
        forall|id: u32| #[trigger] out.admits(id) <==> query@.satisfied(recorded(postings@, id)),
    decreases query,
{
    proof {
        lemma_query_view(*query);
    }
    match query {
        Query::Never => CandidateSet::Only(new_bitmap()),
        Query::All => CandidateSet::All,
        Query::And { trigrams, sub } => evaluate_and(trigrams, sub, postings),
        Query::Or { trigrams, sub } => evaluate_or(trigrams, sub, postings),
    }
}

fn evaluate_and(trigrams: &Vec<Trigram>, sub: &Vec<Query>, postings: &Postings) -> (out: CandidateSet)
    ensures
        out is All <==> (QuerySpec::And { trigrams: trigrams@, sub: queries_of(sub@) }).asks_nothing(),
        forall|id: u32| #[trigger]
            out.admits(id) <==> (QuerySpec::And { trigrams: trigrams@, sub: queries_of(sub@) }).satisfied(
                recorded(postings@, id),
            ),
    decreases sub,
{
    let ghost q = QuerySpec::And { trigrams: trigrams@, sub: queries_of(sub@) };
    let ghost subs = queries_of(sub@);
    proof {
        lemma_asks_nothing(q);
        assert(q->And_sub == subs && q->And_trigrams == trigrams@);
    }
    let mut acc: Option<RoaringBitmap> = None;
    let mut n: usize = 0;
    while n < trigrams.len()
        invariant
            n <= trigrams@.len(),
            subs == queries_of(sub@),
            q == (QuerySpec::And { trigrams: trigrams@, sub: subs }),
            q.asks_nothing() <==> trigrams@.len() == 0 && (forall|i: int|
                0 <= i < subs.len() ==> (#[trigger] subs[i]).asks_nothing()),
            narrowed(acc, postings@, trigrams@, subs, n as int, 0),
        decreases trigrams@.len() - n,
    {
        let t = trigrams[n];
        match fx::map_get(postings, &t) {
            None => {
                assert forall|id: u32| !q.satisfied(recorded(postings@, id)) by {
                    lemma_meets(q, postings@, id);
                    assert(!recorded(postings@, id).contains(trigrams@[n as int]));
                }
                return CandidateSet::Only(new_bitmap());
            },
            Some(bitmap) => {
                let ghost before = acc;
                let next = narrow(acc, bitmap);
                proof {
                    assert forall|id: u32| #[trigger]
                        bitmap_ids(next).contains(id) == meets_all(
                            postings@,
                            trigrams@,
                            subs,
                            n + 1,
                            0,
                            id,
                        ) by {
                        assert(recorded(postings@, id).contains(trigrams@[n as int]) == bitmap_ids(*bitmap).contains(
                            id,
                        ));
                        if let Some(a) = before {
                            assert(bitmap_ids(a).contains(id) == meets_all(
                                postings@,
                                trigrams@,
                                subs,
                                n as int,
                                0,
                                id,
                            ));
                        }
                    }
                }
                let empty = is_empty_bitmap(&next);
                if empty {
                    assert forall|id: u32| !q.satisfied(recorded(postings@, id)) by {
                        lemma_meets(q, postings@, id);
                        assert(!bitmap_ids(next).contains(id));
                    }
                    return CandidateSet::Only(new_bitmap());
                }
                acc = Some(next);
            },
        }
        n += 1;
    }
    let mut m: usize = 0;
    while m < sub.len()
        invariant
            m <= sub@.len(),
            n == trigrams@.len(),
            subs == queries_of(sub@),
            q == (QuerySpec::And { trigrams: trigrams@, sub: subs }),
            q.asks_nothing() <==> trigrams@.len() == 0 && (forall|i: int|
                0 <= i < subs.len() ==> (#[trigger] subs[i]).asks_nothing()),
            narrowed(acc, postings@, trigrams@, subs, n as int, m as int),
        decreases sub@.len() - m,
    {
        assert(decreases_to!(*sub => sub[m as int]));
        assert(subs[m as int] == sub@[m as int]@);
        let found = evaluate(&sub[m], postings);
        match found {
            CandidateSet::All => {
                let ghost before = acc;
                proof {
                    assert forall|id: u32| subs[m as int].satisfied(recorded(postings@, id)) by {
                        asking_nothing_accepts_all(subs[m as int], recorded(postings@, id));
                    }
                    if let Some(a) = before {
                        assert forall|id: u32| #[trigger]
                            bitmap_ids(a).contains(id) == meets_all(
                                postings@,
                                trigrams@,
                                subs,
                                n as int,
                                m + 1,
                                id,
                            ) by {
                            assert(subs[m as int].satisfied(recorded(postings@, id)));
                        }
                    }
                }
            },
            CandidateSet::Only(bitmap) => {
                let ghost before = acc;
                let next = narrow(acc, &bitmap);
                proof {
                    assert forall|id: u32| #[trigger]
                        bitmap_ids(next).contains(id) == meets_all(
                            postings@,
                            trigrams@,
                            subs,
                            n as int,
                            m + 1,
                            id,
                        ) by {
                        assert(found.admits(id) == subs[m as int].satisfied(recorded(postings@, id)));
                        if let Some(a) = before {
                            assert(bitmap_ids(a).contains(id) == meets_all(
                                postings@,
                                trigrams@,
                                subs,
                                n as int,
                                m as int,
                                id,
                            ));
                        } else {
                            assert forall|i: int| 0 <= i < m implies (#[trigger] subs[i]).satisfied(
                                recorded(postings@, id),
                            ) by {
                                asking_nothing_accepts_all(subs[i], recorded(postings@, id));
                            }
                        }
                    }
                }
                let empty = is_empty_bitmap(&next);
                if empty {
                    assert forall|id: u32| !q.satisfied(recorded(postings@, id)) by {
                        lemma_meets(q, postings@, id);
                        assert(!bitmap_ids(next).contains(id));
                    }
                    return CandidateSet::Only(new_bitmap());
                }
                acc = Some(next);
            },
        }
        m += 1;
    }
    match acc {
        None => {
            assert(q.asks_nothing());
            assert forall|id: u32| q.satisfied(recorded(postings@, id)) by {
                asking_nothing_accepts_all(q, recorded(postings@, id));
            }
            CandidateSet::All
        },
        Some(a) => {
            assert forall|id: u32| bitmap_ids(a).contains(id) == q.satisfied(recorded(postings@, id)) by {
                lemma_meets(q, postings@, id);
                assert(bitmap_ids(a).contains(id) == meets_all(postings@, trigrams@, subs, n as int, m as int, id));
            }
            CandidateSet::Only(a)
        },
    }
}

fn evaluate_or(trigrams: &Vec<Trigram>, sub: &Vec<Query>, postings: &Postings) -> (out: CandidateSet)
    ensures
        out is All <==> (QuerySpec::Or { trigrams: trigrams@, sub: queries_of(sub@) }).asks_nothing(),
        forall|id: u32| #[trigger]
            out.admits(id) <==> (QuerySpec::Or { trigrams: trigrams@, sub: queries_of(sub@) }).satisfied(
                recorded(postings@, id),
            ),
    decreases sub,
{
    let ghost q = QuerySpec::Or { trigrams: trigrams@, sub: queries_of(sub@) };
    let ghost subs = queries_of(sub@);
    proof {
        lemma_asks_nothing(q);
        assert(q->Or_sub == subs);
    }
    let mut acc: Option<RoaringBitmap> = None;
    let mut n: usize = 0;
    while n < trigrams.len()
        invariant
            n <= trigrams@.len(),
            subs == queries_of(sub@),
            q == (QuerySpec::Or { trigrams: trigrams@, sub: subs }),
            q.asks_nothing() <==> (exists|i: int|
                0 <= i < subs.len() && (#[trigger] subs[i]).asks_nothing()),
            widened(acc, postings@, trigrams@, subs, n as int, 0),
        decreases trigrams@.len() - n,
    {
        let t = trigrams[n];
        let ghost before = acc;
        if let Some(bitmap) = fx::map_get(postings, &t) {
            acc = Some(widen(acc, bitmap));
        }
        proof {
            assert forall|id: u32| #[trigger]
                meets_any(postings@, trigrams@, subs, n + 1, 0, id) == (acc matches Some(a) && bitmap_ids(
                    a,
                ).contains(id)) by {
                let one = recorded(postings@, id).contains(trigrams@[n as int]);
                assert(meets_any(postings@, trigrams@, subs, n + 1, 0, id) == (meets_any(
                    postings@,
                    trigrams@,
                    subs,
                    n as int,
                    0,
                    id,
                ) || one));
            }
        }
        n += 1;
    }
    let mut m: usize = 0;
    while m < sub.len()
        invariant
            m <= sub@.len(),
            n == trigrams@.len(),
            subs == queries_of(sub@),
            q == (QuerySpec::Or { trigrams: trigrams@, sub: subs }),
            q.asks_nothing() <==> (exists|i: int|
                0 <= i < subs.len() && (#[trigger] subs[i]).asks_nothing()),
            widened(acc, postings@, trigrams@, subs, n as int, m as int),
        decreases sub@.len() - m,
    {
        assert(decreases_to!(*sub => sub[m as int]));
        assert(subs[m as int] == sub@[m as int]@);
        let found = evaluate(&sub[m], postings);
        match found {
            CandidateSet::All => {
                assert(q.asks_nothing());
                assert forall|id: u32| q.satisfied(recorded(postings@, id)) by {
                    asking_nothing_accepts_all(q, recorded(postings@, id));
                }
                return CandidateSet::All;
            },
            CandidateSet::Only(bitmap) => {
                let next = widen(acc, &bitmap);
                proof {
                    assert forall|id: u32| #[trigger]
                        meets_any(postings@, trigrams@, subs, n as int, m + 1, id) == bitmap_ids(next).contains(id) by {
                        let one = subs[m as int].satisfied(recorded(postings@, id));
                        assert(found.admits(id) == one);
                        assert(meets_any(postings@, trigrams@, subs, n as int, m + 1, id) == (meets_any(
                            postings@,
                            trigrams@,
                            subs,
                            n as int,
                            m as int,
                            id,
                        ) || one));
                    }
                }
                acc = Some(next);
            },
        }
        m += 1;
    }
    assert forall|id: u32| q.satisfied(recorded(postings@, id)) == (acc matches Some(a) && bitmap_ids(a).contains(
        id,
    )) by {
        lemma_meets(q, postings@, id);
    }
    match acc {
        None => CandidateSet::Only(new_bitmap()),
        Some(a) => CandidateSet::Only(a),
    }
}

impl QuerySpec {
    /// The trigrams that the query speaks of, in order.
    pub open spec fn mentioned(self) -> Seq<Trigram>
        decreases self, 0int,
    {
        match self {
            QuerySpec::And { trigrams, sub } => trigrams + QuerySpec::mentioned_by(sub),
            QuerySpec::Or { trigrams, sub } => trigrams + QuerySpec::mentioned_by(sub),
            _ => Seq::empty(),
        }
    }

    /// The trigrams that the queries speak of, in order.
    pub open spec fn mentioned_by(sub: Seq<QuerySpec>) -> Seq<Trigram>
        decreases sub, 0int,
    {
        if sub.len() == 0 {
            Seq::empty()
        } else {
            QuerySpec::mentioned_by(sub.drop_last()) + sub.last().mentioned()
        }
    }
}

proof fn lemma_mentioned_by(sub: Seq<QuerySpec>, i: int, t: Trigram)
    requires
        0 <= i < sub.len(),
        sub[i].mentioned().contains(t),
    ensures
        QuerySpec::mentioned_by(sub).contains(t),
    decreases sub.len(),
{
    let init = QuerySpec::mentioned_by(sub.drop_last());
    let all = QuerySpec::mentioned_by(sub);
    if i == sub.len() - 1 {
        let k = choose|k: int| 0 <= k < sub[i].mentioned().len() && sub[i].mentioned()[k] == t;
        assert(all[init.len() + k] == t);
    } else {
        assert(sub.drop_last()[i] == sub[i]);
        lemma_mentioned_by(sub.drop_last(), i, t);
        let k = choose|k: int| 0 <= k < init.len() && init[k] == t;
        assert(all[k] == t);
    }
}

proof fn lemma_mentions(q: QuerySpec, t: Trigram)
    ensures
        q matches QuerySpec::And { trigrams, sub } ==> (q.mentioned().contains(t) <==> trigrams.contains(t)
            || QuerySpec::mentioned_by(sub).contains(t)),
        q matches QuerySpec::Or { trigrams, sub } ==> (q.mentioned().contains(t) <==> trigrams.contains(t)
            || QuerySpec::mentioned_by(sub).contains(t)),
{
    match q {
        QuerySpec::And { trigrams, sub } => {
            lemma_contains_sum(trigrams, QuerySpec::mentioned_by(sub), t);
        },
        QuerySpec::Or { trigrams, sub } => {
            lemma_contains_sum(trigrams, QuerySpec::mentioned_by(sub), t);
        },
        _ => {},
    }
}

proof fn lemma_contains_sum(a: Seq<Trigram>, b: Seq<Trigram>, t: Trigram)
    ensures
        (a + b).contains(t) <==> a.contains(t) || b.contains(t),
{
    if a.contains(t) {
        let k = choose|k: int| 0 <= k < a.len() && a[k] == t;
        assert((a + b)[k] == t);
    }
    if b.contains(t) {
        let k = choose|k: int| 0 <= k < b.len() && b[k] == t;
        assert((a + b)[a.len() + k] == t);
    }
}

/// What a query says of a document depends on the trigrams that it speaks of
/// alone.
pub proof fn only_mentioned_trigrams_count(q: QuerySpec, has: Set<Trigram>, other: Set<Trigram>)
    requires
        q.satisfied(has),
        forall|t: Trigram| #[trigger] q.mentioned().contains(t) && has.contains(t) ==> other.contains(t),
    ensures
        q.satisfied(other),
    decreases q,
{
    match q {
        QuerySpec::And { trigrams, sub } => {
            assert forall|i: int| 0 <= i < trigrams.len() implies other.contains(#[trigger] trigrams[i]) by {
                lemma_mentions(q, trigrams[i]);
                assert(q.mentioned().contains(trigrams[i]));
            }
            assert forall|i: int| 0 <= i < sub.len() implies (#[trigger] sub[i]).satisfied(other) by {
                lemma_sub_mentions(q, sub, i);
                only_mentioned_trigrams_count(sub[i], has, other);
            }
        },
        QuerySpec::Or { trigrams, sub } => {
            if exists|i: int| 0 <= i < trigrams.len() && has.contains(#[trigger] trigrams[i]) {
                let i = choose|i: int| 0 <= i < trigrams.len() && has.contains(#[trigger] trigrams[i]);
                lemma_mentions(q, trigrams[i]);
                assert(q.mentioned().contains(trigrams[i]));
            } else {
                let i = choose|i: int| 0 <= i < sub.len() && (#[trigger] sub[i]).satisfied(has);
                lemma_sub_mentions(q, sub, i);
                only_mentioned_trigrams_count(sub[i], has, other);
            }
        },
        _ => {},
    }
}

proof fn lemma_sub_mentions(q: QuerySpec, sub: Seq<QuerySpec>, i: int)
    requires
        (q is And && q->And_sub == sub) || (q is Or && q->Or_sub == sub),
        0 <= i < sub.len(),
    ensures
        forall|t: Trigram| #[trigger] sub[i].mentioned().contains(t) ==> q.mentioned().contains(t),
{
    assert forall|t: Trigram| #[trigger] sub[i].mentioned().contains(t) implies q.mentioned().contains(t) by {
        lemma_mentioned_by(sub, i, t);
        lemma_mentions(q, t);
    }
}

impl Query {
    /// The trigrams that the query speaks of, in order.
    pub fn mentioned(&self) -> (out: Vec<Trigram>)
        ensures
            out@ == self@.mentioned(),
        decreases self,
    {
        proof {
            lemma_query_view(*self);
        }
        match self {
            Query::And { trigrams, sub } => {
                assert(decreases_to!(*self => self->And_sub));
                let mut rest = mentioned_by(sub);
                let mut out: Vec<Trigram> = Vec::new();
                out.extend_from_slice(trigrams.as_slice());
                out.append(&mut rest);
                assert(out@ =~= self@.mentioned());
                out
            },
            Query::Or { trigrams, sub } => {
                assert(decreases_to!(*self => self->Or_sub));
                let mut rest = mentioned_by(sub);
                let mut out: Vec<Trigram> = Vec::new();
                out.extend_from_slice(trigrams.as_slice());
                out.append(&mut rest);
                assert(out@ =~= self@.mentioned());
                out
            },
            _ => Vec::new(),
        }
    }
}

/// The trigrams that the queries speak of, in order.
fn mentioned_by(sub: &Vec<Query>) -> (out: Vec<Trigram>)
    ensures
        out@ == QuerySpec::mentioned_by(queries_of(sub@)),
    decreases sub,
{
    let mut out: Vec<Trigram> = Vec::new();
    let ghost all = queries_of(sub@);
    let mut i: usize = 0;
    while i < sub.len()
        invariant
            i <= sub@.len(),
            all == queries_of(sub@),
            out@ == QuerySpec::mentioned_by(all.take(i as int)),
        decreases sub@.len() - i,
    {
        assert(decreases_to!(*sub => sub[i as int]));
        let mut part = sub[i].mentioned();
        out.append(&mut part);
        assert(all.take(i + 1).drop_last() =~= all.take(i as int));
        assert(all.take(i + 1).last() == sub@[i as int]@);
        i += 1;
    }
    assert(all.take(i as int) =~= all);
    out
}

} // verus!
