//! Bounded sets of byte strings.
//!
//! Pattern analysis tracks which strings a match may be, start with or end
//! with. A set may lose precision (a string may be replaced by one of its
//! prefixes, or of its suffixes) but never coverage.

use vstd::prelude::*;

verus! {

/// Cap on the number of strings tracked in the prefix/suffix sets.
pub const MAX_SET: usize = 20;

/// The strings of a [`StringSet`], in order.
pub type Strings = Seq<Seq<u8>>;

/// Lexicographic order on byte strings: at the first difference the smaller
/// byte decides, and a string comes before its proper extensions.
pub open spec fn less(a: Seq<u8>, b: Seq<u8>) -> bool {
    exists|k: int| #[trigger] differ_at(a, b, k)
}

/// `a` and `b` agree up to `k`, where `a` ends or has the smaller byte.
pub open spec fn differ_at(a: Seq<u8>, b: Seq<u8>, k: int) -> bool {
    &&& 0 <= k <= a.len()
    &&& k < b.len()
    &&& forall|j: int| 0 <= j < k ==> a[j] == b[j]
    &&& k < a.len() ==> a[k] < b[k]
}

/// `x` put in front of the strings at the end of `sorted` that come after it,
/// unless it is there already.
pub open spec fn insert_string(sorted: Strings, x: Seq<u8>) -> Strings
    decreases sorted.len(),
{
    if sorted.len() == 0 {
        seq![x]
    } else if sorted.last() == x {
        sorted
    } else if less(x, sorted.last()) {
        insert_string(sorted.drop_last(), x).push(sorted.last())
    } else {
        sorted.push(x)
    }
}

/// The distinct strings of `s` in lexicographic order.
pub open spec fn sorted_distinct(s: Strings) -> Strings
    decreases s.len(),
{
    if s.len() == 0 {
        s
    } else {
        insert_string(sorted_distinct(s.drop_last()), s.last())
    }
}

/// `s` without the strings that extend the string kept last before them.
pub open spec fn without_extensions(s: Strings) -> Strings
    decreases s.len(),
{
    if s.len() == 0 {
        s
    } else {
        let kept = without_extensions(s.drop_last());
        if kept.len() > 0 && kept.last().is_prefix_of(s.last()) {
            kept
        } else {
            kept.push(s.last())
        }
    }
}

/// The position of the first of the longest strings of `s`.
pub open spec fn longest(s: Strings) -> int
    decreases s.len(),
{
    if s.len() <= 1 {
        0
    } else {
        let i = longest(s.drop_last());
        if s.last().len() > s[i].len() {
            s.len() - 1
        } else {
            i
        }
    }
}

/// The number of bytes in all strings of `s`.
pub open spec fn total_len(s: Strings) -> nat
    decreases s.len(),
{
    if s.len() == 0 {
        0
    } else {
        total_len(s.drop_last()) + s.last().len()
    }
}

/// `s` with the last byte of its longest string dropped, again and again until
/// at most [`MAX_SET`] strings are left. A string of which nothing would be
/// left covers every other one, so the empty string then stands alone.
pub open spec fn shrunk(s: Strings) -> Strings
    decreases total_len(s),
{
    if s.len() <= MAX_SET {
        s
    } else {
        let i = longest(s);
        if s[i].len() <= 1 {
            seq![Seq::<u8>::empty()]
        } else {
            proof {
                lemma_longest(s);
                lemma_total_len_update(s, i, s[i].drop_last());
            }
            shrunk(s.update(i, s[i].drop_last()))
        }
    }
}

/// A bounded set of strings such that every string of `s` starts with one of
/// them.
pub open spec fn truncated(s: Strings) -> Strings {
    shrunk(without_extensions(sorted_distinct(s)))
}

/// Every string of `s` reversed.
pub open spec fn reversed(s: Strings) -> Strings {
    s.map_values(|x: Seq<u8>| x.reverse())
}

/// A bounded set of strings such that every string of `s` ends with one of
/// them.
pub open spec fn truncated_suffixes(s: Strings) -> Strings {
    sorted_distinct(reversed(truncated(reversed(s))))
}

/// Each string of `a` followed by each string of `b`.
pub open spec fn cross(a: Strings, b: Strings) -> Strings
    decreases a.len(),
{
    if a.len() == 0 {
        a
    } else {
        cross(a.drop_last(), b) + b.map_values(|r: Seq<u8>| a.last() + r)
    }
}

/// A string of `s` that `x` starts with exists.
pub open spec fn has_prefix_of(s: Strings, x: Seq<u8>) -> bool {
    exists|i: int| 0 <= i < s.len() && (#[trigger] s[i]).is_prefix_of(x)
}

/// A string of `s` that `x` ends with exists.
pub open spec fn has_suffix_of(s: Strings, x: Seq<u8>) -> bool {
    exists|i: int| 0 <= i < s.len() && (#[trigger] s[i]).is_suffix_of(x)
}

pub proof fn lemma_longest(s: Strings)
    requires
        s.len() > 0,
    ensures
        0 <= longest(s) < s.len(),
        forall|j: int| 0 <= j < s.len() ==> (#[trigger] s[j]).len() <= s[longest(s)].len(),
    decreases s.len(),
{
    if s.len() > 1 {
        lemma_longest(s.drop_last());
        let t = s.drop_last();
        assert forall|j: int| 0 <= j < s.len() implies (#[trigger] s[j]).len() <= s[longest(s)].len() by {
            if j < t.len() {
                assert(t[j].len() <= t[longest(t)].len());
            }
        }
    }
}

pub proof fn lemma_total_len_update(s: Strings, i: int, x: Seq<u8>)
    requires
        0 <= i < s.len(),
    ensures
        total_len(s.update(i, x)) == total_len(s) - s[i].len() + x.len(),
    decreases s.len(),
{
    let t = s.update(i, x);
    if i == s.len() - 1 {
        assert(t.drop_last() =~= s.drop_last());
    } else {
        assert(t.drop_last() =~= s.drop_last().update(i, x));
        lemma_total_len_update(s.drop_last(), i, x);
    }
}

/// Every string of `s` is still there after an insertion, and so is the
/// inserted one.
pub proof fn lemma_insert_string_contains(s: Strings, x: Seq<u8>, y: Seq<u8>)
    ensures
        insert_string(s, x).contains(y) <==> s.contains(y) || y == x,
    decreases s.len(),
{
    if s.len() == 0 {
        assert(seq![x][0] == x);
        assert(!s.contains(y));
    } else if s.last() == x {
        assert(s[s.len() - 1] == x);
    } else if less(x, s.last()) {
        let init = s.drop_last();
        lemma_insert_string_contains(init, x, y);
        assert(s =~= init.push(s.last()));
        lemma_push_contains(init, s.last(), y);
        lemma_push_contains(insert_string(init, x), s.last(), y);
    } else {
        lemma_push_contains(s, x, y);
    }
}

proof fn lemma_push_contains(s: Strings, x: Seq<u8>, y: Seq<u8>)
    ensures
        s.push(x).contains(y) <==> s.contains(y) || y == x,
{
    if s.contains(y) {
        let i = choose|i: int| 0 <= i < s.len() && s[i] == y;
        assert(s.push(x)[i] == y);
    }
    assert(s.push(x)[s.len() as int] == x);
}

/// Sorting and removing duplicates keeps exactly the members.
pub proof fn lemma_sorted_distinct_contains(s: Strings, y: Seq<u8>)
    ensures
        sorted_distinct(s).contains(y) <==> s.contains(y),
    decreases s.len(),
{
    if s.len() > 0 {
        let init = s.drop_last();
        lemma_sorted_distinct_contains(init, y);
        lemma_insert_string_contains(sorted_distinct(init), s.last(), y);
        assert(s =~= init.push(s.last()));
        lemma_push_contains(init, s.last(), y);
    }
}

/// Each string of `s` comes before those behind it.
pub open spec fn strictly_sorted(s: Strings) -> bool {
    forall|i: int, j: int| 0 <= i < j < s.len() ==> less(#[trigger] s[i], #[trigger] s[j])
}

/// The lexicographic order is a strict total order.
pub proof fn lemma_less_is_total(a: Seq<u8>, b: Seq<u8>, c: Seq<u8>)
    ensures
        !less(a, a),
        a == b || less(a, b) || less(b, a),
        less(a, b) && less(b, c) ==> less(a, c),
{
    if less(a, b) && less(b, c) {
        let k = choose|k: int| #[trigger] differ_at(a, b, k);
        let l = choose|l: int| #[trigger] differ_at(b, c, l);
        if k <= l {
            assert(differ_at(a, c, k));
        } else {
            assert(differ_at(a, c, l));
        }
    }
    if a != b && !less(a, b) && !less(b, a) {
        lemma_first_difference(a, b, 0);
        assert(false);
    }
}

proof fn lemma_first_difference(a: Seq<u8>, b: Seq<u8>, k: int)
    requires
        0 <= k <= a.len(),
        k <= b.len(),
        forall|j: int| 0 <= j < k ==> a[j] == b[j],
        a != b,
    ensures
        less(a, b) || less(b, a),
    decreases a.len() - k,
{
    if k == a.len() {
        if k == b.len() {
            assert(a =~= b);
        }
        assert(differ_at(a, b, k));
    } else if k == b.len() || b[k] < a[k] {
        assert(differ_at(b, a, k));
    } else if a[k] < b[k] {
        assert(differ_at(a, b, k));
    } else {
        lemma_first_difference(a, b, k + 1);
    }
}

proof fn lemma_insert_string_sorted(s: Strings, x: Seq<u8>)
    requires
        strictly_sorted(s),
    ensures
        strictly_sorted(insert_string(s, x)),
    decreases s.len(),
{
    if s.len() > 0 && s.last() != x {
        if less(x, s.last()) {
            let init = s.drop_last();
            lemma_insert_string_sorted(init, x);
            let t = insert_string(init, x);
            assert forall|i: int| 0 <= i < t.len() implies less(#[trigger] t[i], s.last()) by {
                assert(t.contains(t[i]));
                lemma_insert_string_contains(init, x, t[i]);
            }
        } else {
            lemma_less_is_total(x, s.last(), x);
            assert forall|i: int| 0 <= i < s.len() implies less(#[trigger] s[i], x) by {
                lemma_less_is_total(s[i], s.last(), x);
            }
        }
    }
}

/// Sorting yields a strictly increasing sequence of the same strings.
pub proof fn sorted_distinct_sorts(s: Strings)
    ensures
        strictly_sorted(sorted_distinct(s)),
        sorted_distinct(s).to_set() == s.to_set(),
    decreases s.len(),
{
    if s.len() > 0 {
        sorted_distinct_sorts(s.drop_last());
        lemma_insert_string_sorted(sorted_distinct(s.drop_last()), s.last());
    }
    assert forall|y: Seq<u8>| sorted_distinct(s).to_set().contains(y) == s.to_set().contains(y) by {
        lemma_sorted_distinct_contains(s, y);
    }
    assert(sorted_distinct(s).to_set() =~= s.to_set());
}

proof fn lemma_prefix_transitive(a: Seq<u8>, b: Seq<u8>, c: Seq<u8>)
    requires
        a.is_prefix_of(b),
        b.is_prefix_of(c),
    ensures
        a.is_prefix_of(c),
{
    assert(c.subrange(0, a.len() as int) =~= b.subrange(0, a.len() as int));
}

/// Dropping extensions leaves, of each string, a prefix.
pub proof fn lemma_without_extensions(s: Strings, i: int)
    requires
        0 <= i < s.len(),
    ensures
        has_prefix_of(without_extensions(s), s[i]),
    decreases s.len(),
{
    let kept = without_extensions(s.drop_last());
    let all = without_extensions(s);
    if i < s.len() - 1 {
        lemma_without_extensions(s.drop_last(), i);
        let k = choose|k: int| 0 <= k < kept.len() && (#[trigger] kept[k]).is_prefix_of(s[i]);
        assert(all[k] == kept[k]);
    } else if kept.len() > 0 && kept.last().is_prefix_of(s.last()) {
        assert(all[kept.len() - 1].is_prefix_of(s[i]));
    } else {
        assert(all[kept.len() as int] == s[i]);
        assert(s[i].subrange(0, s[i].len() as int) =~= s[i]);
    }
}

/// Shrinking leaves, of each string, a prefix.
pub proof fn lemma_shrunk(s: Strings, i: int)
    requires
        0 <= i < s.len(),
    ensures
        has_prefix_of(shrunk(s), s[i]),
    decreases total_len(s),
{
    if s.len() <= MAX_SET {
        assert(s[i].subrange(0, s[i].len() as int) =~= s[i]);
    } else {
        lemma_longest(s);
        let k = longest(s);
        if s[k].len() <= 1 {
            let e = seq![Seq::<u8>::empty()];
            assert(e[0].is_prefix_of(s[i])) by {
                assert(s[i].subrange(0, 0) =~= e[0]);
            }
        } else {
            let t = s.update(k, s[k].drop_last());
            lemma_total_len_update(s, k, s[k].drop_last());
            lemma_shrunk(t, i);
            let j = choose|j: int| 0 <= j < shrunk(t).len() && (#[trigger] shrunk(t)[j]).is_prefix_of(t[i]);
            if i == k {
                assert(t[i].is_prefix_of(s[i])) by {
                    assert(s[i].subrange(0, t[i].len() as int) =~= t[i]);
                }
            } else {
                assert(s[i].subrange(0, s[i].len() as int) =~= s[i]);
            }
            lemma_prefix_transitive(shrunk(t)[j], t[i], s[i]);
            assert(shrunk(s)[j].is_prefix_of(s[i]));
        }
    }
}

/// Truncation never loses coverage: a string that starts with a member of `s`
/// starts with a member of the truncated set.
pub proof fn truncation_covers_prefixes(s: Strings, x: Seq<u8>)
    requires
        has_prefix_of(s, x),
    ensures
        has_prefix_of(truncated(s), x),
{
    let i = choose|i: int| 0 <= i < s.len() && (#[trigger] s[i]).is_prefix_of(x);
    let a = sorted_distinct(s);
    assert(s.contains(s[i]));
    lemma_sorted_distinct_contains(s, s[i]);
    let j = choose|j: int| 0 <= j < a.len() && a[j] == s[i];
    lemma_without_extensions(a, j);
    let b = without_extensions(a);
    let k = choose|k: int| 0 <= k < b.len() && (#[trigger] b[k]).is_prefix_of(a[j]);
    lemma_prefix_transitive(b[k], a[j], x);
    lemma_shrunk(b, k);
    let c = shrunk(b);
    let l = choose|l: int| 0 <= l < c.len() && (#[trigger] c[l]).is_prefix_of(b[k]);
    lemma_prefix_transitive(c[l], b[k], x);
    assert(truncated(s)[l].is_prefix_of(x));
}

proof fn lemma_reverse_prefix(p: Seq<u8>, x: Seq<u8>)
    ensures
        p.is_suffix_of(x) <==> p.reverse().is_prefix_of(x.reverse()),
        p.reverse().reverse() == p,
{
    assert(p.reverse().reverse() =~= p);
    let n = x.len();
    let m = p.len();
    if p.is_suffix_of(x) {
        assert(x.subrange(n - m, n as int) == p);
        assert(x.reverse().subrange(0, m as int) =~= p.reverse());
    }
    if p.reverse().is_prefix_of(x.reverse()) {
        let tail = x.subrange(n - m, n as int);
        assert forall|i: int| 0 <= i < m implies tail[i] == p[i] by {
            assert(x.reverse().subrange(0, m as int)[m - 1 - i] == p.reverse()[m - 1 - i]);
        }
        assert(tail =~= p);
    }
}

/// The same of suffixes: a string that ends with a member of `s` ends with a
/// member of the set truncated from the other end.
pub proof fn truncation_covers_suffixes(s: Strings, x: Seq<u8>)
    requires
        has_suffix_of(s, x),
    ensures
        has_suffix_of(truncated_suffixes(s), x),
{
    let i = choose|i: int| 0 <= i < s.len() && (#[trigger] s[i]).is_suffix_of(x);
    let r = reversed(s);
    lemma_reverse_prefix(s[i], x);
    assert(r[i].is_prefix_of(x.reverse()));
    truncation_covers_prefixes(r, x.reverse());
    let t = truncated(r);
    let j = choose|j: int| 0 <= j < t.len() && (#[trigger] t[j]).is_prefix_of(x.reverse());
    let q = t[j].reverse();
    lemma_reverse_prefix(q, x);
    assert(t[j].reverse().reverse() =~= t[j]);
    assert(q.is_suffix_of(x));
    assert(reversed(t)[j] == q);
    assert(reversed(t).contains(q));
    lemma_sorted_distinct_contains(reversed(t), q);
    let k = choose|k: int| 0 <= k < truncated_suffixes(s).len() && truncated_suffixes(s)[k] == q;
    assert(truncated_suffixes(s)[k].is_suffix_of(x));
}

/// The product of two sets holds every concatenation of their members.
pub proof fn lemma_cross_contains(a: Strings, b: Strings, i: int, j: int)
    requires
        0 <= i < a.len(),
        0 <= j < b.len(),
    ensures
        cross(a, b).contains(a[i] + b[j]),
    decreases a.len(),
{
    let init = cross(a.drop_last(), b);
    let tail = b.map_values(|r: Seq<u8>| a.last() + r);
    if i < a.len() - 1 {
        lemma_cross_contains(a.drop_last(), b, i, j);
        let k = choose|k: int| 0 <= k < init.len() && init[k] == a[i] + b[j];
        assert((init + tail)[k] == a[i] + b[j]);
    } else {
        assert((init + tail)[init.len() + j] == a[i] + b[j]);
    }
}

/// The strings held by a vector of byte vectors.
pub open spec fn strings_of(v: Seq<Vec<u8>>) -> Strings {
    v.map_values(|x: Vec<u8>| x@)
}

/// A bounded set of byte strings, used to track exact / prefix / suffix sets.
#[derive(Debug)]
pub struct StringSet {
    pub strings: Vec<Vec<u8>>,
}

impl View for StringSet {
    type V = Strings;

    open spec fn view(&self) -> Strings {
        strings_of(self.strings@)
    }
}

/// Whether `a` comes before `b` in lexicographic order.
pub fn bytes_less(a: &[u8], b: &[u8]) -> (out: bool)
    ensures
        out == less(a@, b@),
{
    let mut i: usize = 0;
    while i < a.len() && i < b.len() && a[i] == b[i]
        invariant
            i <= a@.len(),
            i <= b@.len(),
            forall|j: int| 0 <= j < i ==> a@[j] == b@[j],
        decreases a@.len() - i,
    {
        i += 1;
    }
    let out = i < b.len() && (i == a.len() || a[i] < b[i]);
    proof {
        if out {
            assert(differ_at(a@, b@, i as int));
        } else if less(a@, b@) {
            let k = choose|k: int| #[trigger] differ_at(a@, b@, k);
            assert(k >= i);
            assert(k <= i);
        }
    }
    out
}

/// Whether two byte strings are equal.
pub fn bytes_equal(a: &[u8], b: &[u8]) -> (out: bool)
    ensures
        out == (a@ == b@),
{
    if a.len() != b.len() {
        return false;
    }
    let mut i: usize = 0;
    while i < a.len()
        invariant
            i <= a@.len() == b@.len(),
            forall|j: int| 0 <= j < i ==> a@[j] == b@[j],
        decreases a@.len() - i,
    {
        if a[i] != b[i] {
            return false;
        }
        i += 1;
    }
    assert(a@ =~= b@);
    true
}

/// Whether `text` starts with `prefix`.
pub fn starts_with(text: &[u8], prefix: &[u8]) -> (out: bool)
    ensures
        out == prefix@.is_prefix_of(text@),
{
    if prefix.len() > text.len() {
        return false;
    }
    let mut i: usize = 0;
    while i < prefix.len()
        invariant
            i <= prefix@.len() <= text@.len(),
            forall|j: int| 0 <= j < i ==> prefix@[j] == text@[j],
        decreases prefix@.len() - i,
    {
        if text[i] != prefix[i] {
            proof {
                assert(text@.subrange(0, prefix@.len() as int)[i as int] != prefix@[i as int]);
            }
            return false;
        }
        i += 1;
    }
    assert(text@.subrange(0, prefix@.len() as int) =~= prefix@);
    true
}

/// A copy of a byte string.
pub fn copy_bytes(bytes: &[u8]) -> (out: Vec<u8>)
    ensures
        out@ == bytes@,
{
    let mut out: Vec<u8> = Vec::with_capacity(bytes.len());
    out.extend_from_slice(bytes);
    assert(out@ =~= bytes@);
    out
}

/// `bytes` from its last byte to its first.
fn reverse_bytes(bytes: &[u8]) -> (out: Vec<u8>)
    ensures
        out@ == bytes@.reverse(),
{
    let mut out: Vec<u8> = Vec::with_capacity(bytes.len());
    let mut i: usize = bytes.len();
    while i > 0
        invariant
            i <= bytes@.len(),
            out@ =~= bytes@.reverse().take(bytes@.len() - i),
        decreases i,
    {
        i -= 1;
        out.push(bytes[i]);
    }
    out
}

/// Where an insertion that scans `s` from its end takes effect.
proof fn lemma_insert_string_at(s: Strings, x: Seq<u8>, i: int)
    requires
        0 <= i <= s.len(),
        forall|j: int| i <= j < s.len() ==> less(x, #[trigger] s[j]) && s[j] != x,
        i > 0 ==> s[i - 1] == x || !less(x, s[i - 1]),
    ensures
        insert_string(s, x) == if i > 0 && s[i - 1] == x {
            s
        } else {
            s.insert(i, x)
        },
    decreases s.len() - i,
{
    if i < s.len() {
        assert(s[s.len() - 1] == s.last());
        lemma_insert_string_at(s.drop_last(), x, i);
        assert(s.drop_last().push(s.last()) =~= s);
        assert(s.drop_last().insert(i, x).push(s.last()) =~= s.insert(i, x));
    } else if s.len() == 0 {
        assert(s.insert(0, x) =~= seq![x]);
    } else {
        assert(s.insert(i, x) =~= s.push(x));
    }
}

/// Insert `x` into a sorted vector, unless it is there.
fn insert_sorted(sorted: &mut Vec<Vec<u8>>, x: Vec<u8>)
    ensures
        strings_of(final(sorted)@) == insert_string(strings_of(old(sorted)@), x@),
{
    let ghost before = strings_of(sorted@);
    let mut i: usize = sorted.len();
    while i > 0 && bytes_less(&x, &sorted[i - 1]) && !bytes_equal(&x, &sorted[i - 1])
        invariant
            i <= sorted@.len(),
            before == strings_of(sorted@),
            forall|j: int| i <= j < sorted@.len() ==> less(x@, #[trigger] before[j]) && before[j] != x@,
        decreases i,
    {
        i -= 1;
    }
    proof {
        lemma_insert_string_at(before, x@, i as int);
    }
    if i > 0 && bytes_equal(&x, &sorted[i - 1]) {
        return;
    }
    sorted.insert(i, x);
    assert(strings_of(sorted@) =~= before.insert(i as int, x@));
}

impl StringSet {
    /// The set of no strings.
    pub fn empty() -> (out: StringSet)
        ensures
            out@ == Strings::empty(),
    {
        let out = StringSet { strings: Vec::new() };
        assert(out@ =~= Strings::empty());
        out
    }

    /// The set of one string.
    pub fn one(s: Vec<u8>) -> (out: StringSet)
        ensures
            out@ == seq![s@],
    {
        let mut out = StringSet::empty();
        out.add(s);
        assert(out@ =~= seq![s@]);
        out
    }

    /// Append a string.
    pub fn add(&mut self, s: Vec<u8>)
        ensures
            final(self)@ == old(self)@.push(s@),
    {
        let ghost before = self@;
        self.strings.push(s);
        assert(self@ =~= before.push(s@));
    }

    /// Cartesian product (each left concatenated with each right).
    pub fn cross(&self, other: &StringSet) -> (out: StringSet)
        ensures
            out@ == cross(self@, other@),
    {
        let mut out = StringSet::empty();
        let ghost a = self@;
        let ghost b = other@;
        let mut i: usize = 0;
        assert(a.take(0) =~= Strings::empty());
        while i < self.strings.len()
            invariant
                i <= self.strings@.len(),
                a == self@,
                b == other@,
                out@ == cross(a.take(i as int), b),
            decreases self.strings@.len() - i,
        {
            let ghost done = out@;
            let ghost tail = b.map_values(|r: Seq<u8>| a[i as int] + r);
            let mut j: usize = 0;
            assert(done + tail.take(0) =~= done);
            while j < other.strings.len()
                invariant
                    i < self.strings@.len(),
                    j <= other.strings@.len(),
                    a == self@,
                    b == other@,
                    tail == b.map_values(|r: Seq<u8>| a[i as int] + r),
                    out@ == done + tail.take(j as int),
                decreases other.strings@.len() - j,
            {
                let mut s = copy_bytes(&self.strings[i]);
                s.extend_from_slice(&other.strings[j]);
                assert(s@ =~= a[i as int] + b[j as int]);
                out.add(s);
                assert(done + tail.take(j + 1) =~= (done + tail.take(j as int)).push(tail[j as int]));
                j += 1;
            }
            proof {
                assert(tail.take(j as int) =~= tail);
                assert(a.take(i + 1).drop_last() =~= a.take(i as int));
                assert(a.take(i + 1).last() == a[i as int]);
                assert(tail =~= b.map_values(|r: Seq<u8>| a.take(i + 1).last() + r));
            }
            i += 1;
        }
        assert(a.take(i as int) =~= a);
        out
    }

    /// The strings of both sets, those of `self` first.
    pub fn union(self, other: StringSet) -> (out: StringSet)
        ensures
            out@ == self@ + other@,
    {
        let mut out = self;
        let mut rest = other.strings;
        out.strings.append(&mut rest);
        assert(out@ =~= self@ + other@);
        out
    }

    /// Sort the strings and drop the duplicates.
    fn sort_distinct(&mut self)
        ensures
            final(self)@ == sorted_distinct(old(self)@),
    {
        let ghost s = self@;
        let mut sorted: Vec<Vec<u8>> = Vec::with_capacity(self.strings.len());
        let mut i: usize = 0;
        assert(strings_of(sorted@) =~= sorted_distinct(s.take(0)));
        while i < self.strings.len()
            invariant
                i <= self.strings@.len(),
                s == self@,
                strings_of(sorted@) == sorted_distinct(s.take(i as int)),
            decreases self.strings@.len() - i,
        {
            let x = copy_bytes(&self.strings[i]);
            insert_sorted(&mut sorted, x);
            assert(s.take(i + 1).drop_last() =~= s.take(i as int));
            i += 1;
        }
        assert(s.take(i as int) =~= s);
        self.strings = sorted;
    }

    /// Drop any string that has the one kept before it as a prefix.
    fn drop_extensions(&mut self)
        ensures
            final(self)@ == without_extensions(old(self)@),
    {
        let ghost s = self@;
        let mut keep: Vec<Vec<u8>> = Vec::with_capacity(self.strings.len());
        let mut i: usize = 0;
        assert(strings_of(keep@) =~= without_extensions(s.take(0)));
        while i < self.strings.len()
            invariant
                i <= self.strings@.len(),
                s == self@,
                strings_of(keep@) == without_extensions(s.take(i as int)),
            decreases self.strings@.len() - i,
        {
            let ghost kept = strings_of(keep@);
            let dominated = keep.len() > 0 && starts_with(&self.strings[i], &keep[keep.len() - 1]);
            assert(s.take(i + 1).drop_last() =~= s.take(i as int));
            if !dominated {
                keep.push(copy_bytes(&self.strings[i]));
                assert(strings_of(keep@) =~= kept.push(s[i as int]));
            }
            i += 1;
        }
        assert(s.take(i as int) =~= s);
        self.strings = keep;
    }

    /// The position of the first of the longest strings.
    fn longest(&self) -> (at: usize)
        requires
            self.strings@.len() > 0,
        ensures
            at == longest(self@),
            at < self.strings@.len(),
    {
        let ghost s = self@;
        let mut at: usize = 0;
        let mut i: usize = 1;
        while i < self.strings.len()
            invariant
                s == self@,
                1 <= i <= self.strings@.len(),
                at < i,
                at == longest(s.take(i as int)),
            decreases self.strings@.len() - i,
        {
            assert(s.take(i + 1).drop_last() =~= s.take(i as int));
            if self.strings[i].len() > self.strings[at].len() {
                at = i;
            }
            i += 1;
        }
        assert(s.take(i as int) =~= s);
        at
    }

    /// Drop trailing bytes of the longest strings until the set fits.
    fn shrink(&mut self)
        ensures
            final(self)@ == shrunk(old(self)@),
    {
        while self.strings.len() > MAX_SET
            invariant
                shrunk(self@) == shrunk(old(self)@),
            decreases total_len(self@),
        {
            let at = self.longest();
            let ghost before = self@;
            proof {
                lemma_total_len_update(before, at as int, before[at as int].drop_last());
            }
            if self.strings[at].len() <= 1 {
                *self = StringSet::one(Vec::new());
                assert(self@ =~= seq![Seq::<u8>::empty()]);
                return;
            }
            self.strings[at].pop();
            assert(self@ =~= before.update(at as int, before[at as int].drop_last()));
        }
    }

    /// Reduce a set of prefixes: no member extends another one, and there are
    /// at most [`MAX_SET`]. Whatever started with a member still does.
    pub fn truncate(&mut self)
        ensures
            final(self)@ == truncated(old(self)@),
    {
        self.sort_distinct();
        self.drop_extensions();
        self.shrink();
    }

    /// Reverse every string.
    fn reverse_all(&mut self)
        ensures
            final(self)@ == reversed(old(self)@),
    {
        let ghost s = self@;
        let mut out = StringSet::empty();
        let mut i: usize = 0;
        while i < self.strings.len()
            invariant
                i <= self.strings@.len(),
                s == self@,
                out@ =~= reversed(s).take(i as int),
            decreases self.strings@.len() - i,
        {
            out.add(reverse_bytes(&self.strings[i]));
            i += 1;
        }
        assert(out@ =~= reversed(s));
        *self = out;
    }

    /// Reduce a set of suffixes in the same way, from the other end.
    pub fn truncate_suffixes(&mut self)
        ensures
            final(self)@ == truncated_suffixes(old(self)@),
    {
        self.reverse_all();
        self.truncate();
        self.reverse_all();
        self.sort_distinct();
    }
}

impl Clone for StringSet {
    fn clone(&self) -> (out: StringSet)
        ensures
            out@ == self@,
    {
        let mut out = StringSet::empty();
        let mut i: usize = 0;
        while i < self.strings.len()
            invariant
                i <= self.strings@.len(),
                out@ =~= self@.take(i as int),
            decreases self.strings@.len() - i,
        {
            out.add(copy_bytes(&self.strings[i]));
            i += 1;
        }
        assert(out@ =~= self@);
        out
    }
}

/// A single string stays as it is, and the empty string covers any other.
pub proof fn single_strings_are_kept(x: Seq<u8>)
    ensures
        truncated(seq![x]) == seq![x],
        truncated_suffixes(seq![x]) == seq![x],
        truncated_suffixes(seq![Seq::<u8>::empty(), x]) == seq![Seq::<u8>::empty()],
{
    let none = Seq::<u8>::empty();
    lemma_truncated_one(x);
    lemma_truncated_one(x.reverse());
    lemma_truncated_one(none);
    assert(reversed(seq![x]) =~= seq![x.reverse()]);
    assert(x.reverse().reverse() =~= x);
    assert(reversed(seq![x.reverse()]) =~= seq![x]);
    let y = x.reverse();
    let two = seq![none, y];
    assert(none.reverse() =~= none);
    assert(reversed(seq![none, x]) =~= two);
    reveal_with_fuel(sorted_distinct, 3);
    reveal_with_fuel(without_extensions, 3);
    assert(two.drop_last() =~= seq![none]);
    assert(two.last() == y);
    assert(seq![none].drop_last() =~= Seq::<Seq<u8>>::empty());
    assert(seq![none].last() == none);
    assert(!less(y, none)) by {
        if less(y, none) {
            let k = choose|k: int| #[trigger] differ_at(y, none, k);
        }
    }
    assert(sorted_distinct(two) =~= if y == none {
        seq![none]
    } else {
        seq![none, y]
    });
    assert(none.is_prefix_of(y)) by {
        assert(y.take(0) =~= none);
    }
    if y != none {
        assert(seq![none, y].drop_last() =~= seq![none]);
        assert(without_extensions(seq![none, y]) =~= seq![none]);
    }
    assert(truncated(two) == seq![none]);
    assert(reversed(seq![none]) =~= seq![none]);
}

proof fn lemma_truncated_one(x: Seq<u8>)
    ensures
        sorted_distinct(seq![x]) == seq![x],
        without_extensions(seq![x]) == seq![x],
        truncated(seq![x]) == seq![x],
{
    reveal_with_fuel(sorted_distinct, 2);
    reveal_with_fuel(without_extensions, 2);
    assert(seq![x].drop_last() =~= Seq::<Seq<u8>>::empty());
    assert(seq![x].last() == x);
    assert(sorted_distinct(seq![x]) =~= seq![x]);
    assert(without_extensions(seq![x]) =~= seq![x]);
}

/// The product of two sets holds each string of the one followed by each of the
/// other, and nothing else.
pub proof fn products_hold_every_pair(a: Strings, b: Strings, x: Seq<u8>)
    ensures
        cross(a, b).len() == a.len() * b.len(),
        cross(a, b).contains(x) <==> exists|i: int, j: int|
            0 <= i < a.len() && 0 <= j < b.len() && x == #[trigger] a[i] + #[trigger] b[j],
    decreases a.len(),
{
    if a.len() == 0 {
        assert(a.len() * b.len() == 0) by (nonlinear_arith)
            requires
                a.len() == 0,
        ;
    } else {
        let init = a.drop_last();
        let last = a.len() - 1;
        products_hold_every_pair(init, b, x);
        assert((init.len() + 1) * b.len() == init.len() * b.len() + b.len()) by (nonlinear_arith);
        let tail = b.map_values(|r: Seq<u8>| a.last() + r);
        let (less, all) = (cross(init, b), cross(a, b));
        assert(all == less + tail);
        assert forall|i: int| 0 <= i < init.len() implies #[trigger] init[i] == a[i] by {}
        if all.contains(x) {
            let k = choose|k: int| 0 <= k < all.len() && all[k] == x;
            if k < less.len() {
                assert(less[k] == x);
                assert(less.contains(x));
                let (i, j) = choose|i: int, j: int|
                    0 <= i < init.len() && 0 <= j < b.len() && x == #[trigger] init[i] + #[trigger] b[j];
                assert(x == a[i] + b[j]);
            } else {
                let j = k - less.len();
                assert(tail[j] == x);
                assert(x == a[last] + b[j]);
            }
        }
        if exists|i: int, j: int| 0 <= i < a.len() && 0 <= j < b.len() && x == #[trigger] a[i] + #[trigger] b[j] {
            let (i, j) = choose|i: int, j: int|
                0 <= i < a.len() && 0 <= j < b.len() && x == #[trigger] a[i] + #[trigger] b[j];
            if i < last {
                assert(x == init[i] + b[j]);
                let k = choose|k: int| 0 <= k < less.len() && less[k] == x;
                assert(all[k] == x);
            } else {
                assert(tail[j] == x);
                assert(all[less.len() + j] == x);
            }
        }
    }
}

/// A set that is cut down has at most twenty strings, and one that is small enough
/// stays.
pub proof fn cut_sets_are_small(s: Strings)
    ensures
        shrunk(s).len() <= 20,
        s.len() <= 20 ==> shrunk(s) == s,
    decreases total_len(s),
{
    if s.len() > MAX_SET {
        let i = longest(s);
        if s[i].len() > 1 {
            lemma_longest(s);
            lemma_total_len_update(s, i, s[i].drop_last());
            cut_sets_are_small(s.update(i, s[i].drop_last()));
        }
    }
}

} // verus!
