//! Expressions with their letters made lower-case.
//!
//! The index holds the trigrams of a text and of its lowercased form. So where
//! case is ignored, what is looked up is the query of an expression that matches
//! in the lowercased text wherever the expression at hand matches in the text
//! itself. [`Expr::fold`] makes one; only ASCII letters are folded, as in the
//! index.

use vstd::prelude::*;
use vstd::utf8::{char_is_scalar, encode_scalar, is_scalar};

use crate::expr::{
    byte_ranges, char_ranges, exprs_of, in_ranges, lemma_expr_view, ranges_ordered, Expr, ExprSpec,
};
use crate::trigram::{lower, lower_ascii};

verus! {

/// A code point with an ASCII upper-case letter made lower-case.
pub open spec fn fold_point(c: u32) -> u32 {
    if 65 <= c <= 90 {
        (c + 32) as u32
    } else {
        c
    }
}

/// One of the ranges holds all of `lo` to `hi`.
pub open spec fn holds_range(ranges: Seq<(char, char)>, lo: char, hi: char) -> bool {
    exists|i: int| 0 <= i < ranges.len() && (#[trigger] ranges[i]).0 as u32 <= lo as u32 && hi as u32 <= ranges[i].1 as u32
}

/// The part of a range below the upper-case letters.
pub open spec fn part_below(r: (char, char)) -> Seq<(char, char)> {
    if 65 > r.0 as u32 {
        seq![(r.0, if 65 > r.1 as u32 { r.1 } else { '@' })]
    } else {
        Seq::empty()
    }
}

/// The lower-case forms of the upper-case letters of a range, unless one of the
/// ranges holds them all anyway.
pub open spec fn part_folded(ranges: Seq<(char, char)>, r: (char, char)) -> Seq<(char, char)> {
    if r.0 as u32 <= 90 && 65 <= r.1 as u32 {
        let lo = (if 65 > r.0 as u32 { 'a' } else { (r.0 as u32 + 32) as char });
        let hi = (if 90 < r.1 as u32 { 'z' } else { (r.1 as u32 + 32) as char });
        if holds_range(ranges, lo, hi) {
            Seq::empty()
        } else {
            seq![(lo, hi)]
        }
    } else {
        Seq::empty()
    }
}

/// The part of a range above the upper-case letters.
pub open spec fn part_above(r: (char, char)) -> Seq<(char, char)> {
    if 90 < r.1 as u32 {
        seq![(if 90 < r.0 as u32 { r.0 } else { '[' }, r.1)]
    } else {
        Seq::empty()
    }
}

/// The first `n` ranges with their letters made lower-case.
pub open spec fn folded_upto(ranges: Seq<(char, char)>, n: nat) -> Seq<(char, char)>
    decreases n,
{
    if n == 0 {
        Seq::empty()
    } else {
        let r = ranges[n - 1];
        folded_upto(ranges, (n - 1) as nat) + part_below(r) + part_folded(ranges, r) + part_above(r)
    }
}

/// A class with its letters made lower-case.
pub open spec fn folded_ranges(ranges: Seq<(char, char)>) -> Seq<(char, char)> {
    folded_upto(ranges, ranges.len())
}

/// A class of ASCII bytes as a class of characters.
pub open spec fn bytes_as_chars(ranges: Seq<(u8, u8)>) -> Seq<(char, char)> {
    ranges.map_values(|r: (u8, u8)| (r.0 as char, r.1 as char))
}

impl ExprSpec {
    /// The expression with its letters made lower-case.
    pub open spec fn folded(self) -> ExprSpec
        decreases self,
    {
        match self {
            ExprSpec::Literal(bytes) => ExprSpec::Literal(lower(bytes)),
            ExprSpec::ClassUnicode(ranges) => ExprSpec::ClassUnicode(folded_ranges(ranges)),
            ExprSpec::ClassBytes(ranges) => ExprSpec::ClassUnicode(folded_ranges(bytes_as_chars(ranges))),
            ExprSpec::Repetition { counts, sub } => ExprSpec::Repetition { counts, sub: Box::new((*sub).folded()) },
            ExprSpec::Capture(sub) => ExprSpec::Capture(Box::new((*sub).folded())),
            ExprSpec::Concat(parts) => ExprSpec::Concat(
                Seq::new(
                    parts.len(),
                    |i: int| if 0 <= i < parts.len() { parts[i].folded() } else { ExprSpec::Empty },
                ),
            ),
            ExprSpec::Alternation(parts) => ExprSpec::Alternation(
                Seq::new(
                    parts.len(),
                    |i: int| if 0 <= i < parts.len() { parts[i].folded() } else { ExprSpec::Empty },
                ),
            ),
            _ => self,
        }
    }
}

/// Several expressions with their letters made lower-case.
pub open spec fn folded_all(parts: Seq<ExprSpec>) -> Seq<ExprSpec> {
    parts.map_values(|e: ExprSpec| e.folded())
}

proof fn lemma_folded_parts(e: ExprSpec)
    ensures
        e matches ExprSpec::Concat(parts) ==> e.folded() == ExprSpec::Concat(folded_all(parts)),
        e matches ExprSpec::Alternation(parts) ==> e.folded() == ExprSpec::Alternation(folded_all(parts)),
{
    match e {
        ExprSpec::Concat(parts) => {
            assert(e.folded()->Concat_0 =~= folded_all(parts));
        },
        ExprSpec::Alternation(parts) => {
            assert(e.folded()->Alternation_0 =~= folded_all(parts));
        },
        _ => {},
    }
}

proof fn lemma_lower_encoded(c: u32)
    requires
        is_scalar(c),
    ensures
        is_scalar(fold_point(c)),
        lower(encode_scalar(c)) == encode_scalar(fold_point(c)),
{
    let d = fold_point(c);
    if c <= 0x7f {
        assert(c & 0x7f == c) by (bit_vector)
            requires
                c <= 0x7f,
        ;
        assert(d & 0x7f == d) by (bit_vector)
            requires
                d <= 0x7f,
        ;
        assert(lower(encode_scalar(c)) =~= encode_scalar(d));
    } else {
        assert forall|x: u8| #![auto] 0x80u8 | x >= 0x80 && 0xc0u8 | x >= 0x80 && 0xe0u8 | x >= 0x80 && 0xf0u8 | x
            >= 0x80 by {
            assert(0x80u8 | x >= 0x80 && 0xc0u8 | x >= 0x80 && 0xe0u8 | x >= 0x80 && 0xf0u8 | x >= 0x80) by (bit_vector);
        }
        assert(lower(encode_scalar(c)) =~= encode_scalar(c));
    }
}

proof fn lemma_folded_grow(ranges: Seq<(char, char)>, n: nat, m: nat, x: u32)
    requires
        n <= m <= ranges.len(),
        in_ranges(char_ranges(folded_upto(ranges, n)), x),
    ensures
        in_ranges(char_ranges(folded_upto(ranges, m)), x),
    decreases m,
{
    if n < m {
        lemma_folded_grow(ranges, n, (m - 1) as nat, x);
        let less = folded_upto(ranges, (m - 1) as nat);
        let i = choose|i: int|
            0 <= i < char_ranges(less).len() && (#[trigger] char_ranges(less)[i]).0 <= x <= char_ranges(less)[i].1;
        assert(char_ranges(folded_upto(ranges, m))[i] == char_ranges(less)[i]);
    }
}

/// A part of a class with its letters made lower-case holds the code point.
proof fn lemma_in_part(ranges: Seq<(char, char)>, n: nat, part: Seq<(char, char)>, x: u32)
    requires
        0 < n <= ranges.len(),
        part.len() == 1,
        part == part_below(ranges[n - 1]) || part == part_folded(ranges, ranges[n - 1]) || part == part_above(
            ranges[n - 1],
        ),
        part[0].0 as u32 <= x <= part[0].1 as u32,
    ensures
        in_ranges(char_ranges(folded_ranges(ranges)), x),
{
    let r = ranges[n - 1];
    let before = folded_upto(ranges, (n - 1) as nat);
    let now = folded_upto(ranges, n);
    let at = if part == part_below(r) {
        before.len() as int
    } else if part == part_folded(ranges, r) {
        (before + part_below(r)).len() as int
    } else {
        (before + part_below(r) + part_folded(ranges, r)).len() as int
    };
    assert(now[at] == part[0]);
    assert(char_ranges(now)[at] == (part[0].0 as u32, part[0].1 as u32));
    lemma_folded_grow(ranges, n, ranges.len(), x);
}

/// A class with its letters made lower-case holds the lower-case form of each
/// member.
proof fn lemma_folded_class(ranges: Seq<(char, char)>, c: u32)
    requires
        in_ranges(char_ranges(ranges), c),
    ensures
        in_ranges(char_ranges(folded_ranges(ranges)), fold_point(c)),
{
    let all = char_ranges(ranges);
    let i = choose|i: int| 0 <= i < all.len() && (#[trigger] all[i]).0 <= c <= all[i].1;
    let r = ranges[i];
    assert(all[i] == (r.0 as u32, r.1 as u32));
    let n = (i + 1) as nat;
    char_is_scalar(r.0);
    char_is_scalar(r.1);
    if c < 65 {
        lemma_in_part(ranges, n, part_below(r), c);
    } else if c > 90 {
        lemma_in_part(ranges, n, part_above(r), c);
    } else if part_folded(ranges, r).len() == 1 {
        lemma_in_part(ranges, n, part_folded(ranges, r), fold_point(c));
    } else {
        let lo = (if 65 > r.0 as u32 { 'a' } else { (r.0 as u32 + 32) as char });
        let hi = (if 90 < r.1 as u32 { 'z' } else { (r.1 as u32 + 32) as char });
        let j = choose|j: int| 0 <= j < ranges.len() && (#[trigger] ranges[j]).0 as u32 <= lo as u32 && hi as u32 <= ranges[j].1 as u32;
        char_is_scalar(ranges[j].0);
        char_is_scalar(ranges[j].1);
        lemma_in_part(ranges, (j + 1) as nat, part_above(ranges[j]), fold_point(c));
    }
}

proof fn lemma_folded_ordered(ranges: Seq<(char, char)>, n: nat)
    requires
        n <= ranges.len(),
        ranges_ordered(char_ranges(ranges)),
    ensures
        ranges_ordered(char_ranges(folded_upto(ranges, n))),
    decreases n,
{
    if n > 0 {
        let m = (n - 1) as nat;
        lemma_folded_ordered(ranges, m);
        let r = ranges[n - 1];
        char_is_scalar(r.0);
        char_is_scalar(r.1);
        assert(char_ranges(ranges)[n - 1] == (r.0 as u32, r.1 as u32));
        let before = folded_upto(ranges, m);
        let now = folded_upto(ranges, n);
        assert forall|i: int| 0 <= i < char_ranges(now).len() implies (#[trigger] char_ranges(now)[i]).0
            <= char_ranges(now)[i].1 by {
            if i < before.len() {
                assert(char_ranges(now)[i] == char_ranges(before)[i]);
            } else {
                let a = before.len();
                let b = a + part_below(r).len();
                let c = b + part_folded(ranges, r).len();
                if i < b {
                    assert(now[i] == part_below(r)[i - a]);
                } else if i < c {
                    assert(now[i] == part_folded(ranges, r)[i - b]);
                } else {
                    assert(now[i] == part_above(r)[i - c]);
                }
            }
        }
    }
}

/// Folding keeps an expression well-formed.
pub proof fn folded_is_well_formed(expr: ExprSpec)
    requires
        expr.well_formed(),
    ensures
        expr.folded().well_formed(),
    decreases expr,
{
    lemma_folded_parts(expr);
    match expr {
        ExprSpec::ClassUnicode(ranges) => {
            lemma_folded_ordered(ranges, ranges.len());
        },
        ExprSpec::ClassBytes(ranges) => {
            lemma_bytes_as_chars(ranges);
            lemma_folded_ordered(bytes_as_chars(ranges), ranges.len());
        },
        ExprSpec::Repetition { counts, sub } => {
            folded_is_well_formed(*sub);
        },
        ExprSpec::Capture(sub) => {
            folded_is_well_formed(*sub);
        },
        ExprSpec::Concat(parts) => {
            assert forall|i: int| 0 <= i < parts.len() implies (#[trigger] folded_all(parts)[i]).well_formed() by {
                assert(parts[i].well_formed());
                folded_is_well_formed(parts[i]);
            }
            lemma_well_formed_parts(expr.folded());
        },
        ExprSpec::Alternation(parts) => {
            assert forall|i: int| 0 <= i < parts.len() implies (#[trigger] folded_all(parts)[i]).well_formed() by {
                assert(parts[i].well_formed());
                folded_is_well_formed(parts[i]);
            }
            lemma_well_formed_parts(expr.folded());
        },
        _ => {},
    }
}

proof fn lemma_well_formed_parts(e: ExprSpec)
    ensures
        e matches ExprSpec::Concat(parts) ==> (e.well_formed() <==> parts.len() > 0 && forall|i: int|
            0 <= i < parts.len() ==> (#[trigger] parts[i]).well_formed()),
        e matches ExprSpec::Alternation(parts) ==> (e.well_formed() <==> parts.len() > 0 && forall|i: int|
            0 <= i < parts.len() ==> (#[trigger] parts[i]).well_formed()),
{
}

proof fn lemma_bytes_as_chars(ranges: Seq<(u8, u8)>)
    requires
        forall|i: int| 0 <= i < ranges.len() ==> (#[trigger] ranges[i]).1 <= 0x7f,
        ranges_ordered(byte_ranges(ranges)),
    ensures
        char_ranges(bytes_as_chars(ranges)) == byte_ranges(ranges),
{
    assert forall|i: int| 0 <= i < ranges.len() implies #[trigger] char_ranges(bytes_as_chars(ranges))[i] == byte_ranges(
        ranges,
    )[i] by {
        assert(byte_ranges(ranges)[i].0 <= byte_ranges(ranges)[i].1);
        assert(ranges[i].1 <= 0x7f);
    }
    assert(char_ranges(bytes_as_chars(ranges)) =~= byte_ranges(ranges));
}

proof fn lemma_class_matches(e: ExprSpec, c: u32)
    requires
        e matches ExprSpec::ClassUnicode(ranges) && in_ranges(char_ranges(ranges), c),
        is_scalar(c),
    ensures
        e.matches(encode_scalar(c)),
{
}

proof fn lemma_repetition_matches(e: ExprSpec, n: int, s: Seq<u8>)
    requires
        e matches ExprSpec::Repetition { counts, sub } && counts.contains(n) && (*sub).matches_times(n as nat, s),
        n >= 0,
    ensures
        e.matches(s),
{
}

proof fn lemma_alternation_matches(e: ExprSpec, i: int, s: Seq<u8>)
    requires
        e matches ExprSpec::Alternation(parts) && 0 <= i < parts.len() && parts[i].matches(s),
    ensures
        e.matches(s),
{
}

/// Where an expression matches a text, the folded one matches the lowercased
/// text.
pub proof fn folding_follows_matches(expr: ExprSpec, s: Seq<u8>)
    requires
        expr.well_formed(),
        expr.matches(s),
    ensures
        expr.folded().matches(lower(s)),
    decreases expr, 0int,
{
    lemma_folded_parts(expr);
    match expr {
        ExprSpec::ClassUnicode(ranges) => {
            let c = choose|c: u32| #[trigger]
                is_scalar(c) && in_ranges(char_ranges(ranges), c) && s == encode_scalar(c);
            lemma_lower_encoded(c);
            lemma_folded_class(ranges, c);
            lemma_class_matches(expr.folded(), fold_point(c));
        },
        ExprSpec::ClassBytes(ranges) => {
            let c = s[0] as u32;
            let all = byte_ranges(ranges);
            let i = choose|i: int| 0 <= i < all.len() && (#[trigger] all[i]).0 <= c <= all[i].1;
            assert(all[i].1 == ranges[i].1 as u32);
            assert(c & 0x7f == c) by (bit_vector)
                requires
                    c <= 0x7f,
            ;
            assert(encode_scalar(c) =~= s);
            lemma_bytes_as_chars(ranges);
            lemma_lower_encoded(c);
            lemma_folded_class(bytes_as_chars(ranges), c);
            lemma_class_matches(expr.folded(), fold_point(c));
        },
        ExprSpec::Repetition { counts, sub } => {
            let n = choose|n: int| n >= 0 && #[trigger] counts.contains(n) && (*sub).matches_times(n as nat, s);
            lemma_folding_times(*sub, n as nat, s);
            lemma_repetition_matches(expr.folded(), n, lower(s));
        },
        ExprSpec::Capture(sub) => {
            folding_follows_matches(*sub, s);
        },
        ExprSpec::Concat(parts) => {
            lemma_folding_in_turn(parts, s);
        },
        ExprSpec::Alternation(parts) => {
            let i = choose|i: int| 0 <= i < parts.len() && (#[trigger] parts[i]).matches(s);
            folding_follows_matches(parts[i], s);
            lemma_alternation_matches(expr.folded(), i, lower(s));
        },
        ExprSpec::Literal(bytes) => {
            assert(expr.folded() == ExprSpec::Literal(lower(bytes)));
        },
        _ => {},
    }
}

proof fn lemma_folding_times(sub: ExprSpec, n: nat, s: Seq<u8>)
    requires
        sub.well_formed(),
        sub.matches_times(n, s),
    ensures
        sub.folded().matches_times(n, lower(s)),
    decreases sub, n + 1,
{
    if n > 0 {
        let k = choose|k: int|
            0 <= k <= s.len() && sub.matches(#[trigger] s.take(k)) && sub.matches_times((n - 1) as nat, s.skip(k));
        folding_follows_matches(sub, s.take(k));
        lemma_folding_times(sub, (n - 1) as nat, s.skip(k));
        assert(lower(s).take(k) =~= lower(s.take(k)));
        assert(lower(s).skip(k) =~= lower(s.skip(k)));
    }
}

proof fn lemma_folding_in_turn(parts: Seq<ExprSpec>, s: Seq<u8>)
    requires
        forall|i: int| 0 <= i < parts.len() ==> (#[trigger] parts[i]).well_formed(),
        ExprSpec::matches_in_turn(parts, s),
    ensures
        ExprSpec::matches_in_turn(folded_all(parts), lower(s)),
    decreases parts, 0int,
{
    if parts.len() > 0 {
        let k = choose|k: int|
            0 <= k <= s.len() && ExprSpec::matches_in_turn(parts.drop_last(), #[trigger] s.take(k))
                && parts.last().matches(s.skip(k));
        assert forall|i: int| 0 <= i < parts.drop_last().len() implies (#[trigger] parts.drop_last()[i]).well_formed() by {
            assert(parts[i].well_formed());
        }
        assert(parts[parts.len() - 1].well_formed());
        lemma_folding_in_turn(parts.drop_last(), s.take(k));
        assert(decreases_to!(parts => parts[parts.len() - 1]));
        folding_follows_matches(parts.last(), s.skip(k));
        assert(folded_all(parts).drop_last() =~= folded_all(parts.drop_last()));
        assert(lower(s).take(k) =~= lower(s.take(k)));
        assert(lower(s).skip(k) =~= lower(s.skip(k)));
    }
}

/// Whether one of the ranges holds all of `lo` to `hi`.
fn any_holds(ranges: &Vec<(char, char)>, lo: char, hi: char) -> (out: bool)
    ensures
        out == holds_range(ranges@, lo, hi),
{
    let mut i: usize = 0;
    while i < ranges.len()
        invariant
            i <= ranges@.len(),
            forall|j: int|
                0 <= j < i ==> !((#[trigger] ranges@[j]).0 as u32 <= lo as u32 && hi as u32 <= ranges@[j].1 as u32),
        decreases ranges@.len() - i,
    {
        let (a, b) = ranges[i];
        if a as u32 <= lo as u32 && hi as u32 <= b as u32 {
            assert(ranges@[i as int] == (a, b));
            return true;
        }
        i += 1;
    }
    false
}

/// The lower-case form of an ASCII upper-case letter.
fn small_letter(c: char) -> (out: char)
    requires
        65 <= c as u32 <= 90,
    ensures
        out == (c as u32 + 32) as char,
{
    (c as u8 + 32) as char
}

/// A class with its letters made lower-case.
fn fold_ranges(ranges: &Vec<(char, char)>) -> (out: Vec<(char, char)>)
    ensures
        out@ == folded_ranges(ranges@),
{
    let mut out: Vec<(char, char)> = Vec::new();
    let mut i: usize = 0;
    while i < ranges.len()
        invariant
            i <= ranges@.len(),
            out@ == folded_upto(ranges@, i as nat),
        decreases ranges@.len() - i,
    {
        let (a, b) = ranges[i];
        let ghost before = out@;
        let ghost r = ranges@[i as int];
        if 65 > a as u32 {
            out.push((a, if 65 > b as u32 { b } else { '@' }));
        }
        assert(out@ =~= before + part_below(r));
        if a as u32 <= 90 && 65 <= b as u32 {
            let lo = if 65 > a as u32 { 'a' } else { small_letter(a) };
            let hi = if 90 < b as u32 { 'z' } else { small_letter(b) };
            if !any_holds(ranges, lo, hi) {
                out.push((lo, hi));
            }
        }
        assert(out@ =~= before + part_below(r) + part_folded(ranges@, r));
        if 90 < b as u32 {
            out.push((if 90 < a as u32 { a } else { '[' }, b));
        }
        assert(out@ =~= before + part_below(r) + part_folded(ranges@, r) + part_above(r));
        i += 1;
    }
    out
}

/// The bytes with their ASCII letters made lower-case.
fn lower_bytes(bytes: &Vec<u8>) -> (out: Vec<u8>)
    ensures
        out@ == lower(bytes@),
{
    let mut out: Vec<u8> = Vec::with_capacity(bytes.len());
    let mut i: usize = 0;
    while i < bytes.len()
        invariant
            i <= bytes@.len(),
            out@ =~= lower(bytes@.take(i as int)),
        decreases bytes@.len() - i,
    {
        out.push(lower_ascii(bytes[i]));
        i += 1;
    }
    assert(bytes@.take(i as int) =~= bytes@);
    out
}

/// A class of ASCII bytes as a class of characters.
fn chars_of_bytes(ranges: &Vec<(u8, u8)>) -> (out: Vec<(char, char)>)
    ensures
        out@ == bytes_as_chars(ranges@),
{
    let mut out: Vec<(char, char)> = Vec::with_capacity(ranges.len());
    let mut i: usize = 0;
    while i < ranges.len()
        invariant
            i <= ranges@.len(),
            out@ =~= bytes_as_chars(ranges@.take(i as int)),
        decreases ranges@.len() - i,
    {
        let (a, b) = ranges[i];
        out.push((a as char, b as char));
        i += 1;
    }
    assert(ranges@.take(i as int) =~= ranges@);
    out
}

impl Expr {
    /// The expression with its letters made lower-case.
    pub fn fold(&self) -> (out: Expr)
        ensures
            out@ == self@.folded(),
        decreases self,
    {
        proof {
            lemma_expr_view(*self);
            lemma_folded_parts(self@);
        }
        let out = match self {
            Expr::Empty => Expr::Empty,
            Expr::Literal(bytes) => Expr::Literal(lower_bytes(bytes)),
            Expr::ClassUnicode(ranges) => Expr::ClassUnicode(fold_ranges(ranges)),
            Expr::ClassBytes(ranges) => Expr::ClassUnicode(fold_ranges(&chars_of_bytes(ranges))),
            Expr::Look => Expr::Look,
            Expr::Repetition { min, max, sub } => Expr::Repetition { min: *min, max: *max, sub: Box::new(sub.fold()) },
            Expr::Capture(sub) => Expr::Capture(Box::new(sub.fold())),
            Expr::Concat(parts) => {
                assert(decreases_to!(*self => self->Concat_0));
                Expr::Concat(fold_all(parts))
            },
            Expr::Alternation(parts) => {
                assert(decreases_to!(*self => self->Alternation_0));
                Expr::Alternation(fold_all(parts))
            },
        };
        proof {
            lemma_expr_view(out);
        }
        out
    }
}

/// Fold each expression in turn.
fn fold_all(parts: &Vec<Expr>) -> (out: Vec<Expr>)
    ensures
        exprs_of(out@) == folded_all(exprs_of(parts@)),
    decreases parts,
{
    let mut out: Vec<Expr> = Vec::with_capacity(parts.len());
    let mut i: usize = 0;
    while i < parts.len()
        invariant
            i <= parts@.len(),
            out@.len() == i,
            forall|j: int| 0 <= j < i ==> out@[j]@ == (#[trigger] parts@[j])@.folded(),
        decreases parts@.len() - i,
    {
        assert(decreases_to!(*parts => parts[i as int]));
        out.push(parts[i].fold());
        i += 1;
    }
    assert(exprs_of(out@) =~= folded_all(exprs_of(parts@)));
    out
}

} // verus!
