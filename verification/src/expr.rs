//! Parsed regular expressions.
//!
//! [`Expr`] holds, as plain values, the part of [`regex_syntax`]'s parse tree
//! that trigram analysis looks at. [`ExprSpec::matches`] gives it its meaning:
//! the set of byte strings that an expression can match.

use regex_syntax::hir::Class::{Bytes, Unicode};
use regex_syntax::hir::HirKind::{self, Alternation, Capture, Concat};
use vstd::prelude::*;
use vstd::utf8::{encode_scalar, is_scalar};

use crate::strings::copy_bytes;

verus! {

/// A parsed regular expression.
#[derive(Debug)]
pub enum Expr {
    /// The empty expression.
    Empty,
    /// A literal byte string.
    Literal(Vec<u8>),
    /// A class of Unicode scalar values, as inclusive ranges.
    ClassUnicode(Vec<(char, char)>),
    /// A class of bytes, as inclusive ranges.
    ClassBytes(Vec<(u8, u8)>),
    /// A zero-width assertion (an anchor or a word boundary).
    Look,
    /// `sub` repeated at least `min` and, if there is a `max`, at most `max`
    /// times.
    Repetition { min: u32, max: Option<u32>, sub: Box<Expr> },
    /// A capturing group.
    Capture(Box<Expr>),
    /// One expression after the other.
    Concat(Vec<Expr>),
    /// One of several expressions.
    Alternation(Vec<Expr>),
}

/// The mathematical form of a [`Expr`].
#[verifier::ext_equal]
pub enum ExprSpec {
    Empty,
    Literal(Seq<u8>),
    ClassUnicode(Seq<(char, char)>),
    ClassBytes(Seq<(u8, u8)>),
    Look,
    Repetition { counts: Set<int>, sub: Box<ExprSpec> },
    Capture(Box<ExprSpec>),
    Concat(Seq<ExprSpec>),
    Alternation(Seq<ExprSpec>),
}

/// How often an expression may occur that is repeated at least `min` and, if
/// there is a `max`, at most `max` times.
pub open spec fn repeats(min: u32, max: Option<u32>) -> Set<int> {
    Set::new(|n: int| min <= n && (max matches Some(m) ==> n <= m))
}

impl View for Expr {
    type V = ExprSpec;

    open spec fn view(&self) -> ExprSpec
        decreases self,
    {
        match self {
            Expr::Empty => ExprSpec::Empty,
            Expr::Literal(bytes) => ExprSpec::Literal(bytes@),
            Expr::ClassUnicode(ranges) => ExprSpec::ClassUnicode(ranges@),
            Expr::ClassBytes(ranges) => ExprSpec::ClassBytes(ranges@),
            Expr::Look => ExprSpec::Look,
            Expr::Repetition { min, max, sub } => ExprSpec::Repetition {
                counts: repeats(*min, *max),
                sub: Box::new((**sub).view()),
            },
            Expr::Capture(sub) => ExprSpec::Capture(Box::new((**sub).view())),
            Expr::Concat(parts) => ExprSpec::Concat(
                Seq::new(
                    parts@.len(),
                    |i: int| if 0 <= i < parts@.len() { parts@[i].view() } else { ExprSpec::Empty },
                ),
            ),
            Expr::Alternation(parts) => ExprSpec::Alternation(
                Seq::new(
                    parts@.len(),
                    |i: int| if 0 <= i < parts@.len() { parts@[i].view() } else { ExprSpec::Empty },
                ),
            ),
        }
    }
}

/// The code points of a class of scalar values, as inclusive ranges.
pub open spec fn char_ranges(ranges: Seq<(char, char)>) -> Seq<(u32, u32)> {
    ranges.map_values(|r: (char, char)| (r.0 as u32, r.1 as u32))
}

/// The code points of a class of bytes, as inclusive ranges.
pub open spec fn byte_ranges(ranges: Seq<(u8, u8)>) -> Seq<(u32, u32)> {
    ranges.map_values(|r: (u8, u8)| (r.0 as u32, r.1 as u32))
}

/// A range of `ranges` holds `c`.
pub open spec fn in_ranges(ranges: Seq<(u32, u32)>, c: u32) -> bool {
    exists|i: int| 0 <= i < ranges.len() && (#[trigger] ranges[i]).0 <= c <= ranges[i].1
}

/// No range is empty.
pub open spec fn ranges_ordered(ranges: Seq<(u32, u32)>) -> bool {
    forall|i: int| 0 <= i < ranges.len() ==> (#[trigger] ranges[i]).0 <= ranges[i].1
}

impl ExprSpec {
    /// What holds of every parse tree: no range of a class is empty, classes of
    /// bytes are ASCII, and concatenations and alternations have a part.
    pub open spec fn well_formed(self) -> bool
        decreases self,
    {
        match self {
            ExprSpec::ClassUnicode(ranges) => ranges_ordered(char_ranges(ranges)),
            ExprSpec::ClassBytes(ranges) => {
                &&& ranges_ordered(byte_ranges(ranges))
                &&& forall|i: int| 0 <= i < ranges.len() ==> (#[trigger] ranges[i]).1 <= 0x7f
            },
            ExprSpec::Repetition { counts, sub } => (*sub).well_formed(),
            ExprSpec::Capture(sub) => (*sub).well_formed(),
            ExprSpec::Concat(parts) => {
                &&& parts.len() > 0
                &&& forall|i: int| 0 <= i < parts.len() ==> (#[trigger] parts[i]).well_formed()
            },
            ExprSpec::Alternation(parts) => {
                &&& parts.len() > 0
                &&& forall|i: int| 0 <= i < parts.len() ==> (#[trigger] parts[i]).well_formed()
            },
            _ => true,
        }
    }

    /// Whether the expression can match exactly the byte string `s`, whatever
    /// surrounds it: an assertion takes no bytes and is not looked into.
    pub open spec fn matches(self, s: Seq<u8>) -> bool
        decreases self, 0int,
    {
        match self {
            ExprSpec::Empty => s.len() == 0,
            ExprSpec::Literal(bytes) => s == bytes,
            ExprSpec::ClassUnicode(ranges) => exists|c: u32| #[trigger]
                is_scalar(c) && in_ranges(char_ranges(ranges), c) && s == encode_scalar(c),
            ExprSpec::ClassBytes(ranges) => s.len() == 1 && in_ranges(byte_ranges(ranges), s[0] as u32),
            ExprSpec::Look => s.len() == 0,
            ExprSpec::Repetition { counts, sub } => exists|n: int|
                n >= 0 && #[trigger] counts.contains(n) && (*sub).matches_times(n as nat, s),
            ExprSpec::Capture(sub) => (*sub).matches(s),
            ExprSpec::Concat(parts) => ExprSpec::matches_in_turn(parts, s),
            ExprSpec::Alternation(parts) => exists|i: int|
                0 <= i < parts.len() && (#[trigger] parts[i]).matches(s),
        }
    }

    /// Whether `n` copies of the expression can match `s`, one after the other.
    pub open spec fn matches_times(self, n: nat, s: Seq<u8>) -> bool
        decreases self, n + 1,
    {
        if n == 0 {
            s.len() == 0
        } else {
            exists|k: int|
                0 <= k <= s.len() && self.matches(#[trigger] s.take(k)) && self.matches_times(
                    (n - 1) as nat,
                    s.skip(k),
                )
        }
    }

    /// Whether the expressions can match `s`, one after the other.
    pub open spec fn matches_in_turn(parts: Seq<ExprSpec>, s: Seq<u8>) -> bool
        decreases parts, 0int,
    {
        if parts.len() == 0 {
            s.len() == 0
        } else {
            exists|k: int|
                0 <= k <= s.len() && ExprSpec::matches_in_turn(parts.drop_last(), #[trigger] s.take(k))
                    && parts.last().matches(s.skip(k))
        }
    }
}

/// The parse tree of `regex_syntax`.
#[verifier::external_type_specification]
#[verifier::external_body]
pub struct ExSyntaxTree(regex_syntax::hir::Hir);

/// The error of `regex_syntax`'s parser.
#[verifier::external_type_specification]
#[verifier::external_body]
pub struct ExSyntaxError(regex_syntax::Error);

/// What a parse tree of `regex_syntax` holds.
pub uninterp spec fn tree_of(tree: regex_syntax::hir::Hir) -> ExprSpec;

/// The parse tree of a pattern, or `None` where it has a syntax error.
pub uninterp spec fn parsed(pattern: Seq<char>) -> Option<ExprSpec>;

/// `regex_syntax::Parser::parse` with the default settings: a parse tree, or
/// an error where the pattern is malformed. Which of the two, and what the tree
/// holds, depends on the pattern alone. In a tree the ranges of a class run
/// upwards, classes of bytes are ASCII (the default is to refuse expressions
/// that could match invalid UTF-8), and concatenations and alternations have
/// at least two parts.
#[verifier::external_body]
fn parse_tree(pattern: &str) -> (out: Result<regex_syntax::hir::Hir, regex_syntax::Error>)
    ensures
        out is Ok <==> parsed(pattern@) is Some,
        out matches Ok(tree) ==> parsed(pattern@) == Some(tree_of(tree)) && tree_of(tree).well_formed(),
{
    regex_syntax::Parser::new().parse(pattern)
}

/// One node of a parse tree of `regex_syntax`, with the trees below it.
enum Node<'a> {
    Empty,
    Literal(&'a [u8]),
    ClassUnicode(Vec<(char, char)>),
    ClassBytes(Vec<(u8, u8)>),
    Look,
    Repetition(u32, Option<u32>, &'a regex_syntax::hir::Hir),
    Capture(&'a regex_syntax::hir::Hir),
    Concat(&'a [regex_syntax::hir::Hir]),
    Alternation(&'a [regex_syntax::hir::Hir]),
}

/// What several parse trees hold.
pub open spec fn trees_of(trees: Seq<regex_syntax::hir::Hir>) -> Seq<ExprSpec> {
    trees.map_values(|t: regex_syntax::hir::Hir| tree_of(t))
}

/// What a tree holds whose root is `node`.
spec fn node_tree(node: Node) -> ExprSpec {
    match node {
        Node::Empty => ExprSpec::Empty,
        Node::Literal(bytes) => ExprSpec::Literal(bytes@),
        Node::ClassUnicode(ranges) => ExprSpec::ClassUnicode(ranges@),
        Node::ClassBytes(ranges) => ExprSpec::ClassBytes(ranges@),
        Node::Look => ExprSpec::Look,
        Node::Repetition(min, max, sub) => ExprSpec::Repetition {
            counts: repeats(min, max),
            sub: Box::new(tree_of(*sub)),
        },
        Node::Capture(sub) => ExprSpec::Capture(Box::new(tree_of(*sub))),
        Node::Concat(parts) => ExprSpec::Concat(trees_of(parts@)),
        Node::Alternation(parts) => ExprSpec::Alternation(trees_of(parts@)),
    }
}

/// `regex_syntax::hir::Hir::kind`: the root of a tree and the trees below it.
/// What kind of assertion a look-around is, whether a repetition is greedy, and
/// the number and name of a group are left out.
#[verifier::external_body]
fn root<'a>(tree: &'a regex_syntax::hir::Hir) -> (out: Node<'a>)
    ensures
        node_tree(out) == tree_of(*tree),
{
    match tree.kind() {
        HirKind::Empty => Node::Empty,
        HirKind::Literal(lit) => Node::Literal(&lit.0),
        HirKind::Class(Unicode(c)) => Node::ClassUnicode(c.iter().map(|r| (r.start(), r.end())).collect()),
        HirKind::Class(Bytes(c)) => Node::ClassBytes(c.iter().map(|r| (r.start(), r.end())).collect()),
        HirKind::Look(_) => Node::Look,
        HirKind::Repetition(r) => Node::Repetition(r.min, r.max, &r.sub),
        Capture(c) => Node::Capture(&c.sub),
        Concat(parts) => Node::Concat(parts),
        Alternation(parts) => Node::Alternation(parts),
    }
}

/// The mathematical forms of several expressions.
pub open spec fn exprs_of(parts: Seq<Expr>) -> Seq<ExprSpec> {
    parts.map_values(|e: Expr| e@)
}

pub proof fn lemma_expr_view(e: Expr)
    ensures
        e matches Expr::Concat(parts) ==> e@ == ExprSpec::Concat(exprs_of(parts@)),
        e matches Expr::Alternation(parts) ==> e@ == ExprSpec::Alternation(exprs_of(parts@)),
{
    match e {
        Expr::Concat(parts) => {
            assert(e@->Concat_0 =~= exprs_of(parts@));
        },
        Expr::Alternation(parts) => {
            assert(e@->Alternation_0 =~= exprs_of(parts@));
        },
        _ => {},
    }
}

/// Convert each tree in turn.
fn convert_all(trees: &[regex_syntax::hir::Hir]) -> (out: Vec<Expr>)
    ensures
        exprs_of(out@) == trees_of(trees@),
    decreases trees_of(trees@), 0int,
{
    let mut out: Vec<Expr> = Vec::with_capacity(trees.len());
    let mut i: usize = 0;
    while i < trees.len()
        invariant
            i <= trees@.len(),
            out@.len() == i,
            forall|j: int| 0 <= j < i ==> out@[j]@ == #[trigger] tree_of(trees@[j]),
        decreases trees@.len() - i,
    {
        assert(decreases_to!(trees_of(trees@) => trees_of(trees@)[i as int]));
        out.push(convert(&trees[i]));
        i += 1;
    }
    assert(exprs_of(out@) =~= trees_of(trees@));
    out
}

/// A parse tree as a value of [`Expr`].
fn convert(tree: &regex_syntax::hir::Hir) -> (out: Expr)
    ensures
        out@ == tree_of(*tree),
    decreases tree_of(*tree), 0int,
{
    let ghost whole = tree_of(*tree);
    let out = match root(tree) {
        Node::Empty => Expr::Empty,
        Node::Literal(bytes) => Expr::Literal(copy_bytes(bytes)),
        Node::ClassUnicode(ranges) => Expr::ClassUnicode(ranges),
        Node::ClassBytes(ranges) => Expr::ClassBytes(ranges),
        Node::Look => Expr::Look,
        Node::Repetition(min, max, sub) => {
            assert(decreases_to!(whole => whole->Repetition_sub));
            Expr::Repetition { min, max, sub: Box::new(convert(sub)) }
        },
        Node::Capture(sub) => {
            assert(decreases_to!(whole => whole->Capture_0));
            Expr::Capture(Box::new(convert(sub)))
        },
        Node::Concat(parts) => {
            assert(decreases_to!(whole => whole->Concat_0));
            Expr::Concat(convert_all(parts))
        },
        Node::Alternation(parts) => {
            assert(decreases_to!(whole => whole->Alternation_0));
            Expr::Alternation(convert_all(parts))
        },
    };
    proof {
        lemma_expr_view(out);
    }
    out
}

impl Expr {
    /// Parse a pattern; `None` if it has a syntax error.
    pub fn parse(pattern: &str) -> (out: Option<Expr>)
        ensures
            out is Some <==> parsed(pattern@) is Some,
            out matches Some(expr) ==> parsed(pattern@) == Some(expr@) && expr@.well_formed(),
    {
        match parse_tree(pattern) {
            Ok(tree) => Some(convert(&tree)),
            Err(_) => None,
        }
    }
}

} // verus!
