//! Compiled regular expressions.
//!
//! Patterns are compiled and run by [`regex::bytes::Regex`]. Operating on raw
//! bytes — not `String` — means files with invalid UTF-8 are still searched.

use regex::bytes::Regex;
use vstd::prelude::*;
use vstd::string::*;

use crate::expr::parsed;

verus! {

/// A compiled regular expression.
#[verifier::external_type_specification]
#[verifier::external_body]
pub struct ExRegex(regex::bytes::Regex);

/// Why a pattern does not compile.
#[verifier::external_type_specification]
#[verifier::external_body]
pub struct ExRegexError(regex::Error);

/// The pattern that a regex was compiled from.
pub uninterp spec fn source_of(regex: regex::bytes::Regex) -> Seq<char>;

/// The text of a compile error.
pub uninterp spec fn error_text(error: regex::Error) -> Seq<char>;

/// The text of the error with which a pattern fails to compile, or `None` if
/// it compiles.
pub uninterp spec fn regex_fault(pattern: Seq<char>) -> Option<Seq<char>>;

/// The spans at which a pattern matches in a byte string, in order.
pub uninterp spec fn match_spans(pattern: Seq<char>, bytes: Seq<u8>) -> Seq<(usize, usize)>;

/// The bytes of a span.
pub open spec fn span_bytes(bytes: Seq<u8>, span: (usize, usize)) -> Seq<u8> {
    bytes.subrange(span.0 as int, span.1 as int)
}

/// Every span lies within `len` bytes and runs forwards.
pub open spec fn spans_within(spans: Seq<(usize, usize)>, len: nat) -> bool {
    forall|i: int| 0 <= i < spans.len() ==> (#[trigger] spans[i]).0 <= spans[i].1 <= len
}

/// Every span ends before the next one starts.
pub open spec fn spans_in_order(spans: Seq<(usize, usize)>) -> bool {
    forall|i: int, j: int| 0 <= i < j < spans.len() ==> (#[trigger] spans[i]).1 <= (#[trigger] spans[j]).0
}

/// Whatever bytes the pattern is run on, its matches lie within them. Where it
/// also parses under the rules for text (as all but those that could match
/// invalid UTF-8 do), the bytes of each match are among those that its parse
/// tree, which is well-formed as all of them are, can match.
pub open spec fn follows_tree(pattern: Seq<char>) -> bool {
    &&& forall|bytes: Seq<u8>| spans_within(#[trigger] match_spans(pattern, bytes), bytes.len())
    &&& parsed(pattern) matches Some(expr) ==> expr.well_formed() && forall|bytes: Seq<u8>, i: int|
        0 <= i < match_spans(pattern, bytes).len() ==> expr.matches(
            span_bytes(bytes, #[trigger] match_spans(pattern, bytes)[i]),
        )
}

/// `regex::bytes::Regex::new`: a regex that keeps its pattern, or the error
/// that the pattern leads to. What a regex matches follows from its pattern as
/// [`follows_tree`] says.
#[verifier::external_body]
pub(crate) fn new_regex(pattern: &str) -> (out: Result<Regex, regex::Error>)
    ensures
        out is Ok <==> regex_fault(pattern@) is None,
        out matches Ok(regex) ==> source_of(regex) == pattern@,
        out matches Err(error) ==> regex_fault(pattern@) == Some(error_text(error)),
        out matches Ok(regex) ==> follows_tree(source_of(regex)),
{
    Regex::new(pattern)
}

/// `regex::Error`'s text.
#[verifier::external_body]
pub(crate) fn describe(error: &regex::Error) -> (text: String)
    ensures
        text@ == error_text(*error),
{
    format!("{error}")
}

/// `regex::bytes::Regex::find_iter`: the successive non-overlapping matches.
/// Which they are depends on the pattern and the bytes alone.
#[verifier::external_body]
pub(crate) fn find_spans(regex: &Regex, bytes: &[u8]) -> (spans: Vec<(usize, usize)>)
    ensures
        spans@ == match_spans(source_of(*regex), bytes@),
        spans_within(spans@, bytes@.len()),
        spans_in_order(spans@),
{
    regex.find_iter(bytes).map(|m| (m.start(), m.end())).collect()
}

/// `regex::bytes::Regex::is_match`: whether there is a match anywhere.
#[verifier::external_body]
pub(crate) fn is_match(regex: &Regex, bytes: &[u8]) -> (found: bool)
    ensures
        found == (match_spans(source_of(*regex), bytes@).len() > 0),
{
    regex.is_match(bytes)
}

/// A pattern that does not compile, with the message to report.
#[derive(Debug)]
pub struct InvalidRegex {
    pub message: String,
}

/// The pattern that is compiled for a search.
pub open spec fn effective_pattern(pattern: Seq<char>, ignore_case: bool) -> Seq<char> {
    if ignore_case {
        "(?i:"@ + pattern + ")"@
    } else {
        pattern
    }
}

/// The pattern that is compiled for a search.
pub fn effective_source(pattern: &str, ignore_case: bool) -> (source: String)
    ensures
        source@ == effective_pattern(pattern@, ignore_case),
        !ignore_case ==> source@ == pattern@,
        ignore_case ==> source@ == "(?i:"@ + pattern@ + ")"@,
{
    if ignore_case {
        String::from_str("(?i:").concat(pattern).concat(")")
    } else {
        pattern.to_owned()
    }
}

/// Compile a pattern, optionally ignoring case.
pub fn compile_regex(pattern: &str, ignore_case: bool) -> (out: Result<Regex, InvalidRegex>)
    ensures
        out is Ok <==> regex_fault(effective_pattern(pattern@, ignore_case)) is None,
        out matches Ok(regex) ==> source_of(regex) == effective_pattern(pattern@, ignore_case),
        out matches Err(error) ==> error.message@ == "Invalid regex: "@ + regex_fault(
            effective_pattern(pattern@, ignore_case),
        )->0,
        out is Ok ==> follows_tree(effective_pattern(pattern@, ignore_case)),
        !ignore_case ==> (out is Ok <==> regex_fault(pattern@) is None),
        !ignore_case ==> (out matches Ok(regex) ==> source_of(regex) == pattern@),
        !ignore_case ==> (out matches Err(error) ==> error.message@ == "Invalid regex: "@ + regex_fault(pattern@)->0),
        ignore_case ==> (out is Ok <==> regex_fault("(?i:"@ + pattern@ + ")"@) is None),
        ignore_case ==> (out matches Ok(regex) ==> source_of(regex) == "(?i:"@ + pattern@ + ")"@),
        ignore_case ==> (out matches Err(error) ==> error.message@ == "Invalid regex: "@ + regex_fault(
            "(?i:"@ + pattern@ + ")"@,
        )->0),
{
    let source = effective_source(pattern, ignore_case);
    match new_regex(source.as_str()) {
        Ok(regex) => Ok(regex),
        Err(error) => {
            let text = describe(&error);
            Err(InvalidRegex { message: String::from_str("Invalid regex: ").concat(text.as_str()) })
        },
    }
}

/// Where case counts, what is compiled is what was typed, character by character;
/// where it does not, that stands inside a group that ignores it.
pub proof fn patterns_are_compiled_as_typed(pattern: Seq<char>)
    ensures
        effective_pattern(pattern, false) == pattern,
        effective_pattern(pattern, true).len() == pattern.len() + 5,
        effective_pattern(pattern, true).subrange(4, (pattern.len() + 4) as int) == pattern,
        effective_pattern(pattern, true).take(4) == "(?i:"@,
        effective_pattern(pattern, true).skip((pattern.len() + 4) as int) == ")"@,
{
    reveal_strlit("(?i:");
    reveal_strlit(")");
    let wrapped = "(?i:"@ + pattern + ")"@;
    assert(wrapped.subrange(4, (pattern.len() + 4) as int) =~= pattern);
    assert(wrapped.take(4) =~= "(?i:"@);
    assert(wrapped.skip((pattern.len() + 4) as int) =~= ")"@);
}

} // verus!
