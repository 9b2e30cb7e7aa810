use instagrep::analysis::{self, alternate, analyze_parsed, encode_code_point, simplify, Info};
use instagrep::expr::Expr;
use instagrep::index::{build, index_chunk, FileMeta, FileState, Index};
use instagrep::query::{analyze, evaluate, CandidateSet, Query};
use instagrep::strings::StringSet;
use instagrep::trigram::encode;

#[test]
fn literal_decomposes_to_and_of_trigrams() {
    // "hello" ⇒ exact folded in: AND of hel, ell, llo.
    let q = analyze("hello");
    match q {
        Query::And { trigrams, sub } => {
            let mut t = trigrams.clone();
            t.sort_unstable();
            let mut expected = vec![
                encode(b'h', b'e', b'l'),
                encode(b'e', b'l', b'l'),
                encode(b'l', b'l', b'o'),
            ];
            expected.sort_unstable();
            assert_eq!(t, expected);
            assert!(sub.is_empty());
        }
        other => panic!("expected And, got {other:?}"),
    }
}

#[test]
fn alternation_decomposes_to_or() {
    // cat|dog ⇒ OR of (cat) and (dog).
    let q = analyze("cat|dog");
    match q {
        Query::Or { sub, .. } => {
            assert_eq!(sub.len(), 2);
            for branch in &sub {
                assert!(matches!(branch, Query::And { trigrams, .. } if trigrams.len() == 1), "{branch:?}");
            }
        }
        other => panic!("expected Or, got {other:?}"),
    }
}

#[test]
fn wildcard_forces_full_scan() {
    assert_eq!(analyze(".*"), Query::All);
    assert_eq!(analyze("ab"), Query::All); // too short for any trigram
    assert_eq!(analyze("."), Query::All);
}

#[test]
fn char_class_across_boundary_is_precise() {
    // ab[cd]ef ⇒ OR of (abc,bce,cef) and (abd,bde,def).
    let q = analyze("ab[cd]ef");
    match q {
        Query::Or { sub, .. } => {
            assert_eq!(sub.len(), 2);
            for branch in &sub {
                assert!(matches!(branch, Query::And { trigrams, .. } if trigrams.len() == 3), "{branch:?}");
            }
        }
        other => panic!("expected Or, got {other:?}"),
    }
}

#[test]
fn anchored_literal_still_extracted() {
    // ^abc ⇒ prefix "abc" survives the anchor.
    let q = analyze("^abc");
    match q {
        Query::And { trigrams, .. } => assert_eq!(trigrams, vec![encode(b'a', b'b', b'c')]),
        other => panic!("expected And, got {other:?}"),
    }
}

#[test]
fn a_pattern_that_does_not_parse_asks_for_a_full_scan() {
    assert_eq!(analyze("(abc"), Query::All);
    assert!(Expr::parse("(abc").is_none());
}

#[test]
fn a_parsed_literal_is_analyzed_like_its_pattern() {
    let expr = Expr::parse("abcd").unwrap();
    assert!(matches!(&expr, Expr::Literal(bytes) if bytes.as_slice() == b"abcd"), "{expr:?}");
    assert_eq!(analyze_parsed(&expr), analyze("abcd"));
}

/// An index of files with the given contents.
fn corpus(texts: &[&str]) -> Index {
    let states: Vec<FileState> = texts
        .iter()
        .map(|t| FileState { meta: Some(FileMeta::default()), bytes: Some(t.as_bytes().to_vec()) })
        .collect();
    let files = (0..texts.len()).map(|i| format!("{i}").into_bytes()).collect();
    build(files, &vec![index_chunk(&states, 0)], 0)
}

/// The ids of the texts that a query admits.
fn admitted(query: &Query, texts: &[&str]) -> Vec<u32> {
    let index = corpus(texts);
    match evaluate(query, &index.postings) {
        CandidateSet::All => (0..texts.len() as u32).collect(),
        CandidateSet::Only(bitmap) => bitmap.iter().collect(),
    }
}

#[test]
fn no_text_that_matches_is_turned_away() {
    let texts = [
        "abcabc", "abc", "xabcdx", "foo bar", "foobaz", "aaaa", "xyz", "one two", "hello world", "cat", "dogs", "émile",
    ];
    let patterns = [
        "abc", "abc|xyz", "(abc)+", "ab.*dx", "foo(bar|baz)", "foo ?ba[rz]", "a{3,4}", "^one", "two$", "h.llo w", "[ct]at?",
        "é.?i", "x?yz", "(ab|cd|ef)(gh|ij)?", "dogs?", "\\bcat\\b",
    ];
    for pattern in patterns {
        let regex = regex::bytes::Regex::new(pattern).unwrap();
        let found = admitted(&analyze(pattern), &texts);
        for (id, text) in texts.iter().enumerate() {
            if regex.is_match(text.as_bytes()) {
                assert!(found.contains(&(id as u32)), "{pattern:?} lost {text:?}");
            }
        }
    }
}

#[test]
fn candidates_without_the_trigrams_are_pruned() {
    let texts = ["cat and dog", "only a cat", "only a dog", "neither"];
    assert_eq!(admitted(&analyze("cat"), &texts), vec![0, 1]);
    assert_eq!(admitted(&analyze("cat|dog"), &texts), vec![0, 1, 2]);
    assert_eq!(admitted(&analyze("cat.*dog"), &texts), vec![0]);
    assert_eq!(admitted(&analyze("xyz"), &texts), Vec::<u32>::new());
}

#[test]
fn and_keeps_what_both_admit() {
    let texts = ["abc def", "abc", "def"];
    let both = analyze("abc").and(analyze("def"));
    assert_eq!(admitted(&both, &texts), vec![0]);
    assert_eq!(analyze("abc").and(Query::All), analyze("abc"));
    assert_eq!(analyze("abc").and(Query::Never), Query::Never);
}

#[test]
fn or_keeps_what_either_admits() {
    let texts = ["abc def", "abc", "def", "ghi"];
    let either = analyze("abc").or(analyze("def"));
    assert_eq!(admitted(&either, &texts), vec![0, 1, 2]);
    assert_eq!(analyze("abc").or(Query::All), Query::All);
    assert_eq!(analyze("abc").or(Query::Never), analyze("abc"));
}

#[test]
fn a_query_that_nothing_meets_admits_nothing() {
    assert_eq!(admitted(&Query::Never, &["abc"]), Vec::<u32>::new());
    assert_eq!(admitted(&Query::All, &["abc", "x"]), vec![0, 1]);
}

#[test]
fn a_set_of_strings_asks_for_one_of_them() {
    let mut set = StringSet::one(b"abcd".to_vec());
    set.add(b"xyz".to_vec());
    let query = Query::from_string_set(&set);
    assert_eq!(admitted(&query, &["abcd", "abc", "xyz", "bcd"]), vec![0, 2]);
    set.add(b"no".to_vec()); // too short: could be anywhere
    assert_eq!(Query::from_string_set(&set), Query::All);
}

#[test]
fn infos_are_joined_and_alternated() {
    let literal = |s: &str| Info {
        can_empty: false,
        exact: Some(StringSet::one(s.as_bytes().to_vec())),
        prefix: StringSet::one(s.as_bytes().to_vec()),
        suffix: StringSet::one(s.as_bytes().to_vec()),
        query: Query::All,
    };
    assert_eq!(simplify(analysis::concat(literal("ab"), literal("cd"))), analyze("abcd"));
    let texts = ["abc", "def", "abd"];
    assert_eq!(admitted(&simplify(alternate(literal("abc"), literal("def"))), &texts), vec![0, 1]);
    assert_eq!(simplify(Info::any_match()), Query::All);
}

#[test]
fn code_points_are_encoded_like_characters() {
    for c in ['a', 'é', '€', '𝄞'] {
        let mut buf = [0; 4];
        assert_eq!(encode_code_point(c as u32), c.encode_utf8(&mut buf).as_bytes());
    }
    assert!(encode_code_point(0xd800).is_empty());
}

#[test]
fn a_query_speaks_of_its_trigrams() {
    let mut spoken = analyze("abcd|xyz").mentioned();
    spoken.sort_unstable();
    assert_eq!(spoken, vec![encode(b'a', b'b', b'c'), encode(b'b', b'c', b'd'), encode(b'x', b'y', b'z')]);
    assert!(analyze(".*").mentioned().is_empty());
}

#[test]
fn folding_makes_letters_lower_case() {
    let folded = |pattern: &str| Expr::parse(pattern).unwrap().fold();
    assert_eq!(analyze_parsed(&folded("HELLO")), analyze("hello"));
    assert_eq!(analyze_parsed(&folded("(?i:Hello)")), analysis::analyze_folded("(?i:hELLO)"));
    // Each letter has an upper-case form and a lower-case one, of which one is left.
    match analysis::analyze_folded("(?i:todo)") {
        Query::And { trigrams, sub } => {
            let mut trigrams = trigrams;
            trigrams.sort_unstable();
            assert_eq!(trigrams, vec![encode(b'o', b'd', b'o'), encode(b't', b'o', b'd')]);
            assert!(sub.is_empty());
        }
        other => panic!("expected And, got {other:?}"),
    }
}
