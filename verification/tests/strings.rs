use instagrep::strings::{bytes_equal, copy_bytes, starts_with, StringSet};

fn set(strings: &[&str]) -> StringSet {
    let mut out = StringSet::empty();
    for s in strings {
        out.add(s.as_bytes().to_vec());
    }
    out
}

fn shown(set: &StringSet) -> Vec<String> {
    set.strings.iter().map(|s| String::from_utf8(s.clone()).unwrap()).collect()
}

#[test]
fn crossing_joins_every_pair() {
    assert_eq!(shown(&set(&["a", "b"]).cross(&set(&["x", "y"]))), vec!["ax", "ay", "bx", "by"]);
    assert!(shown(&set(&["a"]).cross(&StringSet::empty())).is_empty());
}

#[test]
fn union_keeps_both() {
    assert_eq!(shown(&set(&["a"]).union(set(&["b"]))), vec!["a", "b"]);
}

#[test]
fn truncation_drops_extensions_of_prefixes() {
    let mut s = set(&["abc", "ab", "abd", "b"]);
    s.truncate();
    assert_eq!(shown(&s), vec!["ab", "b"]);
}

#[test]
fn truncation_of_suffixes_goes_by_the_end() {
    let mut s = set(&["xbc", "bc", "ybc", "d"]);
    s.truncate_suffixes();
    assert_eq!(shown(&s), vec!["bc", "d"]);
}

#[test]
fn a_set_that_stays_too_large_says_nothing() {
    let mut s = StringSet::empty();
    for a in b'a'..=b'z' {
        s.add(vec![b'x', a]);
    }
    s.truncate();
    assert_eq!(shown(&s), vec![""]);
    let mut t = StringSet::empty();
    for a in b'a'..=b'z' {
        t.add(vec![a, b'x']);
    }
    t.truncate_suffixes();
    assert_eq!(shown(&t), vec![""]);
}

#[test]
fn byte_strings_compare() {
    assert!(bytes_equal(b"ab", b"ab"));
    assert!(!bytes_equal(b"ab", b"ac"));
    assert!(!bytes_equal(b"ab", b"abc"));
    assert!(starts_with(b"abc", b"ab"));
    assert!(!starts_with(b"ab", b"abc"));
    assert_eq!(copy_bytes(b"xyz"), b"xyz".to_vec());
}
