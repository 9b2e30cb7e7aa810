use instagrep::trigram::{
    encode, encode_slice, extract_distinct, extract_distinct_folded, extract_ordered, literal_trigrams, lower_ascii,
};

#[test]
fn ordered_trigrams() {
    assert_eq!(
        extract_ordered(b"abcde"),
        vec![encode(b'a', b'b', b'c'), encode(b'b', b'c', b'd'), encode(b'c', b'd', b'e')]
    );
}

#[test]
fn distinct_folded_includes_both_cases() {
    let set = extract_distinct_folded(b"ABC");
    assert!(set.contains(&encode(b'A', b'B', b'C')));
    assert!(set.contains(&encode(b'a', b'b', b'c')));
}

#[test]
fn short_literals_have_no_trigrams() {
    assert!(extract_ordered(b"ab").is_empty());
    assert!(extract_distinct(b"ab").is_empty());
}

#[test]
fn packing_puts_the_first_byte_highest() {
    assert_eq!(encode(1, 2, 3), 0x010203);
    assert_eq!(encode_slice(&[0xff, 0x00, 0x7f, 9]), 0xff007f);
}

#[test]
fn packing_keeps_the_order_of_the_bytes() {
    assert!(encode(1, 255, 255) < encode(2, 0, 0));
    assert!(encode(1, 1, 255) < encode(1, 2, 0));
    assert!(encode(1, 1, 1) < encode(1, 1, 2));
}

#[test]
fn a_repeated_trigram_is_distinct_once() {
    assert_eq!(extract_ordered(b"aaaa").len(), 2);
    assert_eq!(extract_distinct(b"aaaa").len(), 1);
}

#[test]
fn folding_only_adds_trigrams() {
    let plain = extract_distinct(b"aBcDe");
    let folded = extract_distinct_folded(b"aBcDe");
    assert!(plain.iter().all(|t| folded.contains(t)));
    assert_eq!(folded.len(), 6);
}

#[test]
fn a_substring_has_no_other_trigrams() {
    let whole = extract_distinct(b"a needle in a haystack");
    assert!(extract_distinct(b"needle").iter().all(|t| whole.contains(t)));
}

#[test]
fn only_ascii_letters_are_folded() {
    assert_eq!(lower_ascii(b'Z'), b'z');
    assert_eq!(lower_ascii(b'['), b'[');
    assert_eq!(lower_ascii(0xc4), 0xc4);
}

#[test]
fn a_literal_has_its_trigrams_in_order() {
    assert_eq!(literal_trigrams(b"abab").len(), extract_ordered(b"abab").len());
    assert_eq!(literal_trigrams(b"abcd"), vec![0x616263, 0x626364]);
}
