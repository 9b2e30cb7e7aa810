use instagrep::cache::{load_index_from_cache, save_index_to_cache, CorruptCache};
use instagrep::lines::{
    assemble_index, build_compressed_index, candidate_lines, check_lines, check_offsets, chunk_offsets,
    collect_line_offsets, extract_literal_trigrams_bytes_from_regex, extract_trigrams_bytes, get_line_bytes,
    index_lines, line_chunks, matching_lines, merge_lines, read_query, search_lines,
};
use instagrep::pattern::compile_regex;
use instagrep::query::{analyze, CandidateSet};

const LOG: &[u8] = b"alpha beta\ngamma\n\nbeta delta\nno newline";

/// The ids under a window.
fn listed(index: &instagrep::linemap::CompressedTrigramIndex, window: &[u8; 3]) -> Vec<u32> {
    index.get(window).map_or(Vec::new(), |entry| entry.value().iter().collect())
}

#[test]
fn lines_start_where_they_should() {
    assert_eq!(collect_line_offsets(LOG, 1), vec![0, 11, 17, 18, 29]);
    assert_eq!(collect_line_offsets(b"", 4), Vec::<u64>::new());
    assert_eq!(collect_line_offsets(b"\n", 4), vec![0]);
    assert_eq!(collect_line_offsets(b"a\nb\n", 2), vec![0, 2]);
}

#[test]
fn workers_make_no_difference() {
    let whole = collect_line_offsets(LOG, 1);
    for workers in 2..60 {
        assert_eq!(collect_line_offsets(LOG, workers), whole, "{workers} workers");
        let parts: Vec<u64> =
            line_chunks(LOG, workers).into_iter().flat_map(|(start, end)| chunk_offsets(LOG, start, end)).collect();
        assert_eq!(parts, whole);
    }
}

#[test]
fn lines_make_up_the_bytes() {
    let offsets = collect_line_offsets(LOG, 3);
    let joined: Vec<u8> =
        (0..offsets.len() as u32).flat_map(|id| get_line_bytes(LOG, &offsets, id).to_vec()).collect();
    assert_eq!(joined, LOG);
    assert_eq!(get_line_bytes(LOG, &offsets, 1), b"gamma\n");
    assert_eq!(get_line_bytes(LOG, &offsets, 4), b"no newline");
}

#[test]
fn offsets_are_checked() {
    assert!(check_offsets(&[0, 3, 3, 5], 5));
    assert!(!check_offsets(&[0, 3, 2], 5));
    assert!(!check_offsets(&[0, 6], 5));
}

#[test]
fn windows_slide_over_a_line() {
    assert_eq!(extract_trigrams_bytes(b"abcd"), vec![*b"abc", *b"bcd"]);
    assert!(extract_trigrams_bytes(b"ab").is_empty());
}

#[test]
fn an_index_lists_the_lines_of_a_window() {
    let offsets = collect_line_offsets(LOG, 1);
    let index = build_compressed_index(LOG, &offsets);
    assert_eq!(listed(&index, b"bet"), vec![0, 3]);
    assert_eq!(listed(&index, b"gam"), vec![1]);
    assert_eq!(listed(&index, b"ma\n"), vec![1]);
    assert!(index.get(b"zzz").is_none());
}

#[test]
fn chunks_of_lines_are_merged() {
    let offsets = collect_line_offsets(LOG, 1);
    let whole = build_compressed_index(LOG, &offsets);
    let mut merged = assemble_index(vec![index_lines(LOG, &offsets, 3, 5), index_lines(LOG, &offsets, 0, 2)]);
    merge_lines(&mut merged, index_lines(LOG, &offsets, 2, 3));
    assert_eq!(merged.len(), whole.len());
    for entry in whole.iter() {
        assert_eq!(listed(&merged, entry.key()), entry.value().iter().collect::<Vec<u32>>());
    }
}

#[test]
fn literals_of_a_pattern_are_found() {
    let windows = extract_literal_trigrams_bytes_from_regex;
    assert_eq!(windows("abcd"), vec![*b"abc", *b"bcd"]);
    assert_eq!(windows("abc.*def"), vec![*b"abc", *b"def"]);
    assert_eq!(windows("abc[de]fgh"), vec![*b"abc", *b"fgh"]);
    assert_eq!(windows("abc|abc"), vec![*b"abc", *b"abc"]);
    assert_eq!(windows("ab\\dcde"), vec![*b"cde"]); // the escaped character goes too
    assert_eq!(windows("é!"), vec![[0xc3, 0xa9, b'!']]);
    assert!(windows("ab[cd]ef").is_empty());
    assert!(windows("a.b+c").is_empty());
    assert_eq!(windows("abc\\"), vec![*b"abc"]);
}

#[test]
fn candidates_contain_what_the_query_asks() {
    let offsets = collect_line_offsets(LOG, 1);
    let index = build_compressed_index(LOG, &offsets);
    let ids = |pattern: &str| match candidate_lines(&index, &analyze(pattern)) {
        CandidateSet::All => None,
        CandidateSet::Only(ids) => Some(ids.iter().collect::<Vec<u32>>()),
    };
    assert_eq!(ids("bet"), Some(vec![0, 3]));
    assert_eq!(ids("alp.*bet"), Some(vec![0]));
    assert_eq!(ids("bet.*zzz"), Some(Vec::new()));
    assert_eq!(ids("bet|gam"), Some(vec![0, 1, 3]));
    assert_eq!(ids("."), None);
}

#[test]
fn a_search_shows_what_it_found() {
    let offsets = collect_line_offsets(LOG, 1);
    let index = build_compressed_index(LOG, &offsets);
    let found = search_lines(LOG, &offsets, &index, "beta|nothing").unwrap();
    assert_eq!((found.no_literals, found.match_count), (false, 2)); // either literal will do
    let found = search_lines(LOG, &offsets, &index, "beta").unwrap();
    assert_eq!((found.no_literals, found.match_count), (false, 2));
    assert_eq!(found.shown, vec![(0, "alpha beta".to_string()), (3, "beta delta".to_string())]);
    let found = search_lines(LOG, &offsets, &index, "^\\s|n.").unwrap();
    assert_eq!((found.no_literals, found.match_count), (true, 2));
    assert_eq!(found.shown, vec![(2, String::new()), (4, "no newline".to_string())]);
}

#[test]
fn a_search_finds_what_a_look_at_every_line_does() {
    let text = "colour\ncolor\ncoal\nCOLOR\ncool our\ncafé\n\n".as_bytes();
    let offsets = collect_line_offsets(text, 2);
    let index = build_compressed_index(text, &offsets);
    let all: Vec<u32> = (0..offsets.len() as u32).collect();
    for pattern in ["colou?r", "col|coo", "(?i)color", "c.*l", "caf.", "our\\b", "[^c]ool", "x{0,3}oal", "$"] {
        let regex = compile_regex(pattern, false).unwrap();
        let expected = matching_lines(text, &offsets, &regex, &all);
        let found = search_lines(text, &offsets, &index, pattern).unwrap();
        assert_eq!(found.match_count, expected.len(), "{pattern:?}");
        let shown: Vec<u32> = found.shown.iter().map(|(id, _)| *id).collect();
        assert_eq!(shown, expected.into_iter().take(5).collect::<Vec<u32>>(), "{pattern:?}");
    }
    let found = search_lines(text, &offsets, &index, "colou?r").unwrap();
    assert_eq!((found.no_literals, found.match_count), (false, 2));
    // Without literals every line is looked at, whatever the index lists.
    let empty = build_compressed_index(b"", &[]);
    let found = search_lines(text, &offsets, &empty, "co[lo]").unwrap();
    assert_eq!((found.no_literals, found.match_count), (true, 3));
    let found = search_lines(text, &offsets, &empty, "col").unwrap();
    assert_eq!((found.no_literals, found.match_count), (false, 0));
}

#[test]
fn an_index_of_more_lines_is_told() {
    let offsets = collect_line_offsets(LOG, 1);
    let index = build_compressed_index(LOG, &offsets);
    assert!(check_lines(&index, 5));
    assert!(!check_lines(&index, 4));
    assert!(check_lines(&build_compressed_index(b"", &[]), 0));
}

#[test]
fn only_the_first_matches_are_shown() {
    let text: Vec<u8> = (0..9).flat_map(|i| format!("line {i}  \n").into_bytes()).collect();
    let offsets = collect_line_offsets(&text, 2);
    let index = build_compressed_index(&text, &offsets);
    let found = search_lines(&text, &offsets, &index, "line").unwrap();
    assert_eq!(found.match_count, 9);
    assert_eq!(found.shown.len(), 5);
    assert_eq!(found.shown[4], (4, "line 4".to_string()));
}

#[test]
fn lines_are_verified_by_the_regex() {
    let offsets = collect_line_offsets(LOG, 1);
    let regex = compile_regex("a$", false).unwrap();
    assert_eq!(matching_lines(LOG, &offsets, &regex, &[0, 1, 4]), Vec::<u32>::new());
    let regex = compile_regex("a\n", false).unwrap();
    assert_eq!(matching_lines(LOG, &offsets, &regex, &[0, 1, 4]), vec![0, 1]);
}

#[test]
fn an_invalid_pattern_is_a_syntax_error() {
    let index = build_compressed_index(b"", &[]);
    let error = search_lines(b"", &[], &index, "(").unwrap_err();
    assert!(error.message.starts_with("Invalid Regex syntax: "), "{}", error.message);
}

#[test]
fn input_is_a_pattern_unless_it_ends_the_session() {
    assert_eq!(read_query("exit"), None);
    assert_eq!(read_query("  a b \n"), Some("a b".to_string()));
    assert_eq!(read_query(" exit"), Some("exit".to_string()));
}

#[test]
fn a_cached_index_is_read_back() {
    let offsets = collect_line_offsets(LOG, 1);
    let index = build_compressed_index(LOG, &offsets);
    let data = save_index_to_cache(&offsets, index.clone());
    let (read, table) = load_index_from_cache(&data).unwrap();
    assert_eq!(read, offsets);
    assert_eq!(table.len(), index.len());
    for entry in index.iter() {
        assert_eq!(listed(&table, entry.key()), listed(&index, entry.key()));
    }
}

#[test]
fn a_damaged_cache_is_refused() {
    let data = save_index_to_cache(&vec![0, 1], build_compressed_index(b"\na", &[0, 1]));
    assert_eq!(load_index_from_cache(&data[..data.len() - 1]).err(), Some(CorruptCache));
    assert_eq!(load_index_from_cache(b"").err(), Some(CorruptCache));
}

#[test]
fn plain_text_is_found_in_every_line_that_contains_it() {
    let text = b"a & b - c\nx\n  a & b - c!\na & b-c\n";
    let offsets = collect_line_offsets(text, 1);
    let index = build_compressed_index(text, &offsets);
    let found = search_lines(text, &offsets, &index, "a & b - c").unwrap();
    assert_eq!(found.match_count, 2);
    assert_eq!(found.shown[1], (2, "  a & b - c!".to_string()));
}

#[test]
fn runs_of_lines_are_stored_compactly() {
    let text = b"abc\n".repeat(100);
    let offsets = collect_line_offsets(&text, 1);
    let index = build_compressed_index(&text, &offsets);
    assert_eq!(listed(&index, b"abc"), (0..100).collect::<Vec<u32>>());
    // One run: a header of nine bytes, the number of runs, a start and a length.
    assert_eq!(index.get(b"abc").unwrap().serialized_size(), 15);
}

#[test]
fn a_full_container_is_read_back_from_the_cache() {
    let text = b"abc\nxyz\n".repeat(4096);
    let offsets = collect_line_offsets(&text, 3);
    let index = build_compressed_index(&text, &offsets);
    let data = save_index_to_cache(&offsets, index.clone());
    let (read, table) = load_index_from_cache(&data).unwrap();
    assert_eq!(read, offsets);
    assert_eq!(listed(&table, b"abc"), (0..8192).step_by(2).collect::<Vec<u32>>());
    assert_eq!(listed(&table, b"xyz"), listed(&index, b"xyz"));
}
