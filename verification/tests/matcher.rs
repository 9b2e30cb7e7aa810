use instagrep::matcher::{
    colored, line_end, line_number, line_start_offsets, match_file, matched_file, resolve_color, search_files,
    write_results, ColorWhen, FileResult, SearchMode, SearchOptions, SourceFile,
};
use instagrep::pattern::compile_regex;
use instagrep::text::{join, push_decimal, push_lossy, same_text, trim_end, trim_start};

fn options(before: usize, after: usize) -> SearchOptions {
    SearchOptions { before, after, ..SearchOptions::default() }
}

/// The lines printed for a pattern in a text.
fn printed(pattern: &str, text: &str, opts: &SearchOptions) -> String {
    let regex = compile_regex(pattern, false).unwrap();
    let results: Vec<FileResult> = match_file(b"f", text.as_bytes(), &regex, opts).into_iter().collect();
    String::from_utf8(write_results(&results, b"", opts).0).unwrap()
}

#[test]
fn lines_start_behind_newlines() {
    assert_eq!(line_start_offsets(b""), vec![0]);
    assert_eq!(line_start_offsets(b"ab\ncd\n"), vec![0, 3]);
    assert_eq!(line_start_offsets(b"ab\n\ncd"), vec![0, 3, 4]);
}

#[test]
fn positions_lie_on_lines() {
    let text = b"ab\ncd\n";
    let starts = line_start_offsets(text);
    assert_eq!((line_number(&starts, 0), line_number(&starts, 2), line_number(&starts, 3)), (1, 1, 2));
    assert_eq!(line_end(text, &starts, 1), 2);
    assert_eq!(line_end(text, &starts, 2), 5);
}

#[test]
fn carriage_returns_are_not_shown() {
    let text = b"ab\r\ncd\r\n";
    let starts = line_start_offsets(text);
    assert_eq!(line_end(text, &starts, 1), 2);
    assert_eq!(line_end(text, &starts, 2), 6);
}

#[test]
fn a_line_with_several_matches_is_printed_once() {
    assert_eq!(printed("a", "banana\n", &SearchOptions::default()), "f:1:banana\n");
    let regex = compile_regex("a", false).unwrap();
    let result = match_file(b"f", b"banana\nxyz\napple\n", &regex, &SearchOptions::default()).unwrap();
    assert_eq!(result.match_count, 2);
    assert_eq!(result.entries[0].spans, vec![(1, 2), (3, 4), (5, 6)]);
}

#[test]
fn spans_alone_decide_the_result() {
    let opts = SearchOptions::default();
    assert!(matched_file(b"f", b"abc\n", &[], &opts).is_none());
    let result = matched_file(b"f", b"abc\ndef\n", &[(5, 6)], &opts).unwrap();
    assert_eq!((result.entries[0].line, result.entries[0].content.as_slice()), (2, b"def".as_slice()));
    assert_eq!(result.entries[0].spans, vec![(1, 2)]);
    assert!(result.entries[0].is_match);
}

#[test]
fn binary_files_never_match() {
    let regex = compile_regex("abc", false).unwrap();
    assert!(match_file(b"f", b"abc\0", &regex, &SearchOptions::default()).is_none());
    let mut late = vec![b'a'; 8192];
    late.extend_from_slice(b"abc\0");
    assert!(match_file(b"f", &late, &regex, &SearchOptions::default()).is_some());
}

#[test]
fn context_lines_are_merged() {
    let text = "one\ntwo\nthree\nfour\nfive\n";
    assert_eq!(printed("two|three", text, &options(1, 1)), "f-1-one\nf:2:two\nf:3:three\nf-4-four\n");
    assert_eq!(printed("three", text, &options(2, 0)), "f-1-one\nf-2-two\nf:3:three\n");
    assert_eq!(printed("three", text, &options(0, 9)), "f:3:three\nf-4-four\nf-5-five\n");
}

#[test]
fn gaps_between_contexts_are_marked() {
    let text = "one\ntwo\nthree\nfour\nfive\nsix\n";
    assert_eq!(printed("one|six", text, &options(1, 1)), "f:1:one\nf-2-two\n--\nf-5-five\nf:6:six\n");
    assert_eq!(printed("one|four", text, &options(1, 1)), "f:1:one\nf-2-two\nf-3-three\nf:4:four\nf-5-five\n");
}

#[test]
fn files_in_context_are_set_apart() {
    let files: Vec<SourceFile> = ["a", "b"]
        .iter()
        .map(|name| SourceFile { rel_path: name.as_bytes().to_vec(), bytes: Some(b"x\n".to_vec()) })
        .collect();
    let regex = compile_regex("x", false).unwrap();
    let results = search_files(&files, &regex, &options(1, 0));
    assert_eq!(write_results(&results, b"d/", &options(1, 0)), (b"d/a:1:x\n\nd/b:1:x\n".to_vec(), 2));
    assert_eq!(write_results(&results, b"d", &options(0, 0)), (b"d/a:1:x\nd/b:1:x\n".to_vec(), 2));
}

#[test]
fn unreadable_files_are_passed_over() {
    let files = [
        SourceFile { rel_path: b"gone".to_vec(), bytes: None },
        SourceFile { rel_path: b"here".to_vec(), bytes: Some(b"x".to_vec()) },
    ];
    let results = search_files(&files, &compile_regex("x", false).unwrap(), &SearchOptions::default());
    assert_eq!(results.len(), 1);
    assert_eq!(results[0].rel_path, b"here".to_vec());
}

#[test]
fn counts_and_paths_are_printed_alone() {
    let regex = compile_regex("x", false).unwrap();
    let results: Vec<FileResult> = match_file(b"f", b"x\ny\nx", &regex, &options(0, 0)).into_iter().collect();
    let count = SearchOptions { mode: SearchMode::Count, ..SearchOptions::default() };
    assert_eq!(write_results(&results, b"/", &count), (b"/f:2\n".to_vec(), 0));
    let files = SearchOptions { mode: SearchMode::FilesWithMatches, ..SearchOptions::default() };
    assert_eq!(write_results(&results, b"/", &files), (b"/f\n".to_vec(), 0));
}

#[test]
fn colour_follows_the_terminal_for_auto() {
    assert_eq!(resolve_color("always", false), ColorWhen::Always);
    assert_eq!(resolve_color("never", true), ColorWhen::Never);
    assert_eq!(resolve_color("auto", true), ColorWhen::Always);
    assert_eq!(resolve_color("auto", false), ColorWhen::Never);
    assert_eq!(resolve_color("whatever", true), ColorWhen::Always);
}

#[test]
fn spans_are_made_red() {
    assert_eq!(colored(b"abcd", &[(1, 2), (3, 4)]), b"a\x1b[31mb\x1b[0mc\x1b[31md\x1b[0m".to_vec());
    // A span that does not fit is left as it is.
    assert_eq!(colored(b"abcd", &[(3, 9)]), b"abcd".to_vec());
}

#[test]
fn context_is_wanted_on_either_side() {
    assert!(!SearchOptions::default().wants_context());
    assert!(options(1, 0).wants_context() && options(0, 1).wants_context());
}

#[test]
fn paths_are_joined_by_one_slash() {
    assert_eq!(join(b".", b"a/b"), b"./a/b".to_vec());
    assert_eq!(join(b"/r/", b"a"), b"/r/a".to_vec());
    assert_eq!(join(b"", b"a"), b"a".to_vec());
    assert_eq!(join(b"/r", b"/a"), b"/a".to_vec());
}

#[test]
fn numbers_are_written_in_decimal() {
    for n in [0, 9, 10, 1234567890, u64::MAX] {
        let mut out = b"n=".to_vec();
        push_decimal(&mut out, n);
        assert_eq!(out, format!("n={n}").into_bytes());
    }
}

#[test]
fn malformed_text_is_replaced() {
    let mut out = Vec::new();
    push_lossy(&mut out, b"a\xffb\xe2\x82");
    assert_eq!(out, "a\u{fffd}b\u{fffd}".as_bytes().to_vec());
}

#[test]
fn white_space_is_trimmed_as_unicode_has_it() {
    for text in ["", "  ", "a b", "\t a \u{a0}\u{3000}\n", "\u{2003}x\u{2009}\u{200b}", "\u{85}y\u{1680}\u{180e}"] {
        assert_eq!(trim_end(text), text.trim_end());
        assert_eq!(trim_start(text), text.trim_start());
    }
    for c in (0..=0x10ffffu32).filter_map(char::from_u32).filter(|c| c.is_whitespace()) {
        assert_eq!(trim_end(&format!("a{c}")), "a");
    }
}

#[test]
fn texts_compare() {
    assert!(same_text("é", "é"));
    assert!(!same_text("a", "b"));
}
