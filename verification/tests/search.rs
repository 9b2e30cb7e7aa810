use instagrep::daemon::{decode_request, decode_response_head, encode_response, Request};
use instagrep::index::{apply_update, build, index_chunk, plan_update, remove_file, FileMeta, FileState, Index};
use instagrep::matcher::{search_files, write_results, ColorWhen, SearchMode, SearchOptions, SourceFile};
use instagrep::pattern::compile_regex;
use instagrep::search::{finish_search, plan_search, SearchOutcome};
use instagrep::store::{load, save};

type Tree = Vec<(&'static str, Vec<u8>)>;

fn tree(files: &[(&'static str, &[u8])]) -> Tree {
    files.iter().map(|(name, bytes)| (*name, bytes.to_vec())).collect()
}

fn state(bytes: &[u8]) -> FileState {
    FileState { meta: Some(FileMeta { mtime_secs: 1, size: bytes.len() as u64 }), bytes: Some(bytes.to_vec()) }
}

fn names(tree: &Tree) -> Vec<Vec<u8>> {
    tree.iter().map(|(name, _)| name.as_bytes().to_vec()).collect()
}

/// The index of a tree, stored and read back.
fn indexed(tree: &Tree) -> Index {
    let states: Vec<FileState> = tree.iter().map(|(_, bytes)| state(bytes)).collect();
    let index = build(names(tree), &vec![index_chunk(&states, 0)], 0);
    load(&save(&index)).unwrap().unwrap()
}

/// Read the files of a tree.
fn sources(tree: &Tree, paths: &[Vec<u8>]) -> Vec<SourceFile> {
    paths
        .iter()
        .map(|path| SourceFile {
            rel_path: path.clone(),
            bytes: tree.iter().find(|(name, _)| name.as_bytes() == path.as_slice()).map(|(_, bytes)| bytes.clone()),
        })
        .collect()
}

/// Search a tree under `/r` with its index.
fn searched(index: &Index, tree: &Tree, pattern: &str, ignore_case: bool, opts: &SearchOptions) -> SearchOutcome {
    let plan = plan_search(index, pattern, ignore_case).unwrap();
    let results = search_files(&sources(tree, &plan.files), &plan.regex, opts);
    finish_search(&results, b"/r", opts, plan.candidate_count, index.files.len(), 3, 4)
}

fn stdout(outcome: &SearchOutcome) -> String {
    String::from_utf8(outcome.output.clone()).unwrap()
}

#[test]
fn builds_index_and_searches_with_grep_output() {
    let tree = tree(&[
        ("hello.txt", b"hello world\nfoo bar baz\n"),
        ("other.txt", b"world of code\nhello again\n"),
    ]);
    let search = searched(&indexed(&tree), &tree, "hello", false, &SearchOptions::default());
    assert_eq!(search.exit, 0);
    let stdout = stdout(&search);
    assert!(stdout.contains(&format!("{}:1:hello world", "/r/hello.txt")));
    assert!(stdout.contains(&format!("{}:2:hello again", "/r/other.txt")));
    assert_eq!(stdout, "/r/hello.txt:1:hello world\n/r/other.txt:2:hello again\n");
}

#[test]
fn ignore_case_indexed_search_finds_uppercase_content() {
    let tree = tree(&[("notes.txt", b"TODO: ship the Rust port\n")]);
    let search = searched(&indexed(&tree), &tree, "todo", true, &SearchOptions::default());
    assert_eq!(search.exit, 0);
    assert!(stdout(&search).contains(&format!("{}:1:TODO: ship the Rust port", "/r/notes.txt")));
}

#[test]
fn no_index_mode_does_not_create_index() {
    let tree = tree(&[("main.rs", b"fn main() {}\n")]);
    let opts = SearchOptions::default();
    let regex = compile_regex("main", false).unwrap();
    let results = search_files(&sources(&tree, &names(&tree)), &regex, &opts);
    let (output, printed) = write_results(&results, b"/r", &opts);
    assert!(String::from_utf8(output).unwrap().contains(&format!("{}:1:fn main() {{}}", "/r/main.rs")));
    assert_eq!(printed, 1);
}

#[test]
fn non_utf8_file_is_still_searched() {
    let mut contents = b"line one\nneedle here".to_vec();
    contents.extend_from_slice(b"\xff\xfe bad bytes\nline three\n"); // invalid UTF-8
    let tree = vec![("bin.dat", contents)];
    let search = searched(&indexed(&tree), &tree, "needle", false, &SearchOptions::default());
    let stdout = stdout(&search);
    assert!(
        stdout.contains(&format!("{}:2:", "/r/bin.dat")),
        "expected a match in the non-UTF-8 file, got: {stdout}"
    );
    assert_eq!(stdout, "/r/bin.dat:2:needle here\u{fffd}\u{fffd} bad bytes\n");
}

#[test]
fn count_flag_reports_per_file_counts() {
    let tree = tree(&[("notes.txt", b"todo: a\ntodo: b\nnothing here\ntodo: c\n")]);
    let opts = SearchOptions { mode: SearchMode::Count, ..SearchOptions::default() };
    let stdout = stdout(&searched(&indexed(&tree), &tree, "todo", false, &opts));
    assert!(stdout.contains(&format!("{}:3", "/r/notes.txt")), "got: {stdout}");
}

#[test]
fn files_with_matches_flag_lists_paths_only() {
    let tree = tree(&[("a.txt", b"hello world\n"), ("b.txt", b"goodbye\n")]);
    let opts = SearchOptions { mode: SearchMode::FilesWithMatches, ..SearchOptions::default() };
    let stdout = stdout(&searched(&indexed(&tree), &tree, "hello", false, &opts));
    assert!(stdout.contains("/r/a.txt"), "got: {stdout}");
    assert!(!stdout.contains("/r/b.txt"), "got: {stdout}");
}

#[test]
fn context_flag_includes_surrounding_lines() {
    let tree = tree(&[("ctx.txt", b"alpha\nBETA\ngamma\n")]);
    let opts = SearchOptions { before: 1, after: 1, ..SearchOptions::default() };
    let stdout = stdout(&searched(&indexed(&tree), &tree, "BETA", false, &opts));
    // Match line plus one line of context on each side.
    assert!(stdout.contains(&format!("{}:2:BETA", "/r/ctx.txt")), "match line missing: {stdout}");
    assert!(stdout.contains(&format!("{}-1-alpha", "/r/ctx.txt")), "before context missing: {stdout}");
    assert!(stdout.contains(&format!("{}-3-gamma", "/r/ctx.txt")), "after context missing: {stdout}");
}

#[test]
fn incremental_update_makes_new_files_searchable() {
    let old = tree(&[("a.txt", b"existing content\n")]);
    let new = tree(&[("a.txt", b"existing content\n"), ("b.txt", b"freshly added content\n")]);
    let mut index = indexed(&old);
    let metas = new.iter().map(|(_, bytes)| state(bytes).meta).collect();
    let plan = plan_update(&index, &names(&new), &metas);
    let added = plan.added.iter().map(|&at| state(&new[at].1)).collect();
    apply_update(&mut index, &plan, &names(&new), &Vec::new(), &added);

    let stdout = stdout(&searched(&index, &new, "freshly", false, &SearchOptions::default()));
    assert!(stdout.contains("b.txt"), "new file not found after update: {stdout}");
}

#[test]
fn an_indexed_search_finds_what_a_full_one_does() {
    let tree = tree(&[
        ("a.rs", b"fn alpha() {}\nfn beta() {}\n"),
        ("b.rs", b"struct Alpha;\n\nimpl Alpha {}\n"),
        ("c.md", "naïve café\nALPHA and beta\n".as_bytes()),
        ("d.bin", b"alpha\0beta\n"),
        ("e.txt", b""),
    ]);
    let index = indexed(&tree);
    let opts = SearchOptions::default();
    for ignore_case in [false, true] {
        for pattern in ["alpha", "Alpha", "fn .*\\{\\}", "b.ta", "caf.", "CAFÉ", "alpha|impl", "^$", "[a-c]lpha", "x*", "naïve", "be(t|x)a\\b"] {
            let full = search_files(&sources(&tree, &names(&tree)), &compile_regex(pattern, ignore_case).unwrap(), &opts);
            let expected = write_results(&full, b"/r", &opts).0;
            assert_eq!(searched(&index, &tree, pattern, ignore_case, &opts).output, expected, "{pattern:?}");
        }
    }
}

#[test]
fn an_outcome_reports_its_figures() {
    let tree = tree(&[("a", b"needle\n"), ("b", b"hay\n"), ("c", b"hay\n")]);
    let index = indexed(&tree);
    let hit = searched(&index, &tree, "needle", false, &SearchOptions::default());
    assert_eq!((hit.exit, hit.candidate_count, hit.total_files, hit.eval_us, hit.verify_us), (0, 1, 3, 3, 4));
    let miss = searched(&index, &tree, "pin", false, &SearchOptions::default());
    assert_eq!((miss.exit, miss.candidate_count), (1, 0));
    let all = searched(&index, &tree, ".", false, &SearchOptions::default());
    assert_eq!(all.candidate_count, 3);
}

#[test]
fn removed_files_are_no_candidates() {
    let tree = tree(&[("a", b"needle\n"), ("b", b"needle\n")]);
    let mut index = indexed(&tree);
    remove_file(&mut index, 0);
    assert_eq!(plan_search(&index, "needle", false).unwrap().files, vec![b"b".to_vec()]);
    assert_eq!(plan_search(&index, ".", false).unwrap().files, vec![b"b".to_vec()]);
}

#[test]
fn an_invalid_pattern_is_reported() {
    let index = indexed(&tree(&[]));
    let error = plan_search(&index, "(", false).unwrap_err();
    assert!(error.message.starts_with("Invalid regex: "), "{}", error.message);
    assert!(error.message.contains("unclosed group"), "{}", error.message);
    assert!(compile_regex("[", true).is_err());
}

#[test]
fn colour_is_put_around_matches() {
    let tree = tree(&[("a", b"a needle, a needle\n")]);
    let opts = SearchOptions { color: ColorWhen::Always, ..SearchOptions::default() };
    let stdout = stdout(&searched(&indexed(&tree), &tree, "needle", false, &opts));
    assert_eq!(stdout, "/r/a:1:a \x1b[31mneedle\x1b[0m, a \x1b[31mneedle\x1b[0m\n");
}

#[test]
fn plain_text_is_found_in_any_case() {
    let tree = tree(&[("a", b"TODO: Call Bob\n"), ("b", b"todo: call bob\n"), ("c", b"tODO; call\n")]);
    let index = indexed(&tree);
    for pattern in ["todo: call", "TODO: CALL", "Todo: cAlL"] {
        let plan = plan_search(&index, pattern, true).unwrap();
        assert_eq!(plan.files, vec![b"a".to_vec(), b"b".to_vec()], "{pattern:?}");
    }
}

#[test]
fn ignoring_case_loses_no_match() {
    // A long s and a Kelvin sign are letters of the words below in another form.
    let tree = vec![
        ("a", "ma\u{17f}t and ta\u{17f}\u{212a}\n".as_bytes().to_vec()),
        ("b", "un CAFÉ noir\n".as_bytes().to_vec()),
        ("c", b"FixMe: xFOO\n".to_vec()),
        ("d", b"TODO: barFoo BAZ\n".to_vec()),
        ("e", b"nothing of it\n".to_vec()),
    ];
    let index = indexed(&tree);
    let found = |pattern: &str| -> Vec<String> {
        let plan = plan_search(&index, pattern, true).unwrap();
        let names = plan.files.into_iter().map(|path| String::from_utf8(path).unwrap());
        names.filter(|name| tree.iter().any(|(n, text)| n == name && plan.regex.is_match(text))).collect()
    };
    assert_eq!(found("mast"), ["a"]);
    assert_eq!(found("task"), ["a"]);
    assert_eq!(found("café"), ["b"]);
    assert_eq!(found("todo|fixme"), ["c", "d"]);
    assert_eq!(found("\\Sfoo"), ["c", "d"]);
    assert_eq!(found("BAR.*baz"), ["d"]);
    assert_eq!(found("[^A-Z]othing"), Vec::<String>::new());
}

#[test]
fn ignoring_case_still_prunes() {
    let tree = tree(&[("a", b"TODO\n"), ("b", b"done\n"), ("c", b"FixMe\n")]);
    let index = indexed(&tree);
    let files = |pattern: &str| plan_search(&index, pattern, true).unwrap().files;
    assert_eq!(files("ToDo"), vec![b"a".to_vec()]);
    assert_eq!(files("todo|FIXME"), vec![b"a".to_vec(), b"c".to_vec()]);
    assert_eq!(files("d.ne").len(), 3);
}

#[test]
fn a_second_search_prints_what_the_first_did() {
    let tree = tree(&[("a.rs", b"fn alpha() {}\n"), ("b.rs", b"fn Beta() {}\n"), ("c.rs", b"struct S;\n")]);
    let states: Vec<FileState> = tree.iter().map(|(_, bytes)| state(bytes)).collect();
    let built = build(names(&tree), &vec![index_chunk(&states, 0)], 0);
    let read = load(&save(&built)).unwrap().unwrap();
    let opts = SearchOptions::default();
    for (pattern, ignore_case) in [("fn ", false), ("beta", true), ("alpha|struct", false), ("x*", false), ("zzz", false)] {
        let first = plan_search(&built, pattern, ignore_case).unwrap();
        assert_eq!(plan_search(&read, pattern, ignore_case).unwrap().files, first.files, "{pattern:?}");
        let outputs = [&built, &read].map(|index| searched(index, &tree, pattern, ignore_case, &opts).output);
        assert_eq!(outputs[0], outputs[1], "{pattern:?}");
    }
    assert_eq!(stdout(&searched(&read, &tree, "beta", true, &opts)), "/r/b.rs:1:fn Beta() {}\n");
}

#[test]
fn a_client_of_the_daemon_gets_the_one_shot_output() {
    let tree = tree(&[("a", b"one\ntwo\nTHREE\n"), ("b", b"two\n"), ("c", b"none\n")]);
    let index = indexed(&tree);
    for mode in [SearchMode::Normal, SearchMode::Count, SearchMode::FilesWithMatches] {
        for color in [ColorWhen::Auto, ColorWhen::Always, ColorWhen::Never] {
            for (pattern, ignore_case) in [("two", false), ("three", true), ("zero", false)] {
                let opts = SearchOptions { mode, before: 1, after: 0, color };
                let direct = searched(&index, &tree, pattern, ignore_case, &opts);

                let sent = Request::new(pattern, ignore_case, &opts).encode();
                let read = decode_request(&sent).unwrap();
                let served = searched(&index, &tree, &read.pattern, read.ignore_case, &read.to_opts());
                let response = encode_response(served.exit, &served.output);

                let (exit, len) = decode_response_head(&response[..8]).unwrap();
                assert_eq!((exit, len as usize), (direct.exit, direct.output.len()), "{pattern:?}");
                assert_eq!(&response[8..], direct.output, "{pattern:?}");
            }
        }
    }
}
