use instagrep::scanner::{
    glob_match, glob_match_bytes, looks_binary, scan, split_globs, starts_binary, WalkEntry, WalkOptions,
};

#[test]
fn glob_matches_basename_and_path() {
    assert!(glob_match("*.rs", "foo.rs"));
    assert!(!glob_match("*.rs", "foo.py"));
    assert!(glob_match("src/*", "src/main"));
}

#[test]
fn a_rule_without_wildcards_matches_anywhere() {
    assert!(glob_match("main", "src/main.rs"));
    assert!(!glob_match("lib", "src/main.rs"));
    assert!(!glob_match("", "src/main.rs"));
}

#[test]
fn wildcards_match_bytes() {
    assert!(glob_match_bytes(b"a?c", b"abc"));
    assert!(!glob_match_bytes(b"a?c", b"ac"));
    assert!(glob_match_bytes(b"a*c", b"ac"));
    assert!(glob_match_bytes(b"a*b*c", b"aXbYbZc"));
    assert!(!glob_match_bytes(b"a*b", b"abc"));
    assert!(glob_match_bytes(b"*", b""));
    assert!(!glob_match_bytes(b"?", b""));
}

#[test]
fn a_nul_byte_looks_binary() {
    assert!(looks_binary(b"ab\0c"));
    assert!(!looks_binary(b"abc"));
    assert!(!looks_binary(b""));
    assert!(!starts_binary(b"ab\0c", 2));
    assert!(starts_binary(b"ab\0c", 3));
}

#[test]
fn globs_are_split_by_their_mark() {
    let globs = vec!["*.rs".to_string(), "!target".to_string(), "src".to_string()];
    let (includes, excludes) = split_globs(&globs);
    assert_eq!(includes, vec![b"*.rs".to_vec(), b"src".to_vec()]);
    assert_eq!(excludes, vec![b"target".to_vec()]);
}

fn file(path: &str, len: u64) -> WalkEntry {
    WalkEntry { path: path.as_bytes().to_vec(), is_file: true, len: Some(len) }
}

fn scanned(entries: &[WalkEntry], opts: &WalkOptions) -> Vec<String> {
    scan(entries, b"root", opts).into_iter().map(|p| String::from_utf8(p).unwrap()).collect()
}

#[test]
fn walk_options_start_with_their_defaults() {
    let opts = WalkOptions::default();
    assert!(!opts.no_ignore && !opts.hidden && opts.globs.is_empty());
    assert_eq!(opts.max_file_size, 1 << 20);
}

#[test]
fn files_come_out_sorted_and_relative() {
    let entries = [file("root/b.txt", 1), file("root/a/z.txt", 1), file("root/a-b.txt", 1)];
    // Names are compared one by one, so `a/…` comes before `a-b.txt`.
    assert_eq!(scanned(&entries, &WalkOptions::default()), vec!["a/z.txt", "a-b.txt", "b.txt"]);
}

#[test]
fn what_is_not_worth_indexing_is_left_out() {
    let entries = [
        WalkEntry { path: b"root/dir".to_vec(), is_file: false, len: None },
        file("root/empty.txt", 0),
        file("root/large.txt", (1 << 20) + 1),
        file("root/limit.txt", 1 << 20),
        file("root/photo.PNG", 10),
        file("root/Cargo.lock", 10),
        file("root/.env", 10),
        file("root/.hidden.txt", 10),
        file("root/target/x.rs", 10),
        file("root/node_modules/x.js", 10),
        file("root/.instantgrep/index.bin", 10),
        WalkEntry { path: b"root/unknown.txt".to_vec(), is_file: true, len: None },
    ];
    assert_eq!(scanned(&entries, &WalkOptions::default()), vec![".hidden.txt", "limit.txt", "unknown.txt"]);
    let hidden = WalkOptions { hidden: true, ..WalkOptions::default() };
    assert_eq!(scanned(&entries, &hidden), vec![".env", ".hidden.txt", "limit.txt", "unknown.txt"]);
}

#[test]
fn globs_choose_the_files() {
    let entries = [file("root/a.rs", 1), file("root/b.py", 1), file("root/test/c.rs", 1)];
    let rust = WalkOptions { globs: vec!["*.rs".to_string()], ..WalkOptions::default() };
    assert_eq!(scanned(&entries, &rust), vec!["a.rs", "test/c.rs"]);
    let no_tests = WalkOptions { globs: vec!["*.rs".to_string(), "!test".to_string()], ..WalkOptions::default() };
    assert_eq!(scanned(&entries, &no_tests), vec!["a.rs"]);
}

#[test]
fn a_name_that_is_not_text_has_no_rules() {
    let odd = WalkEntry { path: b"root/.\xff".to_vec(), is_file: true, len: Some(1) };
    assert_eq!(scan(&[odd], b"root", &WalkOptions::default()), vec![b".\xff".to_vec()]);
    let odd = WalkEntry { path: b"root/x\xff".to_vec(), is_file: true, len: Some(1) };
    let opts = WalkOptions { globs: vec!["x?".to_string()], ..WalkOptions::default() };
    assert!(scan(&[odd], b"root", &opts).is_empty());
}

#[test]
fn the_order_of_a_walk_does_not_show() {
    let names = ["root/b.txt", "root/a/z.txt", "root/a-b.txt", "root/a/b/c.txt", "root/zz"];
    let expected = ["a/b/c.txt", "a/z.txt", "a-b.txt", "b.txt", "zz"];
    for shift in 0..names.len() {
        let mut entries: Vec<WalkEntry> = names.iter().map(|name| file(name, 1)).collect();
        entries.rotate_left(shift);
        assert_eq!(scanned(&entries, &WalkOptions::default()), expected);
        entries.reverse();
        assert_eq!(scanned(&entries, &WalkOptions::default()), expected);
    }
}

#[test]
fn paths_are_seen_from_the_root() {
    let entries = [file("./src/x.rs", 1), file("./y.rs", 1)];
    for root in ["./", "."] {
        let files = scan(&entries, root.as_bytes(), &WalkOptions::default());
        assert_eq!(files, vec![b"src/x.rs".to_vec(), b"y.rs".to_vec()], "{root:?}");
    }
}
