use instagrep::cli::{choose_command, parse_args, parse_number, search_options, Action, Args};
use instagrep::matcher::{ColorWhen, SearchMode};

fn parsed(line: &str) -> Result<Args, String> {
    let list: Vec<String> = line.split_whitespace().map(|s| s.to_string()).collect();
    parse_args(&list)
}

fn action(line: &str) -> Action {
    choose_command(&parsed(line).unwrap())
}

#[test]
fn a_search_takes_a_pattern_and_a_path() {
    let shown = |a: Action| format!("{a:?}");
    assert_eq!(shown(action("pat dir")), "Search { pattern: \"pat\", path: \"dir\" }");
    assert_eq!(shown(action("pat")), "Search { pattern: \"pat\", path: \".\" }");
    assert_eq!(shown(action("--no-index pat dir")), "BruteForce { pattern: \"pat\", path: \"dir\" }");
    assert_eq!(shown(action("")), "NoPattern");
}

#[test]
fn commands_on_an_index_take_a_path() {
    assert!(matches!(action("--build dir"), Action::Build { path } if path == "dir"));
    assert!(matches!(action("--update"), Action::Update { path } if path == "."));
    assert!(matches!(action("--stats dir"), Action::Stats { path } if path == "dir"));
    assert!(matches!(action("--daemon dir"), Action::Daemon { path } if path == "dir"));
}

#[test]
fn help_comes_before_everything_else() {
    assert!(matches!(action("--build -h dir"), Action::Help));
    assert!(matches!(action("--help"), Action::Help));
    assert!(matches!(action("--build --update x"), Action::Build { .. }));
}

#[test]
fn flags_are_read() {
    let args = parsed("-i --time -c -l pat").unwrap();
    assert!(args.ignore_case && args.time && args.count && args.files_with_matches);
    assert!(parsed("--ignore-case x").unwrap().ignore_case);
    let args = parsed("-C 3 --glob *.rs --glob !x --color never pat").unwrap();
    assert_eq!(args.context, 3);
    assert_eq!(args.globs, vec!["*.rs", "!x"]);
    assert_eq!(args.color, "never");
    assert_eq!(args.positional, vec!["pat"]);
}

#[test]
fn errors_are_reported() {
    assert_eq!(parsed("--frob x").unwrap_err(), "unknown option: --frob");
    assert_eq!(parsed("--stop").unwrap_err(), "--stop is not supported");
    assert_eq!(parsed("-C many x").unwrap_err(), "invalid value for -C: many");
    assert_eq!(parsed("x -C").unwrap_err(), "missing value for -C");
    assert_eq!(parsed("x --glob").unwrap_err(), "missing value for --glob");
    assert_eq!(parsed("x --color").unwrap_err(), "missing value for --color");
    // The first error counts.
    assert_eq!(parsed("-x --stop").unwrap_err(), "unknown option: -x");
}

#[test]
fn numbers_must_fit() {
    assert_eq!(parse_number("0"), Some(0));
    assert_eq!(parse_number("0042"), Some(42));
    assert_eq!(parse_number(&format!("{}", usize::MAX)), Some(usize::MAX));
    assert_eq!(parse_number("99999999999999999999999"), None);
    assert_eq!(parse_number(""), None);
    assert_eq!(parse_number("-1"), None);
}

#[test]
fn options_follow_the_flags() {
    let opts = search_options(&parsed("-C 2 pat").unwrap(), true);
    assert_eq!((opts.mode, opts.before, opts.after, opts.color), (SearchMode::Normal, 2, 2, ColorWhen::Always));
    let opts = search_options(&parsed("-c pat").unwrap(), false);
    assert_eq!((opts.mode, opts.color), (SearchMode::Count, ColorWhen::Never));
    let opts = search_options(&parsed("-c -l --color always pat").unwrap(), false);
    assert_eq!((opts.mode, opts.color), (SearchMode::FilesWithMatches, ColorWhen::Always));
}
