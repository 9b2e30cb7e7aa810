//! Command-line arguments.

use vstd::prelude::*;
use vstd::string::*;
use vstd::utf8::encode_utf8;

use crate::matcher::{color_for, resolve_color, SearchMode, SearchOptions};
use crate::text::{decimal, same_text};

verus! {

/// An option whose value is the next argument.
#[derive(Debug, Clone, Copy, PartialEq, Eq, Structural)]
pub enum ValueFlag {
    /// `-C`: lines to show around a match.
    Context,
    /// `--glob`: a rule for the files to search.
    Glob,
    /// `--color`: when to colour matches.
    Color,
}

/// The command line, as far as it has been read.
#[derive(Debug)]
pub struct Args {
    pub build: bool,
    pub update: bool,
    pub no_index: bool,
    pub ignore_case: bool,
    pub stats: bool,
    pub time: bool,
    pub help: bool,
    pub daemon: bool,
    pub count: bool,
    pub files_with_matches: bool,
    pub context: usize,
    pub globs: Vec<String>,
    pub color: String,
    pub positional: Vec<String>,
    /// The option whose value is still to come.
    pub pending: Option<ValueFlag>,
}

/// The mathematical form of [`Args`].
#[verifier::ext_equal]
pub struct ArgsSpec {
    pub build: bool,
    pub update: bool,
    pub no_index: bool,
    pub ignore_case: bool,
    pub stats: bool,
    pub time: bool,
    pub help: bool,
    pub daemon: bool,
    pub count: bool,
    pub files_with_matches: bool,
    pub context: int,
    pub globs: Seq<Seq<char>>,
    pub color: Seq<char>,
    pub positional: Seq<Seq<char>>,
    pub pending: Option<ValueFlag>,
}

/// The texts of strings.
pub open spec fn texts(strings: Seq<String>) -> Seq<Seq<char>> {
    strings.map_values(|s: String| s@)
}

impl View for Args {
    type V = ArgsSpec;

    open spec fn view(&self) -> ArgsSpec {
        ArgsSpec {
            build: self.build,
            update: self.update,
            no_index: self.no_index,
            ignore_case: self.ignore_case,
            stats: self.stats,
            time: self.time,
            help: self.help,
            daemon: self.daemon,
            count: self.count,
            files_with_matches: self.files_with_matches,
            context: self.context as int,
            globs: texts(self.globs@),
            color: self.color@,
            positional: texts(self.positional@),
            pending: self.pending,
        }
    }
}

/// The command line before its first argument.
pub open spec fn no_args() -> ArgsSpec {
    ArgsSpec {
        build: false,
        update: false,
        no_index: false,
        ignore_case: false,
        stats: false,
        time: false,
        help: false,
        daemon: false,
        count: false,
        files_with_matches: false,
        context: 0,
        globs: Seq::empty(),
        color: "auto"@,
        positional: Seq::empty(),
        pending: None,
    }
}

/// The argument starts with a dash.
pub open spec fn is_flag(arg: Seq<char>) -> bool {
    encode_utf8(arg).len() > 0 && encode_utf8(arg)[0] == 45
}

/// Only decimal digits.
pub open spec fn all_digits(s: Seq<u8>) -> bool {
    forall|i: int| 0 <= i < s.len() ==> 48 <= #[trigger] s[i] <= 57
}

/// The number that digits stand for.
pub open spec fn digits_value(s: Seq<u8>) -> nat
    decreases s.len(),
{
    if s.len() == 0 {
        0
    } else {
        (10 * digits_value(s.drop_last()) + s.last() - 48) as nat
    }
}

/// The number that an argument stands for, if it is one that fits.
pub open spec fn number(arg: Seq<char>) -> Option<int> {
    let s = encode_utf8(arg);
    if s.len() > 0 && all_digits(s) && digits_value(s) <= usize::MAX {
        Some(digits_value(s) as int)
    } else {
        None
    }
}

/// The value of the option `flag`.
pub open spec fn with_value(args: ArgsSpec, flag: ValueFlag, value: Seq<char>) -> Result<ArgsSpec, Seq<char>> {
    let args = ArgsSpec { pending: None, ..args };
    match flag {
        ValueFlag::Context => match number(value) {
            Some(n) => Ok(ArgsSpec { context: n, ..args }),
            None => Err("invalid value for -C: "@ + value),
        },
        ValueFlag::Glob => Ok(ArgsSpec { globs: args.globs.push(value), ..args }),
        ValueFlag::Color => Ok(ArgsSpec { color: value, ..args }),
    }
}

/// The option `arg`, or else a positional argument.
pub open spec fn with_option(args: ArgsSpec, arg: Seq<char>) -> Result<ArgsSpec, Seq<char>> {
    if arg == "--build"@ {
        Ok(ArgsSpec { build: true, ..args })
    } else if arg == "--update"@ {
        Ok(ArgsSpec { update: true, ..args })
    } else if arg == "--no-index"@ {
        Ok(ArgsSpec { no_index: true, ..args })
    } else if arg == "-i"@ || arg == "--ignore-case"@ {
        Ok(ArgsSpec { ignore_case: true, ..args })
    } else if arg == "--stats"@ {
        Ok(ArgsSpec { stats: true, ..args })
    } else if arg == "--time"@ {
        Ok(ArgsSpec { time: true, ..args })
    } else if arg == "-h"@ || arg == "--help"@ {
        Ok(ArgsSpec { help: true, ..args })
    } else if arg == "--daemon"@ {
        Ok(ArgsSpec { daemon: true, ..args })
    } else if arg == "-c"@ {
        Ok(ArgsSpec { count: true, ..args })
    } else if arg == "-l"@ {
        Ok(ArgsSpec { files_with_matches: true, ..args })
    } else if arg == "-C"@ {
        Ok(ArgsSpec { pending: Some(ValueFlag::Context), ..args })
    } else if arg == "--glob"@ {
        Ok(ArgsSpec { pending: Some(ValueFlag::Glob), ..args })
    } else if arg == "--color"@ {
        Ok(ArgsSpec { pending: Some(ValueFlag::Color), ..args })
    } else if arg == "--stop"@ {
        Err("--stop is not supported"@)
    } else if is_flag(arg) {
        Err("unknown option: "@ + arg)
    } else {
        Ok(ArgsSpec { positional: args.positional.push(arg), ..args })
    }
}

/// The command line with one more argument, or the error it leads to.
pub open spec fn with_arg(args: ArgsSpec, arg: Seq<char>) -> Result<ArgsSpec, Seq<char>> {
    match args.pending {
        Some(flag) => with_value(args, flag, arg),
        None => with_option(args, arg),
    }
}

/// The command line of the first `n` arguments; the first error ends it.
pub open spec fn args_upto(list: Seq<Seq<char>>, n: nat) -> Result<ArgsSpec, Seq<char>>
    decreases n,
{
    if n == 0 {
        Ok(no_args())
    } else {
        match args_upto(list, (n - 1) as nat) {
            Ok(args) => with_arg(args, list[n - 1]),
            Err(e) => Err(e),
        }
    }
}

/// How an option with a value is written.
pub open spec fn flag_text(flag: ValueFlag) -> Seq<char> {
    match flag {
        ValueFlag::Context => "-C"@,
        ValueFlag::Glob => "--glob"@,
        ValueFlag::Color => "--color"@,
    }
}

/// The command line, or the error to report.
pub open spec fn args_of(list: Seq<Seq<char>>) -> Result<ArgsSpec, Seq<char>> {
    match args_upto(list, list.len()) {
        Ok(args) => match args.pending {
            Some(flag) => Err("missing value for "@ + flag_text(flag)),
            None => Ok(args),
        },
        Err(e) => Err(e),
    }
}

proof fn lemma_digits_grow(s: Seq<u8>, n: int)
    requires
        0 <= n <= s.len(),
        all_digits(s),
    ensures
        digits_value(s.take(n)) <= digits_value(s),
    decreases s.len(),
{
    if n < s.len() {
        assert forall|i: int| 0 <= i < s.len() - 1 implies 48 <= #[trigger] s.drop_last()[i] <= 57 by {
            assert(s[i] == s.drop_last()[i]);
        }
        lemma_digits_grow(s.drop_last(), n);
        assert(s.drop_last().take(n) =~= s.take(n));
        assert(s[s.len() - 1] == s.last());
    } else {
        assert(s.take(n) =~= s);
    }
}

/// The number that an argument stands for, if it is one that fits.
pub fn parse_number(arg: &str) -> (out: Option<usize>)
    ensures
        out is Some <==> number(arg@) is Some,
        out matches Some(n) ==> number(arg@) == Some(n as int),
{
    let s = arg.as_bytes();
    if s.len() == 0 {
        return None;
    }
    let mut value: usize = 0;
    let mut i: usize = 0;
    while i < s.len()
        invariant
            i <= s@.len(),
            s@ == encode_utf8(arg@),
            s@.len() > 0,
            all_digits(s@.take(i as int)),
            value == digits_value(s@.take(i as int)),
        decreases s@.len() - i,
    {
        let b = s[i];
        if b < 48 || b > 57 {
            assert(!all_digits(s@)) by {
                assert(s@[i as int] == b);
            }
            return None;
        }
        let ghost next = 10 * value + (b - 48);
        proof {
            assert(s@.take(i + 1).drop_last() =~= s@.take(i as int));
            assert(digits_value(s@.take(i + 1)) == next);
            if all_digits(s@) {
                lemma_digits_grow(s@, i + 1);
            }
            assert forall|j: int| 0 <= j < i + 1 implies 48 <= #[trigger] s@.take(i + 1)[j] <= 57 by {
                if j < i {
                    assert(s@.take(i as int)[j] == s@.take(i + 1)[j]);
                }
            }
        }
        let wide: u128 = 10 * (value as u128) + (b - 48) as u128;
        if wide > usize::MAX as u128 {
            return None;
        }
        value = wide as usize;
        i += 1;
    }
    assert(s@.take(i as int) =~= s@);
    Some(value)
}

impl Args {
    /// The command line before its first argument.
    fn none() -> (out: Args)
        ensures
            out@ == no_args(),
    {
        let out = Args {
            build: false,
            update: false,
            no_index: false,
            ignore_case: false,
            stats: false,
            time: false,
            help: false,
            daemon: false,
            count: false,
            files_with_matches: false,
            context: 0,
            globs: Vec::new(),
            color: String::from_str("auto"),
            positional: Vec::new(),
            pending: None,
        };
        assert(out@ =~= no_args());
        out
    }

    /// Take the value of the option `flag`.
    fn take_value(&mut self, flag: ValueFlag, value: &str) -> (out: Result<(), String>)
        ensures
            out is Ok <==> with_value(old(self)@, flag, value@) is Ok,
            out is Ok ==> with_value(old(self)@, flag, value@) == Ok::<ArgsSpec, Seq<char>>(final(self)@),
            out matches Err(e) ==> with_value(old(self)@, flag, value@) == Err::<ArgsSpec, Seq<char>>(e@),
    {
        self.pending = None;
        match flag {
            ValueFlag::Context => match parse_number(value) {
                Some(n) => {
                    self.context = n;
                },
                None => {
                    return Err(String::from_str("invalid value for -C: ").concat(value));
                },
            },
            ValueFlag::Glob => {
                let ghost before = texts(self.globs@);
                self.globs.push(value.to_owned());
                assert(texts(self.globs@) =~= before.push(value@));
            },
            ValueFlag::Color => {
                self.color = value.to_owned();
            },
        }
        Ok(())
    }

    /// Take an option, or else a positional argument.
    #[verifier::rlimit(50)]
    fn take_option(&mut self, arg: &str) -> (out: Result<(), String>)
        ensures
            out is Ok <==> with_option(old(self)@, arg@) is Ok,
            out is Ok ==> with_option(old(self)@, arg@) == Ok::<ArgsSpec, Seq<char>>(final(self)@),
            out matches Err(e) ==> with_option(old(self)@, arg@) == Err::<ArgsSpec, Seq<char>>(e@),
    {
        if same_text(arg, "--build") {
            self.build = true;
        } else if same_text(arg, "--update") {
            self.update = true;
        } else if same_text(arg, "--no-index") {
            self.no_index = true;
        } else if same_text(arg, "-i") || same_text(arg, "--ignore-case") {
            self.ignore_case = true;
        } else if same_text(arg, "--stats") {
            self.stats = true;
        } else if same_text(arg, "--time") {
            self.time = true;
        } else if same_text(arg, "-h") || same_text(arg, "--help") {
            self.help = true;
        } else if same_text(arg, "--daemon") {
            self.daemon = true;
        } else if same_text(arg, "-c") {
            self.count = true;
        } else if same_text(arg, "-l") {
            self.files_with_matches = true;
        } else if same_text(arg, "-C") {
            self.pending = Some(ValueFlag::Context);
        } else if same_text(arg, "--glob") {
            self.pending = Some(ValueFlag::Glob);
        } else if same_text(arg, "--color") {
            self.pending = Some(ValueFlag::Color);
        } else if same_text(arg, "--stop") {
            return Err(String::from_str("--stop is not supported"));
        } else if arg.as_bytes().len() > 0 && arg.as_bytes()[0] == 45 {
            return Err(String::from_str("unknown option: ").concat(arg));
        } else {
            let ghost before = texts(self.positional@);
            self.positional.push(arg.to_owned());
            assert(texts(self.positional@) =~= before.push(arg@));
        }
        Ok(())
    }

    /// Take one more argument.
    fn take(&mut self, arg: &str) -> (out: Result<(), String>)
        ensures
            out is Ok <==> with_arg(old(self)@, arg@) is Ok,
            out is Ok ==> with_arg(old(self)@, arg@) == Ok::<ArgsSpec, Seq<char>>(final(self)@),
            out matches Err(e) ==> with_arg(old(self)@, arg@) == Err::<ArgsSpec, Seq<char>>(e@),
    {
        match self.pending {
            Some(flag) => self.take_value(flag, arg),
            None => self.take_option(arg),
        }
    }
}

proof fn lemma_args_grow(list: Seq<Seq<char>>, n: nat, m: nat)
    requires
        n <= m,
        args_upto(list, n) is Err,
    ensures
        args_upto(list, m) == args_upto(list, n),
    decreases m,
{
    if n < m {
        lemma_args_grow(list, n, (m - 1) as nat);
    }
}

/// Read the command line; the error is the message to report.
pub fn parse_args(list: &[String]) -> (out: Result<Args, String>)
    ensures
        out is Ok <==> args_of(texts(list@)) is Ok,
        out matches Ok(args) ==> args_of(texts(list@)) == Ok::<ArgsSpec, Seq<char>>(args@),
        out matches Err(e) ==> args_of(texts(list@)) == Err::<ArgsSpec, Seq<char>>(e@),
{
    let ghost all = texts(list@);
    let mut args = Args::none();
    let mut i: usize = 0;
    while i < list.len()
        invariant
            i <= list@.len(),
            all == texts(list@),
            args_upto(all, i as nat) == Ok::<ArgsSpec, Seq<char>>(args@),
        decreases list@.len() - i,
    {
        assert(all[i as int] == list@[i as int]@);
        if let Err(e) = args.take(list[i].as_str()) {
            proof {
                lemma_args_grow(all, (i + 1) as nat, all.len());
            }
            return Err(e);
        }
        i += 1;
    }
    match args.pending {
        Some(ValueFlag::Context) => Err(String::from_str("missing value for ").concat("-C")),
        Some(ValueFlag::Glob) => Err(String::from_str("missing value for ").concat("--glob")),
        Some(ValueFlag::Color) => Err(String::from_str("missing value for ").concat("--color")),
        None => Ok(args),
    }
}

/// What a command line asks for.
#[derive(Debug)]
pub enum Action {
    Help,
    /// Build the index of a root.
    Build { path: String },
    /// Update the index of a root.
    Update { path: String },
    /// Show statistics of the index of a root.
    Stats { path: String },
    /// Serve queries on a root.
    Daemon { path: String },
    /// A search without a pattern.
    NoPattern,
    /// Search the files under a root one by one.
    BruteForce { pattern: String, path: String },
    /// Search with the index of a root.
    Search { pattern: String, path: String },
}

/// The mathematical form of an [`Action`].
pub enum ActionSpec {
    Help,
    Build { path: Seq<char> },
    Update { path: Seq<char> },
    Stats { path: Seq<char> },
    Daemon { path: Seq<char> },
    NoPattern,
    BruteForce { pattern: Seq<char>, path: Seq<char> },
    Search { pattern: Seq<char>, path: Seq<char> },
}

impl View for Action {
    type V = ActionSpec;

    open spec fn view(&self) -> ActionSpec {
        match self {
            Action::Help => ActionSpec::Help,
            Action::Build { path } => ActionSpec::Build { path: path@ },
            Action::Update { path } => ActionSpec::Update { path: path@ },
            Action::Stats { path } => ActionSpec::Stats { path: path@ },
            Action::Daemon { path } => ActionSpec::Daemon { path: path@ },
            Action::NoPattern => ActionSpec::NoPattern,
            Action::BruteForce { pattern, path } => ActionSpec::BruteForce { pattern: pattern@, path: path@ },
            Action::Search { pattern, path } => ActionSpec::Search { pattern: pattern@, path: path@ },
        }
    }
}

/// Positional argument number `i`, or the current directory.
pub open spec fn path_at(args: ArgsSpec, i: int) -> Seq<char> {
    if i < args.positional.len() {
        args.positional[i]
    } else {
        "."@
    }
}

/// What a command line asks for. The commands on an index come before a search
/// and take the path as their first positional argument; a search takes the
/// pattern first.
pub open spec fn action_of(args: ArgsSpec) -> ActionSpec {
    if args.help {
        ActionSpec::Help
    } else if args.build {
        ActionSpec::Build { path: path_at(args, 0) }
    } else if args.update {
        ActionSpec::Update { path: path_at(args, 0) }
    } else if args.stats {
        ActionSpec::Stats { path: path_at(args, 0) }
    } else if args.daemon {
        ActionSpec::Daemon { path: path_at(args, 0) }
    } else if args.positional.len() == 0 {
        ActionSpec::NoPattern
    } else if args.no_index {
        ActionSpec::BruteForce { pattern: args.positional[0], path: path_at(args, 1) }
    } else {
        ActionSpec::Search { pattern: args.positional[0], path: path_at(args, 1) }
    }
}

/// Positional argument number `i`, or the current directory.
fn path_or_here(args: &Args, i: usize) -> (path: String)
    ensures
        path@ == path_at(args@, i as int),
{
    if i < args.positional.len() {
        args.positional[i].clone()
    } else {
        String::from_str(".")
    }
}

/// What a command line asks for.
pub fn choose_command(args: &Args) -> (action: Action)
    ensures
        action@ == action_of(args@),
{
    if args.help {
        Action::Help
    } else if args.build {
        Action::Build { path: path_or_here(args, 0) }
    } else if args.update {
        Action::Update { path: path_or_here(args, 0) }
    } else if args.stats {
        Action::Stats { path: path_or_here(args, 0) }
    } else if args.daemon {
        Action::Daemon { path: path_or_here(args, 0) }
    } else if args.positional.len() == 0 {
        Action::NoPattern
    } else if args.no_index {
        Action::BruteForce { pattern: args.positional[0].clone(), path: path_or_here(args, 1) }
    } else {
        Action::Search { pattern: args.positional[0].clone(), path: path_or_here(args, 1) }
    }
}

/// The search options that a command line asks for; `terminal` says whether
/// output goes to one.
pub fn search_options(args: &Args, terminal: bool) -> (opts: SearchOptions)
    ensures
        opts == options_of(args@, terminal),
{
    let mode = if args.files_with_matches {
        SearchMode::FilesWithMatches
    } else if args.count {
        SearchMode::Count
    } else {
        SearchMode::Normal
    };
    SearchOptions {
        mode,
        before: args.context,
        after: args.context,
        color: resolve_color(args.color.as_str(), terminal),
    }
}

/// The search options that a command line asks for.
pub open spec fn options_of(args: ArgsSpec, terminal: bool) -> SearchOptions {
    SearchOptions {
        mode: if args.files_with_matches {
            SearchMode::FilesWithMatches
        } else if args.count {
            SearchMode::Count
        } else {
            SearchMode::Normal
        },
        before: args.context as usize,
        after: args.context as usize,
        color: color_for(args.color, terminal),
    }
}

/// The options whose value is the next argument.
pub open spec fn takes_value(arg: Seq<char>) -> bool {
    arg == "-C"@ || arg == "--glob"@ || arg == "--color"@
}

/// Argument number `i` is the value of the option in front of it, not an option
/// itself.
pub open spec fn is_value(list: Seq<Seq<char>>, i: int) -> bool
    decreases i,
{
    i > 0 && !is_value(list, i - 1) && takes_value(list[i - 1])
}

/// Argument number `i` is the option `text`.
pub open spec fn is_option(list: Seq<Seq<char>>, i: int, text: Seq<char>) -> bool {
    !is_value(list, i) && list[i] == text
}

/// One of the first `n` arguments is the option `text`.
pub open spec fn has_option(list: Seq<Seq<char>>, text: Seq<char>, n: int) -> bool {
    exists|i: int| 0 <= i < n && #[trigger] is_option(list, i, text)
}

/// Argument number `i` is the value of the option `text`.
pub open spec fn is_value_of(list: Seq<Seq<char>>, i: int, text: Seq<char>) -> bool {
    is_value(list, i) && list[i - 1] == text
}

/// Argument number `i` is neither an option nor a value.
pub open spec fn is_positional(list: Seq<Seq<char>>, i: int) -> bool {
    !is_value(list, i) && !starts_with_dash(list[i])
}

/// The argument starts with a dash.
pub open spec fn starts_with_dash(arg: Seq<char>) -> bool {
    arg.len() > 0 && arg[0] == '-'
}

/// The arguments among the first `n` at the positions that `at` picks, in order.
pub open spec fn picked(list: Seq<Seq<char>>, at: spec_fn(int) -> bool, n: nat) -> Seq<Seq<char>> {
    Seq::new(n, |i: int| i).filter(at).map_values(|i: int| list[i])
}

proof fn lemma_picked_push(list: Seq<Seq<char>>, at: spec_fn(int) -> bool, n: nat)
    ensures
        picked(list, at, 0) == Seq::<Seq<char>>::empty(),
        picked(list, at, n + 1) == if at(n as int) {
            picked(list, at, n).push(list[n as int])
        } else {
            picked(list, at, n)
        },
{
    reveal(Seq::filter);
    let all = Seq::new(n, |i: int| i);
    let more = Seq::new(n + 1, |i: int| i);
    assert(more.drop_last() =~= all);
    assert(more.last() == n);
    assert(Seq::new(0, |i: int| i) =~= Seq::empty());
    assert(picked(list, at, 0) =~= Seq::empty());
    assert(picked(list, at, n + 1) =~= if at(n as int) {
        picked(list, at, n).push(list[n as int])
    } else {
        picked(list, at, n)
    });
}

proof fn lemma_dash(arg: Seq<char>)
    ensures
        is_flag(arg) <==> starts_with_dash(arg),
{
    if arg.len() > 0 {
        let c = arg[0] as u32;
        vstd::utf8::char_is_scalar(arg[0]);
        let rest = encode_utf8(arg.drop_first());
        assert(encode_utf8(arg)[0] == vstd::utf8::encode_scalar(c)[0]);
        assert(c <= 0x7f ==> (c & 0x7f) as u8 == c) by (bit_vector);
        assert((0xC0u8 | ((c >> 6) & 0x1F) as u8) >= 0xC0 && (0xE0u8 | ((c >> 12) & 0x0F) as u8) >= 0xE0 && (0xF0u8 | ((c
            >> 18) & 0x7) as u8) >= 0xF0) by (bit_vector);
        if c == 45 {
            vstd::utf8::char_u32_cast(arg[0], 45);
            vstd::utf8::char_u32_cast('-', 45);
        }
    }
}

/// The texts of the options are different from one another.
proof fn lemma_option_texts()
    ensures
        "--build"@.len() == 7 && "--build"@[2] == 'b' && "--build"@[0] == '-',
        "--update"@.len() == 8 && "--update"@[2] == 'u' && "--update"@[0] == '-',
        "--no-index"@.len() == 10 && "--no-index"@[0] == '-',
        "-i"@.len() == 2 && "-i"@[1] == 'i' && "-i"@[0] == '-',
        "--ignore-case"@.len() == 13 && "--ignore-case"@[0] == '-',
        "--stats"@.len() == 7 && "--stats"@[2] == 's' && "--stats"@[0] == '-',
        "--time"@.len() == 6 && "--time"@[2] == 't' && "--time"@[0] == '-',
        "-h"@.len() == 2 && "-h"@[1] == 'h' && "-h"@[0] == '-',
        "--help"@.len() == 6 && "--help"@[2] == 'h' && "--help"@[0] == '-',
        "--daemon"@.len() == 8 && "--daemon"@[2] == 'd' && "--daemon"@[0] == '-',
        "-c"@.len() == 2 && "-c"@[1] == 'c' && "-c"@[0] == '-',
        "-l"@.len() == 2 && "-l"@[1] == 'l' && "-l"@[0] == '-',
        "-C"@.len() == 2 && "-C"@[1] == 'C' && "-C"@[0] == '-',
        "--glob"@.len() == 6 && "--glob"@[2] == 'g' && "--glob"@[0] == '-',
        "--color"@.len() == 7 && "--color"@[2] == 'c' && "--color"@[0] == '-',
        "--stop"@.len() == 6 && "--stop"@[2] == 's' && "--stop"@[0] == '-',
{
    reveal_strlit("--build");
    reveal_strlit("--update");
    reveal_strlit("--no-index");
    reveal_strlit("-i");
    reveal_strlit("--ignore-case");
    reveal_strlit("--stats");
    reveal_strlit("--time");
    reveal_strlit("-h");
    reveal_strlit("--help");
    reveal_strlit("--daemon");
    reveal_strlit("-c");
    reveal_strlit("-l");
    reveal_strlit("-C");
    reveal_strlit("--glob");
    reveal_strlit("--color");
    reveal_strlit("--stop");
}

/// An option that is known, apart from those with a value.
pub open spec fn is_switch(arg: Seq<char>) -> bool {
    ||| arg == "--build"@
    ||| arg == "--update"@
    ||| arg == "--no-index"@
    ||| arg == "-i"@
    ||| arg == "--ignore-case"@
    ||| arg == "--stats"@
    ||| arg == "--time"@
    ||| arg == "-h"@
    ||| arg == "--help"@
    ||| arg == "--daemon"@
    ||| arg == "-c"@
    ||| arg == "-l"@
}

/// What the first `n` arguments say, argument by argument.
pub open spec fn says(list: Seq<Seq<char>>, n: nat, args: ArgsSpec) -> bool {
    &&& args.build <==> has_option(list, "--build"@, n as int)
    &&& args.update <==> has_option(list, "--update"@, n as int)
    &&& args.no_index <==> has_option(list, "--no-index"@, n as int)
    &&& args.ignore_case <==> has_option(list, "-i"@, n as int) || has_option(list, "--ignore-case"@, n as int)
    &&& args.stats <==> has_option(list, "--stats"@, n as int)
    &&& args.time <==> has_option(list, "--time"@, n as int)
    &&& args.help <==> has_option(list, "-h"@, n as int) || has_option(list, "--help"@, n as int)
    &&& args.daemon <==> has_option(list, "--daemon"@, n as int)
    &&& args.count <==> has_option(list, "-c"@, n as int)
    &&& args.files_with_matches <==> has_option(list, "-l"@, n as int)
    &&& args.positional == picked(list, |i: int| is_positional(list, i), n)
    &&& args.globs == picked(list, |i: int| is_value_of(list, i, "--glob"@), n)
    &&& args.color == last_or(picked(list, |i: int| is_value_of(list, i, "--color"@), n), "auto"@)
    &&& args.context == match number(last_or(picked(list, |i: int| is_value_of(list, i, "-C"@), n), "0"@)) {
        Some(k) => k,
        None => -1,
    }
}

/// The last of several texts, or `other` if there is none.
pub open spec fn last_or(texts: Seq<Seq<char>>, other: Seq<char>) -> Seq<char> {
    if texts.len() == 0 {
        other
    } else {
        texts.last()
    }
}

proof fn lemma_has_option(list: Seq<Seq<char>>, text: Seq<char>, n: int)
    requires
        n >= 0,
    ensures
        !has_option(list, text, 0),
        has_option(list, text, n + 1) <==> has_option(list, text, n) || is_option(list, n, text),
{
    if is_option(list, n, text) {
        assert(has_option(list, text, n + 1));
    }
    if has_option(list, text, n) {
        let i = choose|i: int| 0 <= i < n && #[trigger] is_option(list, i, text);
        assert(is_option(list, i, text));
    }
}

proof fn lemma_zero()
    ensures
        number("0"@) == Some(0int),
{
    reveal_strlit("0");
    reveal_with_fuel(encode_utf8, 2);
    reveal_with_fuel(digits_value, 2);
    assert("0"@.drop_first() =~= Seq::empty());
    let s = encode_utf8("0"@);
    assert((48u32 & 0x7f) as u8 == 48) by (bit_vector);
    assert(s =~= seq![48u8]);
    assert(s.drop_last() =~= Seq::empty());
}

#[verifier::rlimit(100)]
proof fn lemma_says_step(list: Seq<Seq<char>>, n: nat, before: ArgsSpec, after: ArgsSpec)
    requires
        n < list.len(),
        says(list, n, before),
        before.pending is Some <==> is_value(list, n as int),
        before.pending matches Some(flag) ==> list[n - 1] == flag_text(flag),
        with_arg(before, list[n as int]) == Ok::<ArgsSpec, Seq<char>>(after),
    ensures
        says(list, n + 1, after),
        after.pending is Some <==> is_value(list, (n + 1) as int),
        after.pending matches Some(flag) ==> list[n as int] == flag_text(flag),
{
    let arg = list[n as int];
    lemma_option_texts();
    lemma_dash(arg);
    lemma_has_option(list, "--build"@, n as int);
    lemma_has_option(list, "--update"@, n as int);
    lemma_has_option(list, "--no-index"@, n as int);
    lemma_has_option(list, "-i"@, n as int);
    lemma_has_option(list, "--ignore-case"@, n as int);
    lemma_has_option(list, "--stats"@, n as int);
    lemma_has_option(list, "--time"@, n as int);
    lemma_has_option(list, "-h"@, n as int);
    lemma_has_option(list, "--help"@, n as int);
    lemma_has_option(list, "--daemon"@, n as int);
    lemma_has_option(list, "-c"@, n as int);
    lemma_has_option(list, "-l"@, n as int);
    lemma_picked_push(list, |i: int| is_positional(list, i), n);
    lemma_picked_push(list, |i: int| is_value_of(list, i, "--glob"@), n);
    lemma_picked_push(list, |i: int| is_value_of(list, i, "--color"@), n);
    lemma_picked_push(list, |i: int| is_value_of(list, i, "-C"@), n);
    if before.pending is Some {
        assert(is_value(list, n as int));
        assert(!is_value(list, (n + 1) as int));
    } else {
        assert(!is_value(list, n as int));
        assert(is_value(list, (n + 1) as int) == takes_value(arg));
    }
}

proof fn lemma_says(list: Seq<Seq<char>>, n: nat)
    requires
        n <= list.len(),
    ensures
        args_upto(list, n) matches Ok(args) ==> says(list, n, args) && (args.pending is Some <==> is_value(list, n as int))
            && (args.pending matches Some(flag) ==> list[n - 1] == flag_text(flag)),
    decreases n,
{
    if n == 0 {
        lemma_zero();
        lemma_has_option(list, "--build"@, 0);
        lemma_has_option(list, "--update"@, 0);
        lemma_has_option(list, "--no-index"@, 0);
        lemma_has_option(list, "-i"@, 0);
        lemma_has_option(list, "--ignore-case"@, 0);
        lemma_has_option(list, "--stats"@, 0);
        lemma_has_option(list, "--time"@, 0);
        lemma_has_option(list, "-h"@, 0);
        lemma_has_option(list, "--help"@, 0);
        lemma_has_option(list, "--daemon"@, 0);
        lemma_has_option(list, "-c"@, 0);
        lemma_has_option(list, "-l"@, 0);
        lemma_picked_push(list, |i: int| is_positional(list, i), 0);
        lemma_picked_push(list, |i: int| is_value_of(list, i, "--glob"@), 0);
        lemma_picked_push(list, |i: int| is_value_of(list, i, "--color"@), 0);
        lemma_picked_push(list, |i: int| is_value_of(list, i, "-C"@), 0);
    } else {
        lemma_says(list, (n - 1) as nat);
        if args_upto(list, n) is Ok {
            let before = args_upto(list, (n - 1) as nat)->Ok_0;
            lemma_says_step(list, (n - 1) as nat, before, args_upto(list, n)->Ok_0);
        }
    }
}

/// A command line that can be read says, argument by argument: a switch is on if
/// and only if it is among the options; the rules of `--glob` and the positional
/// arguments come in order; of `--color` and `-C` the last value counts.
pub proof fn arguments_are_read_one_by_one(list: Seq<Seq<char>>)
    ensures
        args_of(list) matches Ok(args) ==> says(list, list.len(), args),
{
    lemma_says(list, list.len());
}

/// `-l` prints paths only, whatever else is asked for; without it `-c` prints
/// counts; without both, lines are printed. Both before and behind a match as many
/// lines are shown as `-C` says.
pub proof fn options_follow_the_arguments(list: Seq<Seq<char>>, args: ArgsSpec, terminal: bool)
    requires
        args_of(list) == Ok::<ArgsSpec, Seq<char>>(args),
    ensures
        has_option(list, "-l"@, list.len() as int) ==> options_of(args, terminal).mode == SearchMode::FilesWithMatches,
        !has_option(list, "-l"@, list.len() as int) && has_option(list, "-c"@, list.len() as int) ==> options_of(
            args,
            terminal,
        ).mode == SearchMode::Count,
        !has_option(list, "-l"@, list.len() as int) && !has_option(list, "-c"@, list.len() as int) ==> options_of(
            args,
            terminal,
        ).mode == SearchMode::Normal,
        picked(list, |i: int| is_value_of(list, i, "-C"@), list.len()).len() == 0 ==> options_of(args, terminal).before
            == 0 && options_of(args, terminal).after == 0,
        picked(list, |i: int| is_value_of(list, i, "-C"@), list.len()).len() > 0 ==> number(
            picked(list, |i: int| is_value_of(list, i, "-C"@), list.len()).last(),
        ) == Some(options_of(args, terminal).before as int) && options_of(args, terminal).after == options_of(
            args,
            terminal,
        ).before,
        options_of(args, terminal).color == color_for(
            last_or(picked(list, |i: int| is_value_of(list, i, "--color"@), list.len()), "auto"@),
            terminal,
        ),
{
    lemma_says(list, list.len());
    lemma_zero();
    lemma_context(list, list.len());
}

proof fn lemma_context(list: Seq<Seq<char>>, n: nat)
    ensures
        args_upto(list, n) matches Ok(args) ==> 0 <= args.context <= usize::MAX,
    decreases n,
{
    if n > 0 {
        lemma_context(list, (n - 1) as nat);
    }
}

/// What a command line does: help comes first, then the commands on an index,
/// each of which takes its path from the first positional argument; without any
/// of them it searches for the first positional argument under the second, with
/// the index unless that is switched off. A path that is not given is `.`.
pub proof fn commands_come_before_a_search(list: Seq<Seq<char>>, args: ArgsSpec)
    requires
        args_of(list) == Ok::<ArgsSpec, Seq<char>>(args),
    ensures
        ({
            let n = list.len() as int;
            let given = picked(list, |i: int| is_positional(list, i), list.len());
            let path = if given.len() > 0 {
                given[0]
            } else {
                "."@
            };
            let under = if given.len() > 1 {
                given[1]
            } else {
                "."@
            };
            let help = has_option(list, "-h"@, n) || has_option(list, "--help"@, n);
            let command = has_option(list, "--build"@, n) || has_option(list, "--update"@, n) || has_option(
                list,
                "--stats"@,
                n,
            ) || has_option(list, "--daemon"@, n);
            let action = action_of(args);
            &&& help <==> action is Help
            &&& !help && has_option(list, "--build"@, n) ==> action == (ActionSpec::Build { path })
            &&& !help && !has_option(list, "--build"@, n) && has_option(list, "--update"@, n) ==> action == (
            ActionSpec::Update { path })
            &&& !help && !has_option(list, "--build"@, n) && !has_option(list, "--update"@, n) && has_option(
                list,
                "--stats"@,
                n,
            ) ==> action == (ActionSpec::Stats { path })
            &&& !help && !has_option(list, "--build"@, n) && !has_option(list, "--update"@, n) && !has_option(
                list,
                "--stats"@,
                n,
            ) && has_option(list, "--daemon"@, n) ==> action == (ActionSpec::Daemon { path })
            &&& !help && !command && given.len() == 0 ==> action is NoPattern
            &&& !help && !command && given.len() > 0 && has_option(list, "--no-index"@, n) ==> action == (
            ActionSpec::BruteForce { pattern: given[0], path: under })
            &&& !help && !command && given.len() > 0 && !has_option(list, "--no-index"@, n) ==> action == (
            ActionSpec::Search { pattern: given[0], path: under })
        }),
{
    lemma_says(list, list.len());
}

/// Argument number `i` cannot be taken: an option that is not known, or a value
/// of `-C` that is no number.
pub open spec fn is_refused(list: Seq<Seq<char>>, i: int) -> bool {
    if is_value(list, i) {
        list[i - 1] == "-C"@ && number(list[i]) is None
    } else {
        starts_with_dash(list[i]) && !is_switch(list[i]) && !takes_value(list[i])
    }
}

proof fn lemma_refused(list: Seq<Seq<char>>, n: nat)
    requires
        n <= list.len(),
    ensures
        args_upto(list, n) is Ok <==> forall|i: int| 0 <= i < n ==> !#[trigger] is_refused(list, i),
        forall|i: int|
            0 <= i < n && #[trigger] is_refused(list, i) && (forall|j: int| 0 <= j < i ==> !#[trigger] is_refused(list, j))
                ==> args_upto(list, n) == Err::<ArgsSpec, Seq<char>>(
                if is_value(list, i) {
                    "invalid value for -C: "@ + list[i]
                } else if list[i] == "--stop"@ {
                    "--stop is not supported"@
                } else {
                    "unknown option: "@ + list[i]
                },
            ),
    decreases n,
{
    if n > 0 {
        let m = (n - 1) as nat;
        lemma_refused(list, m);
        lemma_says(list, m);
        lemma_option_texts();
        lemma_dash(list[m as int]);
        if args_upto(list, m) is Ok {
            let before = args_upto(list, m)->Ok_0;
            assert(before.pending is Some <==> is_value(list, m as int));
            assert(with_arg(before, list[m as int]) is Ok <==> !is_refused(list, m as int));
        }
        assert forall|i: int|
            0 <= i < n && #[trigger] is_refused(list, i) && (forall|j: int|
                0 <= j < i ==> !#[trigger] is_refused(list, j)) implies args_upto(list, n) == Err::<ArgsSpec, Seq<char>>(
            if is_value(list, i) {
                "invalid value for -C: "@ + list[i]
            } else if list[i] == "--stop"@ {
                "--stop is not supported"@
            } else {
                "unknown option: "@ + list[i]
            },
        ) by {
            if i < m {
                assert(is_refused(list, i));
            }
        }
    }
}

/// A command line can be read if and only if each option is known, each value of
/// `-C` is a number and no value is missing. The first argument that cannot be
/// taken is the one that is reported.
pub proof fn the_first_fault_is_reported(list: Seq<Seq<char>>, i: int)
    ensures
        args_of(list) is Ok <==> !is_value(list, list.len() as int) && forall|k: int|
            0 <= k < list.len() ==> !#[trigger] is_refused(list, k),
        0 <= i < list.len() && is_refused(list, i) && (forall|j: int| 0 <= j < i ==> !#[trigger] is_refused(list, j))
            ==> args_of(list) == Err::<ArgsSpec, Seq<char>>(
            if is_value(list, i) {
                "invalid value for -C: "@ + list[i]
            } else if list[i] == "--stop"@ {
                "--stop is not supported"@
            } else {
                "unknown option: "@ + list[i]
            },
        ),
        is_value(list, list.len() as int) && (forall|j: int| 0 <= j < list.len() ==> !#[trigger] is_refused(list, j))
            ==> args_of(list) == Err::<ArgsSpec, Seq<char>>("missing value for "@ + list.last()),
{
    lemma_refused(list, list.len());
    lemma_says(list, list.len());
}

/// A number that is written out is read as that number, whatever zeros stand in
/// front of it.
pub proof fn written_numbers_are_read(arg: Seq<char>, zeros: nat, n: nat)
    requires
        encode_utf8(arg) == Seq::new(zeros, |i: int| 48u8) + decimal(n),
    ensures
        n <= usize::MAX ==> number(arg) == Some(n as int),
        n > usize::MAX ==> number(arg) is None,
{
    lemma_decimal(n, zeros);
    let s = encode_utf8(arg);
    assert(decimal(n).len() > 0);
}

/// Nothing but digits is a number, and there has to be one.
pub proof fn numbers_are_digits(arg: Seq<char>)
    ensures
        number(arg) is Some ==> encode_utf8(arg).len() > 0 && forall|i: int|
            0 <= i < encode_utf8(arg).len() ==> 48 <= #[trigger] encode_utf8(arg)[i] <= 57,
{
}

proof fn lemma_decimal(n: nat, zeros: nat)
    ensures
        decimal(n).len() > 0,
        all_digits(Seq::new(zeros, |i: int| 48u8) + decimal(n)),
        digits_value(Seq::new(zeros, |i: int| 48u8) + decimal(n)) == n,
    decreases n, zeros,
{
    let z = Seq::new(zeros, |i: int| 48u8);
    let s = z + decimal(n);
    if n >= 10 {
        lemma_decimal(n / 10, zeros);
        let init = z + decimal(n / 10);
        assert(s.drop_last() =~= init);
        assert(s.last() == 48 + n % 10);
        assert(10 * (n / 10) + n % 10 == n);
        assert forall|i: int| 0 <= i < s.len() implies 48 <= #[trigger] s[i] <= 57 by {
            if i < init.len() {
                assert(init[i] == s[i]);
            }
        }
    } else {
        assert(s.drop_last() =~= z);
        assert(s.last() == 48 + n);
        lemma_zeros(zeros);
        assert forall|i: int| 0 <= i < s.len() implies 48 <= #[trigger] s[i] <= 57 by {
            if i < zeros {
                assert(z[i] == s[i]);
            }
        }
    }
}

proof fn lemma_zeros(zeros: nat)
    ensures
        digits_value(Seq::new(zeros, |i: int| 48u8)) == 0,
    decreases zeros,
{
    let z = Seq::new(zeros, |i: int| 48u8);
    if zeros > 0 {
        lemma_zeros((zeros - 1) as nat);
        assert(z.drop_last() =~= Seq::new((zeros - 1) as nat, |i: int| 48u8));
        assert(z.last() == 48);
    }
}

} // verus!
