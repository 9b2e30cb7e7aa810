//! File discovery.
//!
//! Directory traversal and `.gitignore`/`.ignore` handling happen outside; what
//! the walk reports is filtered here by a maximum file size, a binary-extension
//! blocklist, and the user's `--glob` rules.
//!
//! Returned paths are **relative to the search root**, which keeps the index
//! portable and the output clean (`instagrep pat .` ⇒ `./src/foo.rs`).

use vstd::prelude::*;
use vstd::slice::slice_subrange;
use vstd::string::*;
use vstd::utf8::{encode_utf8, valid_utf8};

use crate::sort::{merge_sort, sorted, Ranked};
use crate::strings::{bytes_equal, copy_bytes, starts_with, strings_of, Strings};
use crate::text::{as_text, joined, lossy, push_lossy};
use crate::trigram::{lower, lower_ascii};

verus! {

/// A NUL byte marks the sample binary.
pub open spec fn binary(sample: Seq<u8>) -> bool {
    sample.contains(0)
}

/// Heuristic binary check: a NUL byte in the leading sample marks a file binary.
pub fn looks_binary(bytes: &[u8]) -> (out: bool)
    ensures
        out == binary(bytes@),
        out <==> exists|i: int| 0 <= i < bytes@.len() && #[trigger] bytes@[i] == 0,
{
    let mut i: usize = 0;
    while i < bytes.len()
        invariant
            i <= bytes@.len(),
            forall|j: int| 0 <= j < i ==> bytes@[j] != 0,
        decreases bytes@.len() - i,
    {
        if bytes[i] == 0 {
            assert(bytes@[i as int] == 0);
            return true;
        }
        i += 1;
    }
    false
}

/// The first `n` bytes, or all of them.
pub open spec fn leading(bytes: Seq<u8>, n: nat) -> Seq<u8> {
    if bytes.len() <= n {
        bytes
    } else {
        bytes.take(n as int)
    }
}

/// Whether the first `n` bytes look binary.
pub fn starts_binary(bytes: &[u8], n: usize) -> (out: bool)
    ensures
        out == binary(leading(bytes@, n as nat)),
        out <==> exists|i: int| 0 <= i < bytes@.len() && i < n && #[trigger] bytes@[i] == 0,
{
    if bytes.len() <= n {
        looks_binary(bytes)
    } else {
        let sample = slice_subrange(bytes, 0, n);
        assert forall|i: int| 0 <= i < n implies #[trigger] bytes@[i] == sample@[i] by {}
        looks_binary(sample)
    }
}

/// Largest file that is indexed by default: 1 MiB.
pub const DEFAULT_MAX_FILE_SIZE: u64 = 1048576;

/// Controls which files the walker considers indexable.
#[derive(Debug, Clone)]
pub struct WalkOptions {
    pub no_ignore: bool,
    pub hidden: bool,
    pub globs: Vec<String>,
    pub max_file_size: u64,
}

impl Default for WalkOptions {
    fn default() -> (out: WalkOptions)
        ensures
            !out.no_ignore,
            !out.hidden,
            out.globs@.len() == 0,
            out.max_file_size == DEFAULT_MAX_FILE_SIZE,
    {
        WalkOptions { no_ignore: false, hidden: false, globs: Vec::new(), max_file_size: DEFAULT_MAX_FILE_SIZE }
    }
}

/// What a directory walk reports of one entry. Paths are byte strings with `/`
/// between the names: the root, then the names below it.
#[derive(Debug)]
pub struct WalkEntry {
    pub path: Vec<u8>,
    pub is_file: bool,
    /// The size in bytes, if it could be read.
    pub len: Option<u64>,
}

/// `name` is `known`, up to the case of ASCII letters.
pub open spec fn names(name: Seq<u8>, known: Seq<char>) -> bool {
    lower(name) == lower(encode_utf8(known))
}

/// Extensions never worth indexing.
pub open spec fn binary_extension(ext: Seq<u8>) -> bool {
    ||| names(ext, "png"@)
    ||| names(ext, "jpg"@)
    ||| names(ext, "jpeg"@)
    ||| names(ext, "gif"@)
    ||| names(ext, "bmp"@)
    ||| names(ext, "ico"@)
    ||| names(ext, "svg"@)
    ||| names(ext, "woff"@)
    ||| names(ext, "woff2"@)
    ||| names(ext, "ttf"@)
    ||| names(ext, "eot"@)
    ||| names(ext, "mp3"@)
    ||| names(ext, "mp4"@)
    ||| names(ext, "avi"@)
    ||| names(ext, "mov"@)
    ||| names(ext, "pdf"@)
    ||| names(ext, "zip"@)
    ||| names(ext, "tar"@)
    ||| names(ext, "gz"@)
    ||| names(ext, "bz2"@)
    ||| names(ext, "xz"@)
    ||| names(ext, "zst"@)
    ||| names(ext, "7z"@)
    ||| names(ext, "rar"@)
    ||| names(ext, "exe"@)
    ||| names(ext, "dll"@)
    ||| names(ext, "so"@)
    ||| names(ext, "dylib"@)
    ||| names(ext, "o"@)
    ||| names(ext, "a"@)
    ||| names(ext, "beam"@)
    ||| names(ext, "class"@)
    ||| names(ext, "jar"@)
    ||| names(ext, "war"@)
    ||| names(ext, "pyc"@)
    ||| names(ext, "pyo"@)
    ||| names(ext, "lock"@)
}

/// Directories that are always skipped.
pub open spec fn ignored_name(name: Seq<u8>) -> bool {
    ||| name == encode_utf8(".git"@)
    ||| name == encode_utf8("node_modules"@)
    ||| name == encode_utf8(".instantgrep"@)
    ||| name == encode_utf8("target"@)
}

/// The bytes from `a` to `b` are one of the parts of `path` between slashes.
pub open spec fn is_part(path: Seq<u8>, a: int, b: int) -> bool {
    &&& 0 <= a <= b <= path.len()
    &&& a == 0 || path[a - 1] == 47
    &&& b == path.len() || path[b] == 47
    &&& forall|j: int| a <= j < b ==> path[j] != 47
}

/// A part of the path names a directory that is always skipped.
pub open spec fn has_ignored_part(path: Seq<u8>) -> bool {
    exists|a: int, b: int| #[trigger] is_part(path, a, b) && ignored_name(path.subrange(a, b))
}

/// Where the last name of a path starts.
pub open spec fn name_start(path: Seq<u8>) -> int
    decreases path.len(),
{
    if path.len() == 0 || path.last() == 47 {
        path.len() as int
    } else {
        name_start(path.drop_last())
    }
}

/// The last name of a path.
pub open spec fn base_name(path: Seq<u8>) -> Seq<u8> {
    path.skip(name_start(path))
}

/// Where the last dot of a name is, -1 if it has none.
pub open spec fn last_dot(name: Seq<u8>) -> int
    decreases name.len(),
{
    if name.len() == 0 {
        -1
    } else if name.last() == 46 {
        name.len() - 1
    } else {
        last_dot(name.drop_last())
    }
}

/// What stands behind the last dot of a name, if something stands before it.
pub open spec fn extension_of(name: Seq<u8>) -> Option<Seq<u8>> {
    if last_dot(name) <= 0 || name == seq![46u8, 46u8] {
        None
    } else {
        Some(name.skip(last_dot(name) + 1))
    }
}

/// `text` contains `part`.
pub open spec fn contains_bytes(text: Seq<u8>, part: Seq<u8>) -> bool {
    exists|i: int| 0 <= i <= text.len() - part.len() && #[trigger] text.subrange(i, i + part.len()) == part
}

/// `pattern` matches all of `text`: `?` stands for any byte, `*` for any
/// number of bytes, and another byte for itself. Where `*` meets a `*` of the
/// text it stands for just that byte.
pub open spec fn glob(pattern: Seq<u8>, text: Seq<u8>) -> bool
    decreases pattern.len(),
{
    if pattern.len() == 0 {
        text.len() == 0
    } else if text.len() > 0 && (pattern[0] == 63 || pattern[0] == text[0]) {
        glob(pattern.drop_first(), text.drop_first())
    } else if pattern[0] == 42 {
        exists|k: int| 0 <= k <= text.len() && glob(pattern.drop_first(), #[trigger] text.skip(k))
    } else {
        false
    }
}

/// A glob rule accepts `text`: one without wildcards wherever `text` contains
/// it, an empty one nowhere.
pub open spec fn glob_accepts(pattern: Seq<u8>, text: Seq<u8>) -> bool {
    if pattern.len() == 0 {
        false
    } else if !pattern.contains(42) && !pattern.contains(63) {
        contains_bytes(text, pattern)
    } else {
        glob(pattern, text)
    }
}

/// A glob rule accepts the path or its last name.
pub open spec fn rule_accepts(pattern: Seq<u8>, path: Seq<u8>, name: Seq<u8>) -> bool {
    glob_accepts(pattern, path) || glob_accepts(pattern, name)
}

/// One of the rules accepts the path or its last name.
pub open spec fn any_accepts(rules: Strings, path: Seq<u8>, name: Seq<u8>) -> bool {
    exists|i: int| 0 <= i < rules.len() && rule_accepts(#[trigger] rules[i], path, name)
}

/// The rules that say which files to take: those without a leading `!`.
pub open spec fn include_rules(globs: Strings) -> Strings
    decreases globs.len(),
{
    if globs.len() == 0 {
        globs
    } else {
        let init = include_rules(globs.drop_last());
        if globs.last().len() > 0 && globs.last()[0] == 33 {
            init
        } else {
            init.push(globs.last())
        }
    }
}

/// The rules that say which files to leave: those behind a leading `!`.
pub open spec fn exclude_rules(globs: Strings) -> Strings
    decreases globs.len(),
{
    if globs.len() == 0 {
        globs
    } else {
        let init = exclude_rules(globs.drop_last());
        if globs.last().len() > 0 && globs.last()[0] == 33 {
            init.push(globs.last().drop_first())
        } else {
            init
        }
    }
}

/// The rules as byte strings.
pub open spec fn glob_bytes(globs: Seq<String>) -> Strings {
    globs.map_values(|g: String| encode_utf8(g@))
}

/// `text` with backslashes made slashes.
pub open spec fn slashed(text: Seq<u8>) -> Seq<u8> {
    text.map_values(
        |b: u8|
            if b == 92 {
                47u8
            } else {
                b
            },
    )
}

/// The last name of a path as the rules see it: empty if it is not text.
pub open spec fn shown_name(path: Seq<u8>) -> Seq<u8> {
    if valid_utf8(base_name(path)) {
        base_name(path)
    } else {
        Seq::empty()
    }
}

/// The rules take the path: no rule excludes it, and one takes it unless all
/// of them are exclusions.
pub open spec fn globs_take(path: Seq<u8>, globs: Strings) -> bool {
    let text = slashed(lossy(path));
    let name = shown_name(path);
    &&& !any_accepts(exclude_rules(globs), text, name)
    &&& include_rules(globs).len() == 0 || any_accepts(include_rules(globs), text, name)
}

/// An entry is worth indexing.
pub open spec fn indexable(entry: WalkEntry, opts: WalkOptions) -> bool {
    let path = entry.path@;
    let name = shown_name(path);
    &&& entry.is_file
    &&& !has_ignored_part(path)
    &&& entry.len matches Some(n) ==> 0 < n <= opts.max_file_size
    &&& !(extension_of(base_name(path)) matches Some(ext) && binary_extension(ext))
    &&& opts.hidden || !(name.len() > 0 && name[0] == 46 && extension_of(base_name(path)) is None)
    &&& globs_take(path, glob_bytes(opts.globs@))
}

/// `s` from its first byte that is not a slash.
pub open spec fn without_slashes(s: Seq<u8>) -> Seq<u8>
    decreases s.len(),
{
    if s.len() > 0 && s[0] == 47 {
        without_slashes(s.drop_first())
    } else {
        s
    }
}

/// `path` seen from the directory `root` that it starts with.
pub open spec fn relative_to(path: Seq<u8>, root: Seq<u8>) -> Seq<u8> {
    if root.is_prefix_of(path) && (root.len() == 0 || root.len() == path.len() || root.last() == 47
        || path[root.len() as int] == 47) {
        without_slashes(path.skip(root.len() as int))
    } else {
        path
    }
}

/// The indexable files among the entries, relative to `root`, in walk order.
pub open spec fn kept(entries: Seq<WalkEntry>, root: Seq<u8>, opts: WalkOptions) -> Strings
    decreases entries.len(),
{
    if entries.len() == 0 {
        Seq::empty()
    } else {
        let init = kept(entries.drop_last(), root, opts);
        if indexable(entries.last(), opts) {
            init.push(relative_to(entries.last().path@, root))
        } else {
            init
        }
    }
}

/// The bytes of `pattern` from `a` to `p` match those of `text` from `o` on,
/// one for one.
spec fn aligned(pattern: Seq<u8>, text: Seq<u8>, a: int, p: int, o: int) -> bool {
    forall|j: int| a <= j < p ==> (#[trigger] pattern[j]) == 63 || pattern[j] == text[o + j - a]
}

/// `pattern` from `p` on matches `text` from some position at or behind `t`.
spec fn matches_behind(pattern: Seq<u8>, text: Seq<u8>, p: int, t: int) -> bool {
    exists|k: int| t <= k <= text.len() && glob(pattern.skip(p), #[trigger] text.skip(k))
}

proof fn lemma_skip(s: Seq<u8>, i: int)
    requires
        0 <= i < s.len(),
    ensures
        s.skip(i).len() > 0,
        s.skip(i)[0] == s[i],
        s.skip(i).drop_first() == s.skip(i + 1),
{
    assert(s.skip(i).drop_first() =~= s.skip(i + 1));
}

proof fn lemma_skip_skip(s: Seq<u8>, i: int, k: int)
    requires
        0 <= i,
        0 <= k,
        i + k <= s.len(),
    ensures
        s.skip(i).skip(k) == s.skip(i + k),
{
    assert(s.skip(i).skip(k) =~= s.skip(i + k));
}

/// A star at `p` that does not face a star of the text matches from any
/// position on.
proof fn lemma_glob_star(pattern: Seq<u8>, text: Seq<u8>, p: int, t: int)
    requires
        0 <= p < pattern.len(),
        0 <= t <= text.len(),
        pattern[p] == 42,
        t == text.len() || text[t] != 42,
    ensures
        glob(pattern.skip(p), text.skip(t)) <==> matches_behind(pattern, text, p + 1, t),
{
    lemma_skip(pattern, p);
    let (ps, ts) = (pattern.skip(p), text.skip(t));
    if t < text.len() {
        lemma_skip(text, t);
    }
    if glob(ps, ts) {
        let k = choose|k: int| 0 <= k <= ts.len() && glob(ps.drop_first(), #[trigger] ts.skip(k));
        lemma_skip_skip(text, t, k);
        assert(glob(pattern.skip(p + 1), text.skip(t + k)));
    }
    if matches_behind(pattern, text, p + 1, t) {
        let k = choose|k: int| t <= k <= text.len() && glob(pattern.skip(p + 1), #[trigger] text.skip(k));
        lemma_skip_skip(text, t, k - t);
        assert(glob(ps.drop_first(), ts.skip(k - t)));
    }
}

/// Whatever position a match starts from, it reaches `p` no earlier than an
/// alignment that starts no later does.
proof fn lemma_no_earlier(pattern: Seq<u8>, text: Seq<u8>, a: int, p: int, o: int, q: int)
    requires
        0 <= a <= p <= pattern.len(),
        0 <= o <= q <= text.len(),
        o + p - a <= text.len(),
        aligned(pattern, text, a, p, o),
        glob(pattern.skip(a), text.skip(q)),
    ensures
        matches_behind(pattern, text, p, o + p - a),
    decreases p - a,
{
    if a < p {
        lemma_skip(pattern, a);
        assert(pattern[a] == 63 || pattern[a] == text[o]);
        assert(aligned(pattern, text, a + 1, p, o + 1)) by {
            assert forall|j: int| a + 1 <= j < p implies (#[trigger] pattern[j]) == 63 || pattern[j] == text[o + 1 + j - (
            a + 1)] by {
                assert(pattern[j] == 63 || pattern[j] == text[o + j - a]);
            }
        }
        if q < text.len() && (pattern[a] == 63 || pattern[a] == text[q]) {
            lemma_skip(text, q);
            lemma_no_earlier(pattern, text, a + 1, p, o + 1, q + 1);
        } else if pattern[a] == 42 {
            lemma_glob_star(pattern, text, a, q);
            let k = choose|k: int| q <= k <= text.len() && glob(pattern.skip(a + 1), #[trigger] text.skip(k));
            assert(q > o);
            lemma_no_earlier(pattern, text, a + 1, p, o + 1, k);
        } else if q < text.len() {
            lemma_skip(text, q);
        }
    } else {
        assert(glob(pattern.skip(p), text.skip(q)));
    }
}

/// What is left of a pattern once the text is used up matches if it is all
/// stars.
proof fn lemma_glob_rest(pattern: Seq<u8>, text: Seq<u8>, p: int)
    requires
        0 <= p <= pattern.len(),
    ensures
        glob(pattern.skip(p), text.skip(text.len() as int)) <==> forall|j: int|
            p <= j < pattern.len() ==> pattern[j] == 42,
    decreases pattern.len() - p,
{
    let end = text.len() as int;
    assert(text.skip(end).len() == 0);
    if p < pattern.len() {
        lemma_skip(pattern, p);
        lemma_glob_rest(pattern, text, p + 1);
        if pattern[p] == 42 {
            lemma_glob_star(pattern, text, p, end);
            if glob(pattern.skip(p + 1), text.skip(end)) {
                assert(matches_behind(pattern, text, p + 1, end));
            }
        }
    }
}

/// What is known of the outcome of a glob match while the positions are `p` and
/// `t` and the last star is at `star`, tried last from `star_text`.
spec fn glob_state(pattern: Seq<u8>, text: Seq<u8>, p: int, t: int, star: Option<usize>, star_text: int) -> bool {
    &&& 0 <= p <= pattern.len()
    &&& 0 <= star_text <= t <= text.len()
    &&& match star {
        None => star_text == 0 && glob(pattern, text) == glob(pattern.skip(p), text.skip(t)),
        Some(at) => {
            &&& at < p
            &&& t - star_text == p - (at + 1)
            &&& aligned(pattern, text, at + 1, p, star_text)
            &&& glob(pattern, text) == matches_behind(pattern, text, at + 1, star_text)
            &&& glob(pattern.skip(at + 1), text.skip(star_text)) == glob(pattern.skip(p), text.skip(t))
        },
    }
}

/// Whether `pattern`, with `*` and `?` as wildcards, matches all of `text`.
pub fn glob_match_bytes(pattern: &[u8], text: &[u8]) -> (out: bool)
    ensures
        out == glob(pattern@, text@),
{
    let mut p: usize = 0;
    let mut t: usize = 0;
    let mut star: Option<usize> = None;
    let mut star_text: usize = 0;
    assert(pattern@.skip(0) =~= pattern@);
    assert(text@.skip(0) =~= text@);
    while t < text.len()
        invariant
            glob_state(pattern@, text@, p as int, t as int, star, star_text as int),
        decreases text@.len() - star_text, pattern@.len() - p,
    {
        proof {
            lemma_skip(text@, t as int);
            if p < pattern@.len() {
                lemma_skip(pattern@, p as int);
            }
        }
        if p < pattern.len() && (pattern[p] == 63 || pattern[p] == text[t]) {
            p += 1;
            t += 1;
        } else if p < pattern.len() && pattern[p] == 42 {
            proof {
                lemma_glob_star(pattern@, text@, p as int, t as int);
                if let Some(at) = star {
                    if matches_behind(pattern@, text@, at + 1, star_text as int) {
                        let k = choose|k: int|
                            star_text <= k <= text@.len() && glob(pattern@.skip(at + 1), #[trigger] text@.skip(k));
                        lemma_no_earlier(pattern@, text@, at + 1, p as int, star_text as int, k);
                        let q = choose|q: int|
                            t <= q <= text@.len() && glob(pattern@.skip(p as int), #[trigger] text@.skip(q));
                        if q < text@.len() && text@[q] == 42 {
                            lemma_skip(text@, q);
                            assert(glob(pattern@.skip(p + 1), text@.skip(q + 1)));
                        } else {
                            lemma_glob_star(pattern@, text@, p as int, q);
                            let r = choose|r: int|
                                q <= r <= text@.len() && glob(pattern@.skip(p + 1), #[trigger] text@.skip(r));
                            assert(glob(pattern@.skip(p + 1), text@.skip(r)));
                        }
                        assert(matches_behind(pattern@, text@, p + 1, t as int));
                    }
                    if matches_behind(pattern@, text@, p + 1, t as int) {
                        assert(glob(pattern@.skip(at + 1), text@.skip(star_text as int)));
                        assert(matches_behind(pattern@, text@, at + 1, star_text as int));
                    }
                }
            }
            star = Some(p);
            p += 1;
            star_text = t;
        } else if let Some(at) = star {
            proof {
                assert(!glob(pattern@.skip(p as int), text@.skip(t as int)));
                if matches_behind(pattern@, text@, at + 1, star_text as int) {
                    let k = choose|k: int|
                        star_text <= k <= text@.len() && glob(pattern@.skip(at + 1), #[trigger] text@.skip(k));
                    assert(k != star_text);
                    assert(matches_behind(pattern@, text@, at + 1, star_text + 1));
                }
                if matches_behind(pattern@, text@, at + 1, star_text + 1) {
                    let k = choose|k: int|
                        star_text + 1 <= k <= text@.len() && glob(pattern@.skip(at + 1), #[trigger] text@.skip(k));
                    assert(matches_behind(pattern@, text@, at + 1, star_text as int));
                }
            }
            p = at + 1;
            star_text += 1;
            t = star_text;
        } else {
            return false;
        }
    }
    proof {
        lemma_glob_rest(pattern@, text@, p as int);
        if let Some(at) = star {
            if matches_behind(pattern@, text@, at + 1, star_text as int) {
                let k = choose|k: int|
                    star_text <= k <= text@.len() && glob(pattern@.skip(at + 1), #[trigger] text@.skip(k));
                lemma_no_earlier(pattern@, text@, at + 1, p as int, star_text as int, k);
                let q = choose|q: int| t <= q <= text@.len() && glob(pattern@.skip(p as int), #[trigger] text@.skip(q));
                assert(q == t);
            } else {
                assert(!glob(pattern@.skip(at + 1), text@.skip(star_text as int)));
            }
        }
    }
    let ghost from = p;
    while p < pattern.len() && pattern[p] == 42
        invariant
            from <= p <= pattern@.len(),
            forall|j: int| from <= j < p ==> pattern@[j] == 42,
        decreases pattern@.len() - p,
    {
        p += 1;
    }
    p == pattern.len()
}

/// Whether `name` is `known`, up to the case of ASCII letters.
fn is_named(name: &[u8], known: &str) -> (out: bool)
    ensures
        out == names(name@, known@),
{
    let other = known.as_bytes();
    if name.len() != other.len() {
        assert(lower(name@).len() != lower(other@).len());
        return false;
    }
    let mut i: usize = 0;
    while i < name.len()
        invariant
            i <= name@.len() == other@.len(),
            other@ == encode_utf8(known@),
            forall|j: int| 0 <= j < i ==> lower(name@)[j] == lower(other@)[j],
        decreases name@.len() - i,
    {
        if lower_ascii(name[i]) != lower_ascii(other[i]) {
            assert(lower(name@)[i as int] != lower(other@)[i as int]);
            return false;
        }
        i += 1;
    }
    assert(lower(name@) =~= lower(other@));
    true
}

/// Whether an extension is never worth indexing.
fn is_binary_ext(ext: &[u8]) -> (out: bool)
    ensures
        out == binary_extension(ext@),
{
    is_named(ext, "png") || is_named(ext, "jpg") || is_named(ext, "jpeg") || is_named(ext, "gif")
        || is_named(ext, "bmp") || is_named(ext, "ico") || is_named(ext, "svg") || is_named(ext, "woff")
        || is_named(ext, "woff2") || is_named(ext, "ttf") || is_named(ext, "eot") || is_named(ext, "mp3")
        || is_named(ext, "mp4") || is_named(ext, "avi") || is_named(ext, "mov") || is_named(ext, "pdf")
        || is_named(ext, "zip") || is_named(ext, "tar") || is_named(ext, "gz") || is_named(ext, "bz2")
        || is_named(ext, "xz") || is_named(ext, "zst") || is_named(ext, "7z") || is_named(ext, "rar")
        || is_named(ext, "exe") || is_named(ext, "dll") || is_named(ext, "so") || is_named(ext, "dylib")
        || is_named(ext, "o") || is_named(ext, "a") || is_named(ext, "beam") || is_named(ext, "class")
        || is_named(ext, "jar") || is_named(ext, "war") || is_named(ext, "pyc") || is_named(ext, "pyo")
        || is_named(ext, "lock")
}

/// Whether a directory of that name is always skipped.
fn is_ignored_name(name: &[u8]) -> (out: bool)
    ensures
        out == ignored_name(name@),
{
    bytes_equal(name, ".git".as_bytes()) || bytes_equal(name, "node_modules".as_bytes()) || bytes_equal(
        name,
        ".instantgrep".as_bytes(),
    ) || bytes_equal(name, "target".as_bytes())
}

/// Whether a part of the path names a directory that is always skipped.
fn ignored_dir_component(path: &[u8]) -> (out: bool)
    ensures
        out == has_ignored_part(path@),
{
    let mut start: usize = 0;
    let mut i: usize = 0;
    loop
        invariant_except_break
            start <= i <= path@.len(),
            start == 0 || path@[start - 1] == 47,
            forall|j: int| start <= j < i ==> path@[j] != 47,
            forall|a: int, b: int| #[trigger] is_part(path@, a, b) && b < start ==> !ignored_name(path@.subrange(a, b)),
        ensures
            !has_ignored_part(path@),
        decreases path@.len() - i,
    {
        if i == path.len() || path[i] == 47 {
            assert(is_part(path@, start as int, i as int));
            if is_ignored_name(slice_subrange(path, start, i)) {
                return true;
            }
            assert forall|a: int, b: int| #[trigger] is_part(path@, a, b) && b <= i implies !ignored_name(
                path@.subrange(a, b),
            ) by {
                if b >= start {
                    if b < i {
                        assert(path@[b] == 47);
                    }
                    if a < start {
                        assert(path@[start - 1] == 47);
                    } else if a > start {
                        assert(path@[a - 1] == 47);
                    }
                }
            }
            if i == path.len() {
                break;
            }
            start = i + 1;
        }
        i += 1;
    }
    false
}

/// The last name of a path.
fn file_name(path: &[u8]) -> (out: &[u8])
    ensures
        out@ == base_name(path@),
{
    let mut i: usize = path.len();
    assert(path@.take(i as int) =~= path@);
    while i > 0 && path[i - 1] != 47
        invariant
            i <= path@.len(),
            name_start(path@.take(i as int)) == name_start(path@),
        decreases i,
    {
        assert(path@.take(i as int).drop_last() =~= path@.take(i - 1));
        i -= 1;
    }
    assert(name_start(path@.take(i as int)) == i);
    assert(path@.subrange(i as int, path@.len() as int) =~= path@.skip(i as int));
    slice_subrange(path, i, path.len())
}

/// What stands behind the last dot of a name, if something stands before it.
fn extension(name: &[u8]) -> (out: Option<&[u8]>)
    ensures
        out is Some <==> extension_of(name@) is Some,
        out matches Some(ext) ==> extension_of(name@) == Some(ext@),
{
    let mut i: usize = name.len();
    assert(name@.take(i as int) =~= name@);
    while i > 0 && name[i - 1] != 46
        invariant
            i <= name@.len(),
            last_dot(name@.take(i as int)) == last_dot(name@),
        decreases i,
    {
        assert(name@.take(i as int).drop_last() =~= name@.take(i - 1));
        i -= 1;
    }
    assert(last_dot(name@) == i - 1);
    if i <= 1 {
        return None;
    }
    if name.len() == 2 && name[0] == 46 && name[1] == 46 {
        assert(name@ =~= seq![46u8, 46u8]);
        return None;
    }
    assert(name@ != seq![46u8, 46u8]);
    assert(name@.subrange(i as int, name@.len() as int) =~= name@.skip(i as int));
    Some(slice_subrange(name, i, name.len()))
}

/// Whether `bytes` contain the byte `b`.
fn has_byte(bytes: &[u8], b: u8) -> (out: bool)
    ensures
        out == bytes@.contains(b),
{
    let mut i: usize = 0;
    while i < bytes.len()
        invariant
            i <= bytes@.len(),
            forall|j: int| 0 <= j < i ==> bytes@[j] != b,
        decreases bytes@.len() - i,
    {
        if bytes[i] == b {
            assert(bytes@[i as int] == b);
            return true;
        }
        i += 1;
    }
    false
}

/// Whether `text` contains `part`.
fn has_bytes(text: &[u8], part: &[u8]) -> (out: bool)
    ensures
        out == contains_bytes(text@, part@),
{
    if part.len() > text.len() {
        return false;
    }
    let mut i: usize = 0;
    while i <= text.len() - part.len()
        invariant
            part@.len() <= text@.len(),
            i <= text@.len() - part@.len() + 1,
            forall|j: int| 0 <= j < i ==> #[trigger] text@.subrange(j, j + part@.len()) != part@,
        decreases text@.len() - i,
    {
        if bytes_equal(slice_subrange(text, i, i + part.len()), part) {
            assert(text@.subrange(i as int, i + part@.len()) == part@);
            return true;
        }
        if i == text.len() - part.len() {
            return false;
        }
        i += 1;
    }
    false
}

/// Whether a glob rule accepts `text`.
fn glob_rule(pattern: &[u8], text: &[u8]) -> (out: bool)
    ensures
        out == glob_accepts(pattern@, text@),
{
    if pattern.len() == 0 {
        return false;
    }
    if !has_byte(pattern, 42) && !has_byte(pattern, 63) {
        return has_bytes(text, pattern);
    }
    glob_match_bytes(pattern, text)
}

/// Whether a glob rule accepts `text`: one without wildcards wherever `text`
/// contains it, an empty one nowhere.
pub fn glob_match(pattern: &str, text: &str) -> (out: bool)
    ensures
        out == glob_accepts(encode_utf8(pattern@), encode_utf8(text@)),
{
    glob_rule(pattern.as_bytes(), text.as_bytes())
}

/// Split `--glob` rules into include patterns and `!`-prefixed excludes.
pub fn split_globs(globs: &Vec<String>) -> (out: (Vec<Vec<u8>>, Vec<Vec<u8>>))
    ensures
        strings_of(out.0@) == include_rules(glob_bytes(globs@)),
        strings_of(out.1@) == exclude_rules(glob_bytes(globs@)),
{
    let mut includes: Vec<Vec<u8>> = Vec::new();
    let mut excludes: Vec<Vec<u8>> = Vec::new();
    let ghost all = glob_bytes(globs@);
    let mut i: usize = 0;
    proof {
        assert(strings_of(includes@) =~= include_rules(all.take(0)));
        assert(strings_of(excludes@) =~= exclude_rules(all.take(0)));
    }
    while i < globs.len()
        invariant
            i <= globs@.len(),
            all == glob_bytes(globs@),
            strings_of(includes@) == include_rules(all.take(i as int)),
            strings_of(excludes@) == exclude_rules(all.take(i as int)),
        decreases globs@.len() - i,
    {
        let ghost (inc, exc) = (strings_of(includes@), strings_of(excludes@));
        let rule = globs[i].as_str().as_bytes();
        assert(all.take(i + 1).drop_last() =~= all.take(i as int));
        assert(all.take(i + 1).last() == rule@);
        if rule.len() > 0 && rule[0] == 33 {
            excludes.push(copy_bytes(slice_subrange(rule, 1, rule.len())));
            assert(rule@.subrange(1, rule@.len() as int) =~= rule@.drop_first());
            assert(strings_of(excludes@) =~= exc.push(rule@.drop_first()));
        } else {
            includes.push(copy_bytes(rule));
            assert(strings_of(includes@) =~= inc.push(rule@));
        }
        i += 1;
    }
    assert(all.take(i as int) =~= all);
    (includes, excludes)
}

/// Whether one of the rules accepts the path or its last name.
fn any_rule(rules: &Vec<Vec<u8>>, path: &[u8], name: &[u8]) -> (out: bool)
    ensures
        out == any_accepts(strings_of(rules@), path@, name@),
{
    let ghost all = strings_of(rules@);
    let mut i: usize = 0;
    while i < rules.len()
        invariant
            i <= rules@.len(),
            all == strings_of(rules@),
            forall|j: int| 0 <= j < i ==> !rule_accepts(#[trigger] all[j], path@, name@),
        decreases rules@.len() - i,
    {
        if glob_rule(&rules[i], path) || glob_rule(&rules[i], name) {
            assert(rule_accepts(all[i as int], path@, name@));
            return true;
        }
        i += 1;
    }
    false
}

/// The path as the rules see it: as text, with `/` between the names.
fn slashed_text(path: &[u8]) -> (out: Vec<u8>)
    ensures
        out@ == slashed(lossy(path@)),
{
    let mut text: Vec<u8> = Vec::new();
    push_lossy(&mut text, path);
    assert(text@ =~= lossy(path@));
    let mut out: Vec<u8> = Vec::with_capacity(text.len());
    let mut i: usize = 0;
    while i < text.len()
        invariant
            i <= text@.len(),
            out@ =~= slashed(text@).take(i as int),
        decreases text@.len() - i,
    {
        let b = text[i];
        out.push(
            if b == 92 {
                47
            } else {
                b
            },
        );
        i += 1;
    }
    assert(out@ =~= slashed(text@));
    out
}

/// Whether an entry is worth indexing, given the split `--glob` rules.
fn is_indexable(entry: &WalkEntry, opts: &WalkOptions, includes: &Vec<Vec<u8>>, excludes: &Vec<Vec<u8>>) -> (out: bool)
    requires
        strings_of(includes@) == include_rules(glob_bytes(opts.globs@)),
        strings_of(excludes@) == exclude_rules(glob_bytes(opts.globs@)),
    ensures
        out == indexable(*entry, *opts),
{
    if !entry.is_file || ignored_dir_component(&entry.path) {
        return false;
    }
    if let Some(n) = entry.len {
        if n == 0 || n > opts.max_file_size {
            return false;
        }
    }
    let file = file_name(&entry.path);
    let ext = extension(file);
    if let Some(e) = ext {
        if is_binary_ext(e) {
            return false;
        }
    }
    let name: &[u8] = if as_text(file).is_some() {
        file
    } else {
        slice_subrange(file, 0, 0)
    };
    assert(name@ =~= shown_name(entry.path@));
    if !opts.hidden && name.len() > 0 && name[0] == 46 && ext.is_none() {
        return false;
    }
    let path = slashed_text(&entry.path);
    if any_rule(excludes, &path, name) {
        return false;
    }
    assert(strings_of(includes@).len() == includes@.len());
    includes.len() == 0 || any_rule(includes, &path, name)
}

/// `path` seen from the directory `root` that it starts with.
fn strip_root(path: &[u8], root: &[u8]) -> (out: Vec<u8>)
    ensures
        out@ == relative_to(path@, root@),
{
    if starts_with(path, root) && (root.len() == 0 || root.len() == path.len() || root[root.len() - 1] == 47
        || path[root.len()] == 47) {
        let mut i: usize = root.len();
        while i < path.len() && path[i] == 47
            invariant
                root@.len() <= i <= path@.len(),
                without_slashes(path@.skip(i as int)) == without_slashes(path@.skip(root@.len() as int)),
            decreases path@.len() - i,
        {
            assert(path@.skip(i as int).drop_first() =~= path@.skip(i + 1));
            i += 1;
        }
        assert(path@.subrange(i as int, path@.len() as int) =~= path@.skip(i as int));
        copy_bytes(slice_subrange(path, i, path.len()))
    } else {
        copy_bytes(path)
    }
}

/// `a` and `b` agree up to `k`, where `a` ends or its next name or byte comes
/// first: the separator of names comes before every byte of a name.
pub open spec fn path_differs_at(a: Seq<u8>, b: Seq<u8>, k: int) -> bool {
    &&& 0 <= k <= a.len()
    &&& k < b.len()
    &&& forall|j: int| 0 <= j < k ==> a[j] == b[j]
    &&& k < a.len() ==> b[k] != 47 && (a[k] == 47 || a[k] < b[k])
}

/// Path `a` comes before path `b`, comparing name by name.
pub open spec fn path_less(a: Seq<u8>, b: Seq<u8>) -> bool {
    exists|k: int| #[trigger] path_differs_at(a, b, k)
}

proof fn lemma_paths_differ(a: Seq<u8>, b: Seq<u8>, k: int)
    requires
        0 <= k <= a.len(),
        k <= b.len(),
        forall|j: int| 0 <= j < k ==> a[j] == b[j],
        a != b,
    ensures
        path_less(a, b) || path_less(b, a),
    decreases a.len() - k,
{
    if k == a.len() {
        if k == b.len() {
            assert(a =~= b);
        }
        assert(path_differs_at(a, b, k));
    } else if k == b.len() {
        assert(path_differs_at(b, a, k));
    } else if a[k] == b[k] {
        lemma_paths_differ(a, b, k + 1);
    } else if b[k] != 47 && (a[k] == 47 || a[k] < b[k]) {
        assert(path_differs_at(a, b, k));
    } else {
        assert(path_differs_at(b, a, k));
    }
}

/// The order of paths is a strict total order.
pub proof fn path_order_is_total(a: Seq<u8>, b: Seq<u8>, c: Seq<u8>)
    ensures
        !path_less(a, a),
        a == b || path_less(a, b) || path_less(b, a),
        !(path_less(a, b) && path_less(b, a)),
        path_less(a, b) && path_less(b, c) ==> path_less(a, c),
{
    if a != b {
        lemma_paths_differ(a, b, 0);
    }
    if path_less(a, b) && path_less(b, a) {
        let k = choose|k: int| #[trigger] path_differs_at(a, b, k);
        let l = choose|l: int| #[trigger] path_differs_at(b, a, l);
        assert(k == l);
    }
    if path_less(a, b) && path_less(b, c) {
        let k = choose|k: int| #[trigger] path_differs_at(a, b, k);
        let l = choose|l: int| #[trigger] path_differs_at(b, c, l);
        if k <= l {
            assert(path_differs_at(a, c, k));
        } else {
            assert(path_differs_at(a, c, l));
        }
    }
}

impl Ranked for Vec<u8> {
    open spec fn at_most(self, other: Vec<u8>) -> bool {
        self@ == other@ || path_less(self@, other@)
    }

    proof fn at_most_is_total(a: Vec<u8>, b: Vec<u8>) {
        path_order_is_total(a@, b@, a@);
    }

    proof fn at_most_is_transitive(a: Vec<u8>, b: Vec<u8>, c: Vec<u8>) {
        path_order_is_total(a@, b@, c@);
    }

    fn is_at_most(&self, other: &Vec<u8>) -> (out: bool) {
        let mut i: usize = 0;
        while i < self.len() && i < other.len() && self[i] == other[i]
            invariant
                i <= self@.len(),
                i <= other@.len(),
                forall|j: int| 0 <= j < i ==> self@[j] == other@[j],
            decreases self@.len() - i,
        {
            i += 1;
        }
        proof {
            path_order_is_total(self@, other@, self@);
        }
        if i == self.len() {
            if i == other.len() {
                assert(self@ =~= other@);
            } else {
                assert(path_differs_at(self@, other@, i as int));
            }
            return true;
        }
        if i == other.len() {
            assert(path_differs_at(other@, self@, i as int));
            return false;
        }
        if other[i] != 47 && (self[i] == 47 || self[i] < other[i]) {
            assert(path_differs_at(self@, other@, i as int));
            true
        } else {
            assert(path_differs_at(other@, self@, i as int));
            false
        }
    }
}

/// The indexable files that a walk of `root` reports, as paths relative to
/// `root`, sorted for deterministic output.
pub fn scan(entries: &[WalkEntry], root: &[u8], opts: &WalkOptions) -> (files: Vec<Vec<u8>>)
    ensures
        sorted(files@),
        strings_of(files@).to_multiset() == kept(entries@, root@, *opts).to_multiset(),
{
    let (includes, excludes) = split_globs(&opts.globs);
    let mut files: Vec<Vec<u8>> = Vec::new();
    let mut i: usize = 0;
    assert(strings_of(files@) =~= kept(entries@.take(0), root@, *opts));
    while i < entries.len()
        invariant
            i <= entries@.len(),
            strings_of(includes@) == include_rules(glob_bytes(opts.globs@)),
            strings_of(excludes@) == exclude_rules(glob_bytes(opts.globs@)),
            strings_of(files@) == kept(entries@.take(i as int), root@, *opts),
        decreases entries@.len() - i,
    {
        let ghost before = strings_of(files@);
        let entry = &entries[i];
        assert(entries@.take(i + 1).drop_last() =~= entries@.take(i as int));
        assert(entries@.take(i + 1).last() == *entry);
        if is_indexable(entry, opts, &includes, &excludes) {
            let rel = strip_root(&entry.path, root);
            files.push(rel);
            assert(strings_of(files@) =~= before.push(rel@));
        }
        i += 1;
    }
    assert(entries@.take(i as int) =~= entries@);
    let ghost unsorted = files@;
    let files = merge_sort(files);
    proof {
        lemma_strings_multiset(files@, unsorted);
    }
    files
}

/// Vectors with the same multiset hold the same strings as often.
proof fn lemma_strings_multiset(a: Seq<Vec<u8>>, b: Seq<Vec<u8>>)
    requires
        a.to_multiset() == b.to_multiset(),
    ensures
        strings_of(a).to_multiset() == strings_of(b).to_multiset(),
    decreases a.len(),
{
    broadcast use vstd::seq_lib::group_to_multiset_ensures;

    a.to_multiset_ensures();
    b.to_multiset_ensures();
    if a.len() == 0 {
        assert(strings_of(a) =~= strings_of(b));
    } else {
        let x = a.last();
        assert(a.to_multiset().count(x) > 0) by {
            assert(a.contains(x));
        }
        assert(b.contains(x));
        let i = choose|i: int| 0 <= i < b.len() && b[i] == x;
        assert(a.drop_last() =~= a.remove(a.len() - 1));
        lemma_strings_multiset(a.drop_last(), b.remove(i));
        let (sa, sb) = (strings_of(a), strings_of(b));
        sa.to_multiset_ensures();
        sb.to_multiset_ensures();
        assert(strings_of(a.drop_last()) =~= sa.remove(sa.len() - 1));
        assert(strings_of(b.remove(i)) =~= sb.remove(i));
        assert(sa.to_multiset().remove(x@).insert(x@) =~= sa.to_multiset()) by {
            assert(sa.contains(sa[sa.len() - 1]));
        }
        assert(sb.to_multiset().remove(x@).insert(x@) =~= sb.to_multiset()) by {
            assert(sb.contains(sb[i]));
        }
    }
}

/// What the entries say, one by one: path, whether it is a file, size.
pub open spec fn reported(entries: Seq<WalkEntry>) -> Seq<(Seq<u8>, bool, Option<u64>)> {
    entries.map_values(|entry: WalkEntry| (entry.path@, entry.is_file, entry.len))
}

/// What leaving out one entry does to the files that are kept.
proof fn lemma_kept_remove(entries: Seq<WalkEntry>, i: int, root: Seq<u8>, opts: WalkOptions)
    requires
        0 <= i < entries.len(),
    ensures
        kept(entries, root, opts).to_multiset() == if indexable(entries[i], opts) {
            kept(entries.remove(i), root, opts).to_multiset().insert(relative_to(entries[i].path@, root))
        } else {
            kept(entries.remove(i), root, opts).to_multiset()
        },
    decreases entries.len(),
{
    broadcast use vstd::seq_lib::group_to_multiset_ensures;

    let init = entries.drop_last();
    let last = entries.last();
    if i == init.len() {
        assert(entries.remove(i) =~= init);
    } else {
        lemma_kept_remove(init, i, root, opts);
        let rest = entries.remove(i);
        assert(rest.drop_last() =~= init.remove(i));
        assert(rest.last() == last);
        assert(init[i] == entries[i]);
        if indexable(last, opts) && indexable(entries[i], opts) {
            let base = kept(init.remove(i), root, opts).to_multiset();
            let x = relative_to(entries[i].path@, root);
            let y = relative_to(last.path@, root);
            assert(base.insert(x).insert(y) =~= base.insert(y).insert(x));
        }
    }
}

/// Entries that say the same, in any order, lead to the same files as often.
proof fn lemma_kept_in_any_order(a: Seq<WalkEntry>, b: Seq<WalkEntry>, root: Seq<u8>, opts: WalkOptions)
    requires
        reported(a).to_multiset() == reported(b).to_multiset(),
    ensures
        kept(a, root, opts).to_multiset() == kept(b, root, opts).to_multiset(),
    decreases a.len(),
{
    broadcast use vstd::seq_lib::group_to_multiset_ensures;

    let (ra, rb) = (reported(a), reported(b));
    ra.to_multiset_ensures();
    rb.to_multiset_ensures();
    assert(ra.len() == rb.len());
    if a.len() == 0 {
        assert(a =~= b);
    } else {
        let x = ra.last();
        assert(ra.to_multiset().count(x) > 0) by {
            assert(ra.contains(x));
        }
        assert(rb.contains(x));
        let i = choose|i: int| 0 <= i < rb.len() && rb[i] == x;
        let (less, fewer) = (a.drop_last(), b.remove(i));
        assert(reported(less) =~= ra.remove(ra.len() - 1));
        assert(reported(fewer) =~= rb.remove(i));
        lemma_kept_in_any_order(less, fewer, root, opts);
        lemma_kept_remove(b, i, root, opts);
        assert(indexable(a.last(), opts) == indexable(b[i], opts));
    }
}

/// In two ascending lists of the same strings, the strings come alike.
proof fn lemma_one_ascending_order(a: Strings, b: Strings)
    requires
        a.to_multiset() == b.to_multiset(),
        forall|i: int, j: int| 0 <= i < j < a.len() ==> (#[trigger] a[i]) == (#[trigger] a[j]) || path_less(a[i], a[j]),
        forall|i: int, j: int| 0 <= i < j < b.len() ==> (#[trigger] b[i]) == (#[trigger] b[j]) || path_less(b[i], b[j]),
    ensures
        a == b,
    decreases a.len(),
{
    broadcast use vstd::seq_lib::group_to_multiset_ensures;

    a.to_multiset_ensures();
    b.to_multiset_ensures();
    if a.len() == 0 {
        assert(a =~= b);
    } else {
        assert(b.contains(a[0])) by {
            assert(a.contains(a[0]));
            assert(a.to_multiset().count(a[0]) > 0);
        }
        assert(a.contains(b[0])) by {
            assert(b.contains(b[0]));
            assert(b.to_multiset().count(b[0]) > 0);
        }
        let i = choose|i: int| 0 <= i < b.len() && b[i] == a[0];
        let j = choose|j: int| 0 <= j < a.len() && a[j] == b[0];
        path_order_is_total(a[0], b[0], a[0]);
        assert(a[0] == b[0]);
        let (c, d) = (a.remove(0), b.remove(0));
        assert(c.to_multiset() =~= d.to_multiset());
        lemma_one_ascending_order(c, d);
        assert(a =~= seq![a[0]] + c);
        assert(b =~= seq![b[0]] + d);
    }
}

/// The order in which a walk reports its entries does not show: what is found
/// of two walks that report the same entries is the same, in the same order.
pub proof fn listing_order_does_not_show(
    files: Seq<Vec<u8>>,
    again: Seq<Vec<u8>>,
    entries: Seq<WalkEntry>,
    others: Seq<WalkEntry>,
    root: Seq<u8>,
    opts: WalkOptions,
)
    requires
        sorted(files),
        strings_of(files).to_multiset() == kept(entries, root, opts).to_multiset(),
        sorted(again),
        strings_of(again).to_multiset() == kept(others, root, opts).to_multiset(),
        reported(entries).to_multiset() == reported(others).to_multiset(),
    ensures
        strings_of(files) == strings_of(again),
{
    lemma_kept_in_any_order(entries, others, root, opts);
    lemma_sorted_strings(files);
    lemma_sorted_strings(again);
    lemma_one_ascending_order(strings_of(files), strings_of(again));
}

/// Sorted vectors hold ascending strings.
proof fn lemma_sorted_strings(files: Seq<Vec<u8>>)
    requires
        sorted(files),
    ensures
        forall|i: int, j: int|
            0 <= i < j < files.len() ==> (#[trigger] strings_of(files)[i]) == (#[trigger] strings_of(files)[j])
                || path_less(strings_of(files)[i], strings_of(files)[j]),
{
    assert forall|i: int, j: int| 0 <= i < j < files.len() implies (#[trigger] strings_of(files)[i])
        == (#[trigger] strings_of(files)[j]) || path_less(strings_of(files)[i], strings_of(files)[j]) by {
        assert(Vec::<u8>::at_most(files[i], files[j]));
    }
}

/// A path is that of `rel` in the directory `root`.
pub open spec fn lies_under(path: Seq<u8>, root: Seq<u8>, rel: Seq<u8>) -> bool {
    rel.len() > 0 && rel[0] != 47 && path == joined(root, rel)
}

/// The entries are what a walk of the directory `root` reports: each once, and
/// files that lie under it.
pub open spec fn walked(entries: Seq<WalkEntry>, root: Seq<u8>) -> bool {
    &&& forall|i: int|
        0 <= i < entries.len() && (#[trigger] entries[i]).is_file ==> exists|rel: Seq<u8>| #[trigger]
            lies_under(entries[i].path@, root, rel)
    &&& forall|i: int, j: int|
        0 <= i < j < entries.len() ==> (#[trigger] entries[i]).path@ != (#[trigger] entries[j]).path@
}

/// One of the entries is a file with this path.
pub open spec fn is_reported_file(entries: Seq<WalkEntry>, path: Seq<u8>) -> bool {
    exists|i: int| 0 <= i < entries.len() && (#[trigger] entries[i]).is_file && entries[i].path@ == path
}

/// Seen from `root`, a path in it is the rest.
proof fn lemma_relative(path: Seq<u8>, root: Seq<u8>, rel: Seq<u8>)
    requires
        lies_under(path, root, rel),
    ensures
        relative_to(path, root) == rel,
{
    let rest = path.skip(root.len() as int);
    assert(root.is_prefix_of(path)) by {
        assert(path.take(root.len() as int) =~= root);
    }
    if root.len() == 0 || root.last() == 47 {
        assert(rest =~= rel);
    } else {
        assert(path[root.len() as int] == 47);
        assert(rest.drop_first() =~= rel);
        assert(without_slashes(rest) == without_slashes(rel));
    }
}

/// A file that is kept was reported.
proof fn lemma_kept_reported(entries: Seq<WalkEntry>, root: Seq<u8>, opts: WalkOptions, rel: Seq<u8>)
    requires
        kept(entries, root, opts).contains(rel),
    ensures
        exists|i: int|
            0 <= i < entries.len() && (#[trigger] entries[i]).is_file && relative_to(entries[i].path@, root) == rel,
    decreases entries.len(),
{
    let last = entries.len() - 1;
    if indexable(entries.last(), opts) && relative_to(entries.last().path@, root) == rel {
        assert(entries[last].is_file);
    } else {
        let init = entries.drop_last();
        assert(kept(init, root, opts).contains(rel));
        lemma_kept_reported(init, root, opts, rel);
        let i = choose|i: int|
            0 <= i < init.len() && (#[trigger] init[i]).is_file && relative_to(init[i].path@, root) == rel;
        assert(entries[i] == init[i]);
    }
}

/// No file is kept twice.
proof fn lemma_kept_once(entries: Seq<WalkEntry>, root: Seq<u8>, opts: WalkOptions)
    requires
        walked(entries, root),
    ensures
        kept(entries, root, opts).no_duplicates(),
    decreases entries.len(),
{
    if entries.len() > 0 {
        let init = entries.drop_last();
        let last = entries.len() - 1;
        assert(walked(init, root)) by {
            assert forall|i: int| 0 <= i < init.len() && (#[trigger] init[i]).is_file implies exists|rel: Seq<u8>|
                #[trigger] lies_under(init[i].path@, root, rel) by {
                assert(init[i] == entries[i]);
            }
        }
        lemma_kept_once(init, root, opts);
        let rel = relative_to(entries.last().path@, root);
        if indexable(entries.last(), opts) && kept(init, root, opts).contains(rel) {
            lemma_kept_reported(init, root, opts, rel);
            let i = choose|i: int|
                0 <= i < init.len() && (#[trigger] init[i]).is_file && relative_to(init[i].path@, root) == rel;
            assert(init[i] == entries[i] && entries[i].is_file && entries[last].is_file);
            let a = choose|rel: Seq<u8>| #[trigger] lies_under(entries[i].path@, root, rel);
            let b = choose|rel: Seq<u8>| #[trigger] lies_under(entries[last].path@, root, rel);
            lemma_relative(entries[i].path@, root, a);
            lemma_relative(entries[last].path@, root, b);
            assert(entries[i].path@ == entries[last].path@);
        }
    }
}

/// What is found of a walk of a directory comes in strictly ascending order, and
/// each path is that of a file that the walk reported, seen from the directory.
pub proof fn found_files_ascend(files: Seq<Vec<u8>>, entries: Seq<WalkEntry>, root: Seq<u8>, opts: WalkOptions)
    requires
        sorted(files),
        strings_of(files).to_multiset() == kept(entries, root, opts).to_multiset(),
        walked(entries, root),
    ensures
        forall|i: int, j: int| 0 <= i < j < files.len() ==> path_less((#[trigger] files[i])@, (#[trigger] files[j])@),
        forall|k: int| 0 <= k < files.len() ==> is_reported_file(entries, joined(root, (#[trigger] files[k])@)),
{
    lemma_kept_once(entries, root, opts);
    let (paths, wanted) = (strings_of(files), kept(entries, root, opts));
    wanted.lemma_multiset_has_no_duplicates();
    paths.lemma_multiset_has_no_duplicates_conv();
    lemma_sorted_strings(files);
    assert forall|i: int, j: int| 0 <= i < j < files.len() implies path_less(
        (#[trigger] files[i])@,
        (#[trigger] files[j])@,
    ) by {
        assert(paths[i] != paths[j]);
    }
    assert forall|k: int| 0 <= k < files.len() implies is_reported_file(
        entries,
        joined(root, (#[trigger] files[k])@),
    ) by {
        paths.to_multiset_ensures();
        wanted.to_multiset_ensures();
        assert(paths[k] == files[k]@);
        assert(paths.contains(paths[k]));
        assert(paths.to_multiset().count(paths[k]) > 0);
        assert(wanted.contains(paths[k]));
        lemma_kept_reported(entries, root, opts, paths[k]);
        let i = choose|i: int|
            0 <= i < entries.len() && (#[trigger] entries[i]).is_file && relative_to(entries[i].path@, root) == paths[k];
        let rel = choose|rel: Seq<u8>| #[trigger] lies_under(entries[i].path@, root, rel);
        lemma_relative(entries[i].path@, root, rel);
        assert(entries[i].is_file && entries[i].path@ == joined(root, files[k]@));
    }
}

/// A rule that starts with `!` says which files to leave.
pub open spec fn excludes(rule: Seq<u8>) -> bool {
    rule.len() > 0 && rule[0] == 33
}

proof fn lemma_rules(globs: Strings, text: Seq<u8>, name: Seq<u8>)
    ensures
        any_accepts(exclude_rules(globs), text, name) <==> exists|i: int|
            0 <= i < globs.len() && excludes(#[trigger] globs[i]) && rule_accepts(globs[i].drop_first(), text, name),
        any_accepts(include_rules(globs), text, name) <==> exists|i: int|
            0 <= i < globs.len() && !excludes(#[trigger] globs[i]) && rule_accepts(globs[i], text, name),
        include_rules(globs).len() == 0 <==> forall|i: int| 0 <= i < globs.len() ==> excludes(#[trigger] globs[i]),
    decreases globs.len(),
{
    if globs.len() > 0 {
        let init = globs.drop_last();
        let last = globs[globs.len() - 1];
        lemma_rules(init, text, name);
        assert forall|i: int| 0 <= i < init.len() implies #[trigger] init[i] == globs[i] by {}
        let (inc, exc) = (include_rules(init), exclude_rules(init));
        if excludes(last) {
            let more = exc.push(last.drop_first());
            assert(exclude_rules(globs) == more);
            assert(more[exc.len() as int] == last.drop_first());
            assert forall|i: int| 0 <= i < exc.len() implies #[trigger] more[i] == exc[i] by {}
            if any_accepts(exc, text, name) {
                let i = choose|i: int| 0 <= i < exc.len() && rule_accepts(#[trigger] exc[i], text, name);
                assert(rule_accepts(more[i], text, name));
            }
            if any_accepts(more, text, name) {
                let i = choose|i: int| 0 <= i < more.len() && rule_accepts(#[trigger] more[i], text, name);
                if i < exc.len() {
                    assert(rule_accepts(exc[i], text, name));
                }
            }
        } else {
            let more = inc.push(last);
            assert(include_rules(globs) == more);
            assert(more[inc.len() as int] == last);
            assert forall|i: int| 0 <= i < inc.len() implies #[trigger] more[i] == inc[i] by {}
            if any_accepts(inc, text, name) {
                let i = choose|i: int| 0 <= i < inc.len() && rule_accepts(#[trigger] inc[i], text, name);
                assert(rule_accepts(more[i], text, name));
            }
            if any_accepts(more, text, name) {
                let i = choose|i: int| 0 <= i < more.len() && rule_accepts(#[trigger] more[i], text, name);
                if i < inc.len() {
                    assert(rule_accepts(inc[i], text, name));
                }
            }
        }
        if exists|i: int|
            0 <= i < init.len() && excludes(#[trigger] init[i]) && rule_accepts(init[i].drop_first(), text, name) {
            let i = choose|i: int|
                0 <= i < init.len() && excludes(#[trigger] init[i]) && rule_accepts(init[i].drop_first(), text, name);
            assert(excludes(globs[i]));
        }
        if exists|i: int| 0 <= i < init.len() && !excludes(#[trigger] init[i]) && rule_accepts(init[i], text, name) {
            let i = choose|i: int|
                0 <= i < init.len() && !excludes(#[trigger] init[i]) && rule_accepts(init[i], text, name);
            assert(!excludes(globs[i]));
        }
        if exists|i: int|
            0 <= i < globs.len() && excludes(#[trigger] globs[i]) && rule_accepts(globs[i].drop_first(), text, name) {
            let i = choose|i: int|
                0 <= i < globs.len() && excludes(#[trigger] globs[i]) && rule_accepts(globs[i].drop_first(), text, name);
            if i < init.len() {
                assert(excludes(init[i]));
            }
        }
        if exists|i: int| 0 <= i < globs.len() && !excludes(#[trigger] globs[i]) && rule_accepts(globs[i], text, name) {
            let i = choose|i: int|
                0 <= i < globs.len() && !excludes(#[trigger] globs[i]) && rule_accepts(globs[i], text, name);
            if i < init.len() {
                assert(!excludes(init[i]));
            }
        }
        if forall|i: int| 0 <= i < globs.len() ==> excludes(#[trigger] globs[i]) {
            assert(excludes(globs[globs.len() - 1]));
            assert forall|i: int| 0 <= i < init.len() implies excludes(#[trigger] init[i]) by {
                assert(excludes(globs[i]));
            }
        }
        if include_rules(globs).len() == 0 {
            assert forall|i: int| 0 <= i < globs.len() implies excludes(#[trigger] globs[i]) by {
                if i < init.len() {
                    assert(excludes(init[i]));
                }
            }
        }
    }
}

/// Every rule counts: a path is taken if no rule with a leading `!` accepts it or
/// its last name without that mark, and some other rule does, unless all rules
/// have the mark.
pub proof fn every_glob_rule_counts(path: Seq<u8>, globs: Strings)
    ensures
        ({
            let text = slashed(lossy(path));
            let name = shown_name(path);
            globs_take(path, globs) <==> {
                &&& forall|i: int|
                    0 <= i < globs.len() && excludes(#[trigger] globs[i]) ==> !glob_accepts(globs[i].drop_first(), text)
                        && !glob_accepts(globs[i].drop_first(), name)
                &&& {
                    ||| forall|i: int| 0 <= i < globs.len() ==> excludes(#[trigger] globs[i])
                    ||| exists|i: int|
                        0 <= i < globs.len() && !excludes(#[trigger] globs[i]) && (glob_accepts(globs[i], text)
                            || glob_accepts(globs[i], name))
                }
            }
        }),
{
    let text = slashed(lossy(path));
    let name = shown_name(path);
    lemma_rules(globs, text, name);
    if exists|i: int|
        0 <= i < globs.len() && !excludes(#[trigger] globs[i]) && (glob_accepts(globs[i], text) || glob_accepts(
            globs[i],
            name,
        )) {
        let i = choose|i: int|
            0 <= i < globs.len() && !excludes(#[trigger] globs[i]) && (glob_accepts(globs[i], text) || glob_accepts(
                globs[i],
                name,
            ));
        assert(rule_accepts(globs[i], text, name));
    }
    if forall|i: int|
        0 <= i < globs.len() && excludes(#[trigger] globs[i]) ==> !glob_accepts(globs[i].drop_first(), text)
            && !glob_accepts(globs[i].drop_first(), name) {
        assert forall|i: int| 0 <= i < globs.len() && excludes(#[trigger] globs[i]) implies !rule_accepts(
            globs[i].drop_first(),
            text,
            name,
        ) by {}
    } else {
        let i = choose|i: int|
            0 <= i < globs.len() && excludes(#[trigger] globs[i]) && (glob_accepts(globs[i].drop_first(), text)
                || glob_accepts(globs[i].drop_first(), name));
        assert(rule_accepts(globs[i].drop_first(), text, name));
    }
}

/// One rule more that says which files to take loses none, if there is one
/// already; one rule more that says which to leave adds none.
pub proof fn more_rules_take_more_or_leave_more(path: Seq<u8>, globs: Strings, rule: Seq<u8>)
    ensures
        !excludes(rule) && globs_take(path, globs) && (exists|i: int|
            0 <= i < globs.len() && !excludes(#[trigger] globs[i])) ==> globs_take(path, globs.push(rule)),
        excludes(rule) && globs_take(path, globs.push(rule)) ==> globs_take(path, globs),
{
    let more = globs.push(rule);
    every_glob_rule_counts(path, globs);
    every_glob_rule_counts(path, more);
    assert forall|i: int| 0 <= i < globs.len() implies #[trigger] more[i] == globs[i] by {}
    assert(more[globs.len() as int] == rule);
    let text = slashed(lossy(path));
    let name = shown_name(path);
    if !excludes(rule) && globs_take(path, globs) && (exists|i: int|
        0 <= i < globs.len() && !excludes(#[trigger] globs[i])) {
        let i = choose|i: int|
            0 <= i < globs.len() && !excludes(#[trigger] globs[i]) && (glob_accepts(globs[i], text) || glob_accepts(
                globs[i],
                name,
            ));
        assert(!excludes(more[i]));
    }
    if excludes(rule) && globs_take(path, more) {
        assert forall|i: int| 0 <= i < globs.len() && excludes(#[trigger] globs[i]) implies !glob_accepts(
            globs[i].drop_first(),
            text,
        ) && !glob_accepts(globs[i].drop_first(), name) by {
            assert(excludes(more[i]));
        }
        if forall|i: int| 0 <= i < more.len() ==> excludes(#[trigger] more[i]) {
            assert forall|i: int| 0 <= i < globs.len() implies excludes(#[trigger] globs[i]) by {
                assert(excludes(more[i]));
            }
        } else {
            let i = choose|i: int|
                0 <= i < more.len() && !excludes(#[trigger] more[i]) && (glob_accepts(more[i], text) || glob_accepts(
                    more[i],
                    name,
                ));
            assert(!excludes(globs[i]));
        }
    }
}

/// The order of the rules makes no difference.
pub proof fn order_of_rules_does_not_show(path: Seq<u8>, globs: Strings, others: Strings)
    requires
        globs.to_multiset() == others.to_multiset(),
    ensures
        globs_take(path, globs) == globs_take(path, others),
{
    if globs_take(path, globs) {
        lemma_rules_elsewhere(path, globs, others);
    }
    if globs_take(path, others) {
        lemma_rules_elsewhere(path, others, globs);
    }
}

proof fn lemma_rules_elsewhere(path: Seq<u8>, globs: Strings, others: Strings)
    requires
        globs.to_multiset() == others.to_multiset(),
        globs_take(path, globs),
    ensures
        globs_take(path, others),
{
    broadcast use vstd::seq_lib::group_to_multiset_ensures;

    let text = slashed(lossy(path));
    let name = shown_name(path);
    every_glob_rule_counts(path, globs);
    every_glob_rule_counts(path, others);
    assert forall|i: int| 0 <= i < others.len() implies globs.contains(#[trigger] others[i]) by {
        assert(others.contains(others[i]));
        assert(others.to_multiset().count(others[i]) > 0);
    }
    assert forall|i: int| 0 <= i < globs.len() implies others.contains(#[trigger] globs[i]) by {
        assert(globs.contains(globs[i]));
        assert(globs.to_multiset().count(globs[i]) > 0);
    }
    assert forall|i: int| 0 <= i < others.len() && excludes(#[trigger] others[i]) implies !glob_accepts(
        others[i].drop_first(),
        text,
    ) && !glob_accepts(others[i].drop_first(), name) by {
        let j = choose|j: int| 0 <= j < globs.len() && globs[j] == others[i];
        assert(excludes(globs[j]));
    }
    if forall|i: int| 0 <= i < globs.len() ==> excludes(#[trigger] globs[i]) {
        assert forall|i: int| 0 <= i < others.len() implies excludes(#[trigger] others[i]) by {
            let j = choose|j: int| 0 <= j < globs.len() && globs[j] == others[i];
            assert(excludes(globs[j]));
        }
    } else {
        let i = choose|i: int|
            0 <= i < globs.len() && !excludes(#[trigger] globs[i]) && (glob_accepts(globs[i], text) || glob_accepts(
                globs[i],
                name,
            ));
        let j = choose|j: int| 0 <= j < others.len() && others[j] == globs[i];
        assert(!excludes(others[j]));
    }
}

/// The bytes of `text` from `cuts[i]` to `cuts[i + 1]` are what byte number `i` of
/// the rule stands for: `?` for one byte, `*` for any number of bytes, but for
/// just the one if that is a `*` too, and any other byte for itself.
pub open spec fn stands_for(pattern: Seq<u8>, text: Seq<u8>, cuts: Seq<int>, i: int) -> bool {
    let (a, b) = (cuts[i], cuts[i + 1]);
    &&& 0 <= a <= b <= text.len()
    &&& pattern[i] == 63 ==> b == a + 1
    &&& pattern[i] == 42 && a < text.len() && text[a] == 42 ==> b == a + 1
    &&& pattern[i] != 63 && pattern[i] != 42 ==> b == a + 1 && text[a] == pattern[i]
}

/// The cuts part `text` into what the bytes of the rule stand for.
pub open spec fn parts_text(pattern: Seq<u8>, text: Seq<u8>, cuts: Seq<int>) -> bool {
    &&& cuts.len() == pattern.len() + 1
    &&& cuts[0] == 0
    &&& cuts.last() == text.len()
    &&& forall|i: int| 0 <= i < pattern.len() ==> #[trigger] stands_for(pattern, text, cuts, i)
}

proof fn lemma_cuts_shift(pattern: Seq<u8>, text: Seq<u8>, cuts: Seq<int>, k: int)
    requires
        pattern.len() > 0,
        0 <= k <= text.len(),
        parts_text(pattern.drop_first(), text.skip(k), cuts),
        stands_for(pattern, text, seq![0int, k], 0),
    ensures
        parts_text(pattern, text, seq![0int] + cuts.map_values(|c: int| c + k)),
{
    let all = seq![0int] + cuts.map_values(|c: int| c + k);
    let rest = pattern.drop_first();
    assert(all[1] == k);
    assert forall|i: int| 0 <= i < pattern.len() implies #[trigger] stands_for(pattern, text, all, i) by {
        if i > 0 {
            assert(stands_for(rest, text.skip(k), cuts, i - 1));
            assert(pattern[i] == rest[i - 1]);
            assert(all[i] == cuts[i - 1] + k && all[i + 1] == cuts[i] + k);
            if cuts[i - 1] < text.skip(k).len() {
                assert(text.skip(k)[cuts[i - 1]] == text[all[i]]);
            }
        }
    }
    assert(all.last() == text.len());
}

proof fn lemma_cuts_unshift(pattern: Seq<u8>, text: Seq<u8>, cuts: Seq<int>)
    requires
        pattern.len() > 0,
        parts_text(pattern, text, cuts),
    ensures
        0 <= cuts[1] <= text.len(),
        parts_text(pattern.drop_first(), text.skip(cuts[1]), cuts.drop_first().map_values(|c: int| c - cuts[1])),
{
    let k = cuts[1];
    let rest = pattern.drop_first();
    let less = cuts.drop_first().map_values(|c: int| c - k);
    assert(stands_for(pattern, text, cuts, 0));
    lemma_cuts_ascend(pattern, text, cuts, 1);
    assert forall|i: int| 0 <= i < rest.len() implies #[trigger] stands_for(rest, text.skip(k), less, i) by {
        assert(stands_for(pattern, text, cuts, i + 1));
        lemma_cuts_ascend(pattern, text, cuts, i + 1);
        assert(rest[i] == pattern[i + 1]);
        assert(less[i] == cuts[i + 1] - k && less[i + 1] == cuts[i + 2] - k);
        if less[i] < text.skip(k).len() {
            assert(text.skip(k)[less[i]] == text[cuts[i + 1]]);
        }
    }
    assert(less.last() == text.skip(k).len());
}

proof fn lemma_cuts_ascend(pattern: Seq<u8>, text: Seq<u8>, cuts: Seq<int>, i: int)
    requires
        parts_text(pattern, text, cuts),
        1 <= i < cuts.len(),
    ensures
        cuts[1] <= cuts[i],
    decreases i,
{
    if i > 1 {
        lemma_cuts_ascend(pattern, text, cuts, i - 1);
        assert(stands_for(pattern, text, cuts, i - 1));
    }
}

/// A rule with wildcards accepts a text if and only if the text can be parted
/// into what the bytes of the rule stand for.
pub proof fn wildcards_part_the_text(pattern: Seq<u8>, text: Seq<u8>)
    ensures
        glob(pattern, text) <==> exists|cuts: Seq<int>| parts_text(pattern, text, cuts),
    decreases pattern.len(),
{
    let rest = pattern.drop_first();
    if pattern.len() == 0 {
        if text.len() == 0 {
            assert(parts_text(pattern, text, seq![0int]));
        }
    } else if text.len() > 0 && (pattern[0] == 63 || pattern[0] == text[0]) {
        assert(text.drop_first() =~= text.skip(1));
        wildcards_part_the_text(rest, text.skip(1));
        if glob(pattern, text) {
            let cuts = choose|cuts: Seq<int>| parts_text(rest, text.skip(1), cuts);
            assert(stands_for(pattern, text, seq![0int, 1int], 0));
            lemma_cuts_shift(pattern, text, cuts, 1);
        }
        if exists|cuts: Seq<int>| parts_text(pattern, text, cuts) {
            let cuts = choose|cuts: Seq<int>| parts_text(pattern, text, cuts);
            assert(stands_for(pattern, text, cuts, 0));
            assert(cuts[1] == 1);
            lemma_cuts_unshift(pattern, text, cuts);
        }
    } else if pattern[0] == 42 {
        if glob(pattern, text) {
            let k = choose|k: int| 0 <= k <= text.len() && glob(rest, #[trigger] text.skip(k));
            wildcards_part_the_text(rest, text.skip(k));
            let cuts = choose|cuts: Seq<int>| parts_text(rest, text.skip(k), cuts);
            assert(stands_for(pattern, text, seq![0int, k], 0));
            lemma_cuts_shift(pattern, text, cuts, k);
        }
        if exists|cuts: Seq<int>| parts_text(pattern, text, cuts) {
            let cuts = choose|cuts: Seq<int>| parts_text(pattern, text, cuts);
            assert(stands_for(pattern, text, cuts, 0));
            lemma_cuts_unshift(pattern, text, cuts);
            wildcards_part_the_text(rest, text.skip(cuts[1]));
            assert(glob(rest, text.skip(cuts[1])));
        }
    } else {
        if exists|cuts: Seq<int>| parts_text(pattern, text, cuts) {
            let cuts = choose|cuts: Seq<int>| parts_text(pattern, text, cuts);
            assert(stands_for(pattern, text, cuts, 0));
        }
    }
}

/// A rule accepts a text: an empty one never, one without wildcards if the text
/// holds it anywhere, another if the text can be parted by it.
pub proof fn rules_accept_what_they_describe(pattern: Seq<u8>, text: Seq<u8>)
    ensures
        pattern.len() == 0 ==> !glob_accepts(pattern, text),
        pattern.len() > 0 && (forall|i: int| 0 <= i < pattern.len() ==> pattern[i] != 42 && pattern[i] != 63) ==> (
        glob_accepts(pattern, text) <==> exists|front: Seq<u8>, back: Seq<u8>| text == #[trigger] ((front + pattern) + back)),
        (exists|i: int| 0 <= i < pattern.len() && (pattern[i] == 42 || pattern[i] == 63)) ==> (glob_accepts(pattern, text)
            <==> exists|cuts: Seq<int>| parts_text(pattern, text, cuts)),
{
    wildcards_part_the_text(pattern, text);
    if exists|i: int| 0 <= i < pattern.len() && (pattern[i] == 42 || pattern[i] == 63) {
        let i = choose|i: int| 0 <= i < pattern.len() && (pattern[i] == 42 || pattern[i] == 63);
        assert(pattern.contains(pattern[i]));
    } else if pattern.len() > 0 {
        if contains_bytes(text, pattern) {
            let i = choose|i: int|
                0 <= i <= text.len() - pattern.len() && #[trigger] text.subrange(i, i + pattern.len()) == pattern;
            assert(text =~= (text.take(i) + pattern) + text.skip(i + pattern.len()));
        }
        if exists|front: Seq<u8>, back: Seq<u8>| text == #[trigger] ((front + pattern) + back) {
            let (front, back) = choose|front: Seq<u8>, back: Seq<u8>| text == #[trigger] ((front + pattern) + back);
            let i = front.len() as int;
            assert(text.subrange(i, i + pattern.len()) =~= pattern);
        }
    }
}

/// The last name of a path stands behind its last slash, if it has one.
pub proof fn last_names_stand_behind_the_last_slash(path: Seq<u8>)
    ensures
        !base_name(path).contains(47),
        base_name(path).len() <= path.len(),
        path.skip(path.len() - base_name(path).len()) == base_name(path),
        base_name(path).len() < path.len() ==> path[path.len() - base_name(path).len() - 1] == 47,
    decreases path.len(),
{
    lemma_name_start(path);
    assert(path.skip(path.len() - base_name(path).len()) =~= base_name(path));
}

proof fn lemma_name_start(path: Seq<u8>)
    ensures
        0 <= name_start(path) <= path.len(),
        name_start(path) > 0 ==> path[name_start(path) - 1] == 47,
        forall|i: int| name_start(path) <= i < path.len() ==> path[i] != 47,
    decreases path.len(),
{
    if path.len() > 0 && path.last() != 47 {
        let init = path.drop_last();
        lemma_name_start(init);
        assert forall|i: int| name_start(path) <= i < path.len() implies path[i] != 47 by {
            if i < init.len() {
                assert(init[i] == path[i]);
            }
        }
    }
}

proof fn lemma_last_dot(name: Seq<u8>)
    ensures
        -1 <= last_dot(name) < name.len(),
        last_dot(name) >= 0 ==> name[last_dot(name)] == 46,
        forall|i: int| last_dot(name) < i < name.len() ==> name[i] != 46,
    decreases name.len(),
{
    if name.len() > 0 && name.last() != 46 {
        let init = name.drop_last();
        lemma_last_dot(init);
        assert forall|i: int| last_dot(name) < i < name.len() implies name[i] != 46 by {
            if i < init.len() {
                assert(init[i] == name[i]);
            }
        }
    }
}

/// An extension is what stands behind the last dot of a name, if that has
/// something in front of it; `..` has none.
pub proof fn extensions_stand_behind_the_last_dot(name: Seq<u8>, stem: Seq<u8>, ext: Seq<u8>)
    ensures
        stem.len() > 0 && !ext.contains(46) && name == stem + seq![46u8] + ext && name != seq![46u8, 46u8]
            ==> extension_of(name) == Some(ext),
        extension_of(name) == Some(ext) ==> !ext.contains(46) && ext.len() + 1 < name.len() && name == name.take(
            name.len() - ext.len() - 1,
        ) + seq![46u8] + ext,
        name == seq![46u8, 46u8] ==> extension_of(name) is None,
        (forall|i: int| 0 < i < name.len() ==> name[i] != 46) ==> extension_of(name) is None,
{
    lemma_last_dot(name);
    if stem.len() > 0 && !ext.contains(46) && name == stem + seq![46u8] + ext && name != seq![46u8, 46u8] {
        let d = stem.len() as int;
        assert(name[d] == 46);
        assert forall|i: int| d < i < name.len() implies name[i] != 46 by {
            assert(ext[i - d - 1] == name[i]);
        }
        assert(last_dot(name) == d);
        assert(name.skip(d + 1) =~= ext);
    }
    if extension_of(name) == Some(ext) {
        let d = last_dot(name);
        assert(ext.len() == name.len() - d - 1);
        assert(name =~= name.take(d) + seq![46u8] + ext);
        assert forall|i: int| 0 <= i < ext.len() implies ext[i] != 46 by {
            assert(name[d + 1 + i] != 46);
        }
    }
}

/// A path has a part that is always skipped if and only if one of the four names
/// stands in it alone: at its start or behind a slash, and at its end or in front
/// of one.
pub proof fn skipped_directories_are_found_anywhere(path: Seq<u8>)
    ensures
        has_ignored_part(path) <==> exists|front: Seq<u8>, name: Seq<u8>, back: Seq<u8>|
            path == #[trigger] ((front + name) + back) && (name == encode_utf8(".git"@) || name == encode_utf8(
                "node_modules"@,
            ) || name == encode_utf8(".instantgrep"@) || name == encode_utf8("target"@)) && (front.len() == 0
                || front.last() == 47) && (back.len() == 0 || back[0] == 47),
{
    lemma_names_without_slash();
    if has_ignored_part(path) {
        let (a, b) = choose|a: int, b: int| #[trigger] is_part(path, a, b) && ignored_name(path.subrange(a, b));
        assert(path =~= (path.take(a) + path.subrange(a, b)) + path.skip(b));
    }
    if exists|front: Seq<u8>, name: Seq<u8>, back: Seq<u8>|
        path == #[trigger] ((front + name) + back) && (name == encode_utf8(".git"@) || name == encode_utf8(
            "node_modules"@,
        ) || name == encode_utf8(".instantgrep"@) || name == encode_utf8("target"@)) && (front.len() == 0
            || front.last() == 47) && (back.len() == 0 || back[0] == 47) {
        let (front, name, back) = choose|front: Seq<u8>, name: Seq<u8>, back: Seq<u8>|
            path == #[trigger] ((front + name) + back) && (name == encode_utf8(".git"@) || name == encode_utf8(
                "node_modules"@,
            ) || name == encode_utf8(".instantgrep"@) || name == encode_utf8("target"@)) && (front.len() == 0
                || front.last() == 47) && (back.len() == 0 || back[0] == 47);
        let (a, b) = (front.len() as int, (front.len() + name.len()) as int);
        assert(path.subrange(a, b) =~= name);
        assert forall|j: int| a <= j < b implies path[j] != 47 by {
            assert(path[j] == name[j - a]);
            assert(!name.contains(47));
        }
        assert(is_part(path, a, b));
    }
}

proof fn lemma_names_without_slash()
    ensures
        !encode_utf8(".git"@).contains(47),
        !encode_utf8("node_modules"@).contains(47),
        !encode_utf8(".instantgrep"@).contains(47),
        !encode_utf8("target"@).contains(47),
{
    reveal_strlit(".git");
    reveal_strlit("node_modules");
    reveal_strlit(".instantgrep");
    reveal_strlit("target");
    lemma_no_slash(".git"@);
    lemma_no_slash("node_modules"@);
    lemma_no_slash(".instantgrep"@);
    lemma_no_slash("target"@);
}

/// ASCII text without a slash has none in UTF-8.
proof fn lemma_no_slash(text: Seq<char>)
    requires
        forall|i: int| 0 <= i < text.len() ==> (#[trigger] text[i]) as u32 <= 0x7f && text[i] as u32 != 47,
    ensures
        !encode_utf8(text).contains(47),
    decreases text.len(),
{
    if text.len() > 0 {
        let rest = text.drop_first();
        assert forall|i: int| 0 <= i < rest.len() implies (#[trigger] rest[i]) as u32 <= 0x7f && rest[i] as u32 != 47 by {
            assert(rest[i] == text[i + 1]);
        }
        lemma_no_slash(rest);
        let c = text[0] as u32;
        assert(c <= 0x7f ==> (c & 0x7f) as u8 == c) by (bit_vector);
        let first = vstd::utf8::encode_scalar(c);
        assert(encode_utf8(text) =~= first + encode_utf8(rest));
        assert forall|i: int| 0 <= i < encode_utf8(text).len() implies encode_utf8(text)[i] != 47 by {
            if i > 0 {
                assert(encode_utf8(rest)[i - 1] == encode_utf8(text)[i]);
            }
        }
    }
}

/// An entry is kept if and only if it is a file, of a size that is known to be
/// neither zero nor above the limit or not known, outside the directories that are
/// always skipped, without an extension of the list, not a dot file without
/// extension unless hidden files are asked for, and taken by the rules.
pub proof fn entries_are_kept_unless_there_is_a_reason(entry: WalkEntry, opts: WalkOptions)
    ensures
        ({
            let name = base_name(entry.path@);
            let ext = extension_of(name);
            let listed = ext is Some && binary_extension(ext->0);
            let dotted = valid_utf8(name) && name.len() > 0 && name[0] == 46 && ext is None;
            let globs = Seq::new(opts.globs@.len(), |i: int| encode_utf8(opts.globs@[i]@));
            indexable(entry, opts) <==> entry.is_file && (entry.len is None || 0 < entry.len->0 <= opts.max_file_size)
                && !has_ignored_part(entry.path@) && !listed && (!dotted || opts.hidden) && globs_take(
                entry.path@,
                globs,
            )
        }),
{
    assert(Seq::new(opts.globs@.len(), |i: int| encode_utf8(opts.globs@[i]@)) =~= glob_bytes(opts.globs@));
}

/// The rules see a path as text with slashes only, and its last name where that
/// is text.
pub proof fn rules_see_slashes(path: Seq<u8>)
    ensures
        slashed(path).len() == path.len(),
        forall|i: int|
            0 <= i < path.len() ==> #[trigger] slashed(path)[i] == if path[i] == 92 {
                47
            } else {
                path[i]
            },
        valid_utf8(base_name(path)) ==> shown_name(path) == base_name(path),
        !valid_utf8(base_name(path)) ==> shown_name(path).len() == 0,
{
}

/// The extensions that are never worth indexing are those of images, fonts, media,
/// archives, compiled code and lock files, whatever the case of their letters.
pub proof fn listed_extensions_are_left_out(ext: Seq<u8>)
    ensures
        binary_extension(ext) <==> ({
            let low = lower(ext);
            ||| low == lower(encode_utf8("png"@))
            ||| low == lower(encode_utf8("jpg"@))
            ||| low == lower(encode_utf8("jpeg"@))
            ||| low == lower(encode_utf8("gif"@))
            ||| low == lower(encode_utf8("bmp"@))
            ||| low == lower(encode_utf8("ico"@))
            ||| low == lower(encode_utf8("svg"@))
            ||| low == lower(encode_utf8("woff"@))
            ||| low == lower(encode_utf8("woff2"@))
            ||| low == lower(encode_utf8("ttf"@))
            ||| low == lower(encode_utf8("eot"@))
            ||| low == lower(encode_utf8("mp3"@))
            ||| low == lower(encode_utf8("mp4"@))
            ||| low == lower(encode_utf8("avi"@))
            ||| low == lower(encode_utf8("mov"@))
            ||| low == lower(encode_utf8("pdf"@))
            ||| low == lower(encode_utf8("zip"@))
            ||| low == lower(encode_utf8("tar"@))
            ||| low == lower(encode_utf8("gz"@))
            ||| low == lower(encode_utf8("bz2"@))
            ||| low == lower(encode_utf8("xz"@))
            ||| low == lower(encode_utf8("zst"@))
            ||| low == lower(encode_utf8("7z"@))
            ||| low == lower(encode_utf8("rar"@))
            ||| low == lower(encode_utf8("exe"@))
            ||| low == lower(encode_utf8("dll"@))
            ||| low == lower(encode_utf8("so"@))
            ||| low == lower(encode_utf8("dylib"@))
            ||| low == lower(encode_utf8("o"@))
            ||| low == lower(encode_utf8("a"@))
            ||| low == lower(encode_utf8("beam"@))
            ||| low == lower(encode_utf8("class"@))
            ||| low == lower(encode_utf8("jar"@))
            ||| low == lower(encode_utf8("war"@))
            ||| low == lower(encode_utf8("pyc"@))
            ||| low == lower(encode_utf8("pyo"@))
            ||| low == lower(encode_utf8("lock"@))
        }),
{
}

/// What is found are the entries that are kept, seen from the root: each of them
/// and no other.
pub proof fn what_is_found_was_worth_it(files: Seq<Vec<u8>>, entries: Seq<WalkEntry>, root: Seq<u8>, opts: WalkOptions, rel: Seq<u8>)
    requires
        strings_of(files).to_multiset() == kept(entries, root, opts).to_multiset(),
    ensures
        strings_of(files).contains(rel) <==> exists|i: int|
            0 <= i < entries.len() && indexable(#[trigger] entries[i], opts) && relative_to(entries[i].path@, root) == rel,
{
    broadcast use vstd::seq_lib::group_to_multiset_ensures;

    lemma_kept_iff(entries, root, opts, rel);
    assert(strings_of(files).contains(rel) == (strings_of(files).to_multiset().count(rel) > 0));
    assert(kept(entries, root, opts).contains(rel) == (kept(entries, root, opts).to_multiset().count(rel) > 0));
}

proof fn lemma_kept_iff(entries: Seq<WalkEntry>, root: Seq<u8>, opts: WalkOptions, rel: Seq<u8>)
    ensures
        kept(entries, root, opts).contains(rel) <==> exists|i: int|
            0 <= i < entries.len() && indexable(#[trigger] entries[i], opts) && relative_to(entries[i].path@, root) == rel,
    decreases entries.len(),
{
    if entries.len() > 0 {
        let init = entries.drop_last();
        let last = entries.len() - 1;
        lemma_kept_iff(init, root, opts, rel);
        let (less, now) = (kept(init, root, opts), kept(entries, root, opts));
        assert forall|i: int| 0 <= i < init.len() implies #[trigger] init[i] == entries[i] by {}
        if less.contains(rel) {
            let k = choose|k: int| 0 <= k < less.len() && less[k] == rel;
            assert(now[k] == rel);
            let i = choose|i: int|
                0 <= i < init.len() && indexable(#[trigger] init[i], opts) && relative_to(init[i].path@, root) == rel;
            assert(indexable(entries[i], opts));
        }
        if indexable(entries[last], opts) && relative_to(entries[last].path@, root) == rel {
            assert(now[less.len() as int] == rel);
        }
        if now.contains(rel) && !less.contains(rel) {
            let k = choose|k: int| 0 <= k < now.len() && now[k] == rel;
            if k < less.len() {
                assert(less[k] == rel);
            }
            assert(indexable(entries[last], opts));
        }
        if exists|i: int|
            0 <= i < entries.len() && indexable(#[trigger] entries[i], opts) && relative_to(entries[i].path@, root) == rel {
            let i = choose|i: int|
                0 <= i < entries.len() && indexable(#[trigger] entries[i], opts) && relative_to(entries[i].path@, root)
                    == rel;
            if i < last {
                assert(indexable(init[i], opts));
            }
        }
    }
}

/// Paths are ordered name by name: those in one directory by what stands behind
/// it, and otherwise by the first name in which they differ, byte by byte; a name
/// comes before those that it begins.
pub proof fn paths_are_ordered_by_name(dir: Seq<u8>, a: Seq<u8>, b: Seq<u8>, x: u8, y: u8, p: Seq<u8>, q: Seq<u8>)
    ensures
        path_less(dir + a, dir + b) <==> path_less(a, b),
        x != y && x != 47 && y != 47 ==> (path_less(dir + seq![x] + p, dir + seq![y] + q) <==> x < y),
        y != 47 ==> path_less(dir + seq![47u8] + p, dir + seq![y] + q),
        path_less(dir, dir + seq![y] + q),
{
    let n = dir.len() as int;
    if path_less(a, b) {
        let k = choose|k: int| #[trigger] path_differs_at(a, b, k);
        assert forall|j: int| 0 <= j < n + k implies (dir + a)[j] == (dir + b)[j] by {
            if j >= n {
                assert(a[j - n] == b[j - n]);
            }
        }
        assert(path_differs_at(dir + a, dir + b, n + k));
    }
    if path_less(dir + a, dir + b) {
        let k = choose|k: int| #[trigger] path_differs_at(dir + a, dir + b, k);
        if k < n {
            assert((dir + a)[k] == dir[k] && (dir + b)[k] == dir[k]);
        }
        assert forall|j: int| 0 <= j < k - n implies a[j] == b[j] by {
            assert((dir + a)[n + j] == (dir + b)[n + j]);
        }
        assert(path_differs_at(a, b, k - n));
    }
    let (u, v) = (dir + seq![x] + p, dir + seq![y] + q);
    assert(u[n] == x && v[n] == y);
    assert forall|j: int| 0 <= j < n implies u[j] == v[j] by {}
    if x != y && x != 47 && y != 47 {
        if x < y {
            assert(path_differs_at(u, v, n));
        } else {
            assert(path_differs_at(v, u, n));
            path_order_is_total(u, v, u);
        }
    }
    if y != 47 {
        let w = dir + seq![47u8] + p;
        assert(w[n] == 47);
        assert(path_differs_at(w, v, n));
    }
    assert(path_differs_at(dir, v, n));
}

/// The rules are split by their mark, in order; those that say which files to leave
/// lose it.
pub proof fn rules_are_split_by_their_mark(globs: Strings)
    ensures
        include_rules(globs) == globs.filter(|rule: Seq<u8>| !excludes(rule)),
        exclude_rules(globs) == globs.filter(|rule: Seq<u8>| excludes(rule)).map_values(
            |rule: Seq<u8>| rule.drop_first(),
        ),
    decreases globs.len(),
{
    reveal(Seq::filter);
    let f = |rule: Seq<u8>| excludes(rule);
    let g = |rule: Seq<u8>| rule.drop_first();
    if globs.len() == 0 {
        assert(globs.filter(f).map_values(g) =~= exclude_rules(globs));
    } else {
        rules_are_split_by_their_mark(globs.drop_last());
        assert(globs.filter(f).map_values(g) =~= exclude_rules(globs));
    }
}

} // verus!
