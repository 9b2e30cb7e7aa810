//! The components of a path.
//!
//! Paths are byte strings with `/` between the names. Two paths are the same if
//! their components are: repeated and trailing slashes do not count, nor does a
//! `.` anywhere but at the start.

use vstd::prelude::*;
use vstd::slice::slice_subrange;

use crate::strings::{copy_bytes, strings_of, Strings};

verus! {

/// The number of bytes before the first slash.
pub open spec fn piece_len(path: Seq<u8>) -> nat
    decreases path.len(),
{
    if path.len() == 0 || path[0] == 47 {
        0
    } else {
        1 + piece_len(path.skip(1))
    }
}

/// A piece between slashes counts as a name.
pub open spec fn is_name(piece: Seq<u8>) -> bool {
    piece.len() > 0 && piece != seq![46u8]
}

/// The names of a path, in order.
pub open spec fn names_of(path: Seq<u8>) -> Strings
    decreases path.len(),
{
    let n = piece_len(path) as int;
    let piece = path.take(n);
    let here: Strings = if is_name(piece) {
        seq![piece]
    } else {
        Seq::empty()
    };
    if n < path.len() {
        here + names_of(path.skip(n + 1))
    } else {
        here
    }
}

/// What a path starts from: the root, the current directory if it says so, or
/// nothing of the kind.
pub open spec fn start_of(path: Seq<u8>) -> Strings {
    if path.len() > 0 && path[0] == 47 {
        seq![seq![47u8]]
    } else if path.take(piece_len(path) as int) == seq![46u8] {
        seq![seq![46u8]]
    } else {
        Seq::empty()
    }
}

/// The components of a path.
#[verifier::opaque]
pub open spec fn components(path: Seq<u8>) -> Strings {
    start_of(path) + names_of(path)
}

/// Two paths are the same.
pub open spec fn same_path(a: Seq<u8>, b: Seq<u8>) -> bool {
    components(a) == components(b)
}

/// One of `paths` is the same as `path`.
pub open spec fn lists(paths: Strings, path: Seq<u8>) -> bool {
    exists|j: int| 0 <= j < paths.len() && same_path(#[trigger] paths[j], path)
}

/// No two of the paths are the same.
pub open spec fn all_differ(paths: Strings) -> bool {
    forall|i: int, j: int| 0 <= i < j < paths.len() ==> !same_path(#[trigger] paths[i], #[trigger] paths[j])
}

proof fn lemma_piece_len(path: Seq<u8>, n: int)
    requires
        0 <= n <= path.len(),
        forall|i: int| 0 <= i < n ==> #[trigger] path[i] != 47,
        n < path.len() ==> path[n] == 47,
    ensures
        piece_len(path) == n,
    decreases n,
{
    if n > 0 {
        let rest = path.skip(1);
        assert(path[0] != 47);
        assert forall|i: int| 0 <= i < n - 1 implies #[trigger] rest[i] != 47 by {
            assert(path[i + 1] != 47);
        }
        lemma_piece_len(rest, n - 1);
    }
}

proof fn lemma_piece_ends(path: Seq<u8>)
    ensures
        piece_len(path) <= path.len(),
        piece_len(path) < path.len() ==> path[piece_len(path) as int] == 47,
    decreases path.len(),
{
    if path.len() > 0 && path[0] != 47 {
        lemma_piece_ends(path.skip(1));
    }
}

/// The components of a path.
pub fn components_of(path: &[u8]) -> (parts: Vec<Vec<u8>>)
    ensures
        strings_of(parts@) == components(path@),
{
    reveal(components);
    let mut parts: Vec<Vec<u8>> = Vec::new();
    let mut at: usize = 0;
    assert(path@.skip(0) =~= path@);
    if path.len() > 0 && path[0] == 47 {
        let mut root: Vec<u8> = Vec::new();
        root.push(47);
        assert(root@ =~= seq![47u8]);
        parts.push(root);
        assert(strings_of(parts@) =~= start_of(path@));
    } else if path.len() > 0 && path[0] == 46 && (path.len() == 1 || path[1] == 47) {
        let mut dot: Vec<u8> = Vec::new();
        dot.push(46);
        proof {
            lemma_piece_len(path@, 1);
            assert(path@.take(1) =~= seq![46u8]);
            assert(dot@ =~= seq![46u8]);
        }
        parts.push(dot);
        assert(strings_of(parts@) =~= start_of(path@));
    } else {
        proof {
            let piece = path@.take(piece_len(path@) as int);
            lemma_piece_ends(path@);
            if piece == seq![46u8] {
                assert(piece.len() == 1);
                assert(piece[0] == path@[0]);
            }
        }
        assert(strings_of(parts@) =~= start_of(path@));
    }
    let ghost start = strings_of(parts@);
    let ghost all = names_of(path@);
    assert(strings_of(parts@) + all =~= start + all);
    loop
        invariant_except_break
            at <= path@.len(),
            strings_of(parts@) + names_of(path@.skip(at as int)) == start + all,
        ensures
            strings_of(parts@) == start + all,
        decreases path@.len() - at,
    {
        let ghost rest = path@.skip(at as int);
        let mut end: usize = at;
        while end < path.len() && path[end] != 47
            invariant
                at <= end <= path@.len(),
                rest == path@.skip(at as int),
                forall|i: int| 0 <= i < end - at ==> #[trigger] rest[i] != 47,
            decreases path@.len() - end,
        {
            assert(rest[end - at] == path@[end as int]);
            end += 1;
        }
        let ghost before = strings_of(parts@);
        let piece = slice_subrange(path, at, end);
        proof {
            if end < path@.len() {
                assert(rest[end - at] == path@[end as int]);
            }
            lemma_piece_len(rest, end - at);
            assert(rest.take(end - at) =~= piece@);
        }
        let ghost here: Strings = if is_name(piece@) {
            seq![piece@]
        } else {
            Seq::empty()
        };
        if end - at > 1 || (end - at == 1 && path[at] != 46) {
            assert(is_name(piece@)) by {
                if piece@ == seq![46u8] {
                    assert(piece@[0] == path@[at as int]);
                }
            }
            parts.push(copy_bytes(piece));
            assert(strings_of(parts@) =~= before + here);
        } else {
            assert(!is_name(piece@)) by {
                if end - at == 1 {
                    assert(piece@ =~= seq![46u8]);
                }
            }
            assert(strings_of(parts@) =~= before + here);
        }
        if end < path.len() {
            proof {
                let tail = names_of(path@.skip(end + 1));
                assert(rest.skip(end - at + 1) =~= path@.skip(end + 1));
                assert(before + (here + tail) =~= before + here + tail);
            }
            at = end + 1;
        } else {
            break;
        }
    }
    parts
}

/// The names of a path are those in front of a slash followed by those behind it; a
/// piece without a slash is a name of its own unless it is empty or `.`.
pub proof fn names_come_slash_by_slash(front: Seq<u8>, rest: Seq<u8>, piece: Seq<u8>)
    ensures
        names_of(front + seq![47u8] + rest) == names_of(front) + names_of(rest),
        !piece.contains(47) && piece.len() > 0 && piece != seq![46u8] ==> names_of(piece) == seq![piece],
        piece.len() == 0 || piece == seq![46u8] ==> names_of(piece) == Seq::<Seq<u8>>::empty(),
    decreases front.len(),
{
    if !piece.contains(47) {
        assert forall|i: int| 0 <= i < piece.len() implies #[trigger] piece[i] != 47 by {}
        lemma_piece_len(piece, piece.len() as int);
        assert(piece.take(piece.len() as int) =~= piece);
        assert(names_of(piece) =~= if is_name(piece) {
            seq![piece]
        } else {
            Seq::empty()
        });
    }
    if piece == seq![46u8] {
        assert(!piece.contains(47));
    }
    lemma_piece_ends(front);
    lemma_piece_before(front);
    let n = piece_len(front) as int;
    let whole = front + seq![47u8] + rest;
    assert forall|i: int| 0 <= i < n implies #[trigger] whole[i] != 47 by {
        assert(whole[i] == front[i]);
    }
    if n < front.len() {
        assert(whole[n] == front[n]);
    } else {
        assert(whole[n] == 47);
    }
    lemma_piece_len(whole, n);
    assert(whole.take(n) =~= front.take(n));
    if n < front.len() {
        let less = front.skip(n + 1);
        names_come_slash_by_slash(less, rest, piece);
        assert(whole.skip(n + 1) =~= less + seq![47u8] + rest);
        let here: Strings = if is_name(front.take(n)) {
            seq![front.take(n)]
        } else {
            Seq::empty()
        };
        assert(here + (names_of(less) + names_of(rest)) =~= (here + names_of(less)) + names_of(rest));
    } else {
        assert(whole.skip(n + 1) =~= rest);
    }
}

proof fn lemma_piece_before(path: Seq<u8>)
    ensures
        forall|i: int| 0 <= i < piece_len(path) ==> #[trigger] path[i] != 47,
    decreases path.len(),
{
    if path.len() > 0 && path[0] != 47 {
        let rest = path.skip(1);
        lemma_piece_before(rest);
        lemma_piece_ends(path);
        assert forall|i: int| 0 <= i < piece_len(path) implies #[trigger] path[i] != 47 by {
            if i > 0 {
                assert(rest[i - 1] != 47);
            }
        }
    }
}

/// How a path is written does not count: more slashes for one, a slash at the end,
/// and a `.` between slashes make no difference. A slash or a `.` at the start does.
pub proof fn writing_a_path_otherwise_makes_no_difference(front: Seq<u8>, rest: Seq<u8>)
    requires
        front.len() > 0,
    ensures
        same_path(front + seq![47u8] + rest, front + seq![47u8, 47u8] + rest),
        same_path(front + seq![47u8] + rest, front + seq![47u8, 46u8, 47u8] + rest),
        front != seq![47u8] ==> same_path(front, front + seq![47u8]),
        rest.len() > 0 && rest[0] != 47 ==> !same_path(rest, seq![47u8] + rest),
        rest.len() > 0 && rest[0] != 47 && !(rest[0] == 46 && (rest.len() == 1 || rest[1] == 47)) ==> !same_path(
            rest,
            seq![46u8, 47u8] + rest,
        ),
{
    reveal(components);
    let none = Seq::<u8>::empty();
    let (a, b, c) = (
        front + seq![47u8] + rest,
        front + seq![47u8, 47u8] + rest,
        front + seq![47u8, 46u8, 47u8] + rest,
    );
    names_come_slash_by_slash(front, rest, none);
    names_come_slash_by_slash(front + seq![47u8], rest, none);
    names_come_slash_by_slash(front, none, none);
    assert(front + seq![47u8] + none =~= front + seq![47u8]);
    assert(b =~= (front + seq![47u8]) + seq![47u8] + rest);
    assert(names_of(front) + names_of(none) =~= names_of(front));
    names_come_slash_by_slash(front + seq![47u8, 46u8], rest, none);
    names_come_slash_by_slash(front, seq![46u8], seq![46u8]);
    assert(front + seq![47u8] + seq![46u8] =~= front + seq![47u8, 46u8]);
    assert(c =~= (front + seq![47u8, 46u8]) + seq![47u8] + rest);
    assert(names_of(a) == names_of(b) && names_of(a) == names_of(c));
    lemma_start(front, rest, seq![47u8, 47u8] + rest);
    lemma_start(front, rest, seq![47u8, 46u8, 47u8] + rest);
    lemma_start(front, none, none);
    assert(a =~= front + (seq![47u8] + rest));
    assert(b =~= front + (seq![47u8, 47u8] + rest));
    assert(c =~= front + (seq![47u8, 46u8, 47u8] + rest));
    assert(front + none =~= front);
    assert(front + (seq![47u8] + none) =~= front + seq![47u8]);
    if rest.len() > 0 && rest[0] != 47 {
        lemma_names_no_root(rest);
        let rooted = seq![47u8] + rest;
        assert(rooted[0] == 47);
        assert(components(rooted)[0] == seq![47u8]);
        if same_path(rest, rooted) {
            assert(components(rest)[0] == seq![47u8]);
            lemma_piece_ends(rest);
            if start_of(rest).len() == 0 {
                assert(names_of(rest)[0] == seq![47u8]);
                assert(names_of(rest).contains(seq![47u8]));
            } else {
                assert(start_of(rest)[0] == seq![46u8]);
                assert(seq![46u8][0] != seq![47u8][0]);
            }
        }
        if !(rest[0] == 46 && (rest.len() == 1 || rest[1] == 47)) {
            let dotted = seq![46u8, 47u8] + rest;
            assert(dotted[0] == 46 && dotted[1] == 47);
            lemma_piece_len(dotted, 1);
            assert(dotted.take(1) =~= seq![46u8]);
            assert(components(dotted)[0] == seq![46u8]);
            lemma_piece_ends(rest);
            assert(start_of(rest).len() == 0) by {
                if rest.take(piece_len(rest) as int) == seq![46u8] {
                    assert(rest.take(piece_len(rest) as int).len() == 1);
                    assert(rest.take(piece_len(rest) as int)[0] == rest[0]);
                }
            }
            if same_path(rest, dotted) {
                assert(names_of(rest)[0] == seq![46u8]);
                assert(names_of(rest).contains(seq![46u8]));
            }
        }
    }
}

proof fn lemma_names_no_root(path: Seq<u8>)
    ensures
        !names_of(path).contains(seq![47u8]),
        !names_of(path).contains(seq![46u8]),
    decreases path.len(),
{
    lemma_piece_ends(path);
    lemma_piece_before(path);
    let n = piece_len(path) as int;
    let piece = path.take(n);
    if piece.len() == 1 {
        assert(piece[0] == path[0]);
        assert(path[0] != 47);
        assert(piece != seq![47u8]) by {
            assert(seq![47u8][0] == 47);
        }
    }
    if n < path.len() {
        lemma_names_no_root(path.skip(n + 1));
        let rest = names_of(path.skip(n + 1));
        let here: Strings = if is_name(piece) {
            seq![piece]
        } else {
            Seq::empty()
        };
        assert forall|i: int| 0 <= i < names_of(path).len() implies names_of(path)[i] != seq![47u8] && names_of(path)[i]
            != seq![46u8] by {
            if i < here.len() {
                assert(names_of(path)[i] == here[i]);
            } else {
                assert(names_of(path)[i] == rest[i - here.len()]);
                assert(rest.contains(rest[i - here.len()]));
            }
        }
    }
}

/// What a path starts from shows in its first piece.
proof fn lemma_start(front: Seq<u8>, rest: Seq<u8>, other: Seq<u8>)
    requires
        front.len() > 0,
        other.len() > 0 ==> other[0] == 47,
    ensures
        start_of(front + (seq![47u8] + rest)) == start_of(front + other),
{
    let (a, b) = (front + (seq![47u8] + rest), front + other);
    assert(a[0] == front[0] && b[0] == front[0]);
    if front[0] != 47 {
        lemma_piece_ends(front);
        lemma_piece_before(front);
        let n = piece_len(front) as int;
        assert forall|i: int| 0 <= i < n implies #[trigger] a[i] != 47 by {
            assert(a[i] == front[i]);
        }
        assert forall|i: int| 0 <= i < n implies #[trigger] b[i] != 47 by {
            assert(b[i] == front[i]);
        }
        if n < front.len() {
            assert(a[n] == front[n] && b[n] == front[n]);
        } else {
            assert(a[n] == 47);
            if other.len() > 0 {
                assert(b[n] == 47);
            }
        }
        lemma_piece_len(a, n);
        lemma_piece_len(b, n);
        assert(a.take(n) =~= front.take(n));
        assert(b.take(n) =~= front.take(n));
    }
}

} // verus!
