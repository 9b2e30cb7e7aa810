//! The protocol of the optional persistent daemon.
//!
//! A daemon loads (or builds) the index once, keeps it resident in memory, and
//! serves queries over a Unix domain socket at
//! `<root>/.instantgrep/daemon.sock`. The normal CLI transparently uses a
//! running daemon for that root when one exists, and otherwise falls back to
//! the one-shot path — so the only difference a daemon makes is skipping the
//! per-call index load, which is exactly the win for repeated queries (e.g. an
//! agent harness calling `grep_search` in a loop).

use vstd::prelude::*;
use vstd::slice::slice_subrange;
use vstd::string::*;
use vstd::utf8::encode_utf8;

use crate::index::Index;
use crate::matcher::{
    entries_upto, entry_lines, hits_of, line_starts, output_of, ColorWhen, EntrySpec, FileSpec, SearchMode,
    SearchOptions, SourceFile,
};
use crate::pattern::{effective_pattern, match_spans};
use crate::search::{candidates, exit_for, reads, search_query};
use crate::text::{decode_lossy, join, joined, lossy, lossy_text, text_is_shown_as_it_is};
use crate::wire::{
    le_bytes, le_value, lemma_capacity, lemma_le_round_trip, push_le, push_u32, read_u32,
};

verus! {

pub const MODE_NORMAL: u8 = 0;

pub const MODE_COUNT: u8 = 1;

pub const MODE_FILES: u8 = 2;

/// A query from the CLI client to the daemon.
#[derive(Debug)]
pub struct Request {
    pub pattern: String,
    pub ignore_case: bool,
    pub mode: u8,
    pub before: u32,
    pub after: u32,
    pub color_always: bool,
}

/// The mathematical form of a [`Request`].
#[verifier::ext_equal]
pub struct RequestSpec {
    pub pattern: Seq<char>,
    pub ignore_case: bool,
    pub mode: u8,
    pub before: u32,
    pub after: u32,
    pub color_always: bool,
}

impl View for Request {
    type V = RequestSpec;

    open spec fn view(&self) -> RequestSpec {
        RequestSpec {
            pattern: self.pattern@,
            ignore_case: self.ignore_case,
            mode: self.mode,
            before: self.before,
            after: self.after,
            color_always: self.color_always,
        }
    }
}

/// The byte that stands for a mode.
pub open spec fn mode_byte(mode: SearchMode) -> u8 {
    match mode {
        SearchMode::Normal => MODE_NORMAL,
        SearchMode::Count => MODE_COUNT,
        SearchMode::FilesWithMatches => MODE_FILES,
    }
}

/// The mode that a byte stands for; an unknown one stands for the normal mode.
pub open spec fn byte_mode(byte: u8) -> SearchMode {
    if byte == MODE_COUNT {
        SearchMode::Count
    } else if byte == MODE_FILES {
        SearchMode::FilesWithMatches
    } else {
        SearchMode::Normal
    }
}

/// The request for a search.
pub open spec fn request_for(pattern: Seq<char>, ignore_case: bool, opts: SearchOptions) -> RequestSpec {
    RequestSpec {
        pattern,
        ignore_case,
        mode: mode_byte(opts.mode),
        before: opts.before as u32,
        after: opts.after as u32,
        color_always: opts.color == ColorWhen::Always,
    }
}

impl RequestSpec {
    /// The options that a request asks for.
    pub open spec fn opts(self) -> SearchOptions {
        SearchOptions {
            mode: byte_mode(self.mode),
            before: self.before as usize,
            after: self.after as usize,
            color: if self.color_always {
                ColorWhen::Always
            } else {
                ColorWhen::Never
            },
        }
    }
}

/// 1 for `true`, 0 for `false`.
pub open spec fn flag_byte(flag: bool) -> u8 {
    if flag {
        1
    } else {
        0
    }
}

/// A request on the wire: the pattern behind its length, then the options.
pub open spec fn request_bytes(r: RequestSpec) -> Seq<u8> {
    le_bytes(encode_utf8(r.pattern).len(), 4) + encode_utf8(r.pattern) + seq![flag_byte(r.ignore_case), r.mode]
        + le_bytes(r.before as nat, 4) + le_bytes(r.after as nat, 4) + seq![flag_byte(r.color_always)]
}

/// The request that `data` starts with; `None` if `data` ends before it.
pub open spec fn request_at_start(data: Seq<u8>) -> Option<RequestSpec> {
    let n = le_value(data.take(4)) as int;
    if data.len() < 4 || data.len() < 4 + n + 11 {
        None
    } else {
        let at = 4 + n;
        Some(
            RequestSpec {
                pattern: lossy_text(data.subrange(4, at)),
                ignore_case: data[at] != 0,
                mode: data[at + 1],
                before: le_value(data.subrange(at + 2, at + 6)) as u32,
                after: le_value(data.subrange(at + 6, at + 10)) as u32,
                color_always: data[at + 10] != 0,
            },
        )
    }
}

impl Request {
    /// The request for a search.
    pub fn new(pattern: &str, ignore_case: bool, opts: &SearchOptions) -> (out: Request)
        ensures
            out@ == request_for(pattern@, ignore_case, *opts),
    {
        let mode: u8 = match opts.mode {
            SearchMode::Normal => MODE_NORMAL,
            SearchMode::Count => MODE_COUNT,
            SearchMode::FilesWithMatches => MODE_FILES,
        };
        Request {
            pattern: pattern.to_owned(),
            ignore_case,
            mode,
            before: opts.before as u32,
            after: opts.after as u32,
            color_always: opts.color == ColorWhen::Always,
        }
    }

    /// The options that the request asks for.
    pub fn to_opts(&self) -> (opts: SearchOptions)
        ensures
            opts == self@.opts(),
    {
        let mode = if self.mode == MODE_COUNT {
            SearchMode::Count
        } else if self.mode == MODE_FILES {
            SearchMode::FilesWithMatches
        } else {
            SearchMode::Normal
        };
        SearchOptions {
            mode,
            before: self.before as usize,
            after: self.after as usize,
            color: if self.color_always {
                ColorWhen::Always
            } else {
                ColorWhen::Never
            },
        }
    }

    /// The request on the wire.
    pub fn encode(&self) -> (out: Vec<u8>)
        ensures
            out@ == request_bytes(self@),
    {
        let pat = self.pattern.as_str().as_bytes();
        let mut buf: Vec<u8> = Vec::new();
        push_le(&mut buf, pat.len() as u64, 4);
        buf.extend_from_slice(pat);
        buf.push(
            if self.ignore_case {
                1
            } else {
                0
            },
        );
        buf.push(self.mode);
        push_u32(&mut buf, self.before);
        push_u32(&mut buf, self.after);
        buf.push(
            if self.color_always {
                1
            } else {
                0
            },
        );
        assert(buf@ =~= request_bytes(self@));
        buf
    }
}

proof fn lemma_request_fields(r: RequestSpec)
    requires
        encode_utf8(r.pattern).len() < 0x1_0000_0000,
    ensures
        ({
            let data = request_bytes(r);
            let n = encode_utf8(r.pattern).len() as int;
            &&& data.len() == n + 15
            &&& le_value(data.take(4)) == n
            &&& data.subrange(4, 4 + n) == encode_utf8(r.pattern)
            &&& data[4 + n] == flag_byte(r.ignore_case)
            &&& data[5 + n] == r.mode
            &&& le_value(data.subrange(6 + n, 10 + n)) == r.before
            &&& le_value(data.subrange(10 + n, 14 + n)) == r.after
            &&& data[14 + n] == flag_byte(r.color_always)
        }),
{
    let data = request_bytes(r);
    let p = encode_utf8(r.pattern);
    let n = p.len() as int;
    lemma_capacity();
    lemma_le_round_trip(p.len(), 4);
    lemma_le_round_trip(r.before as nat, 4);
    lemma_le_round_trip(r.after as nat, 4);
    assert(data.take(4) =~= le_bytes(p.len(), 4));
    assert(data.subrange(4, 4 + n) =~= p);
    assert(data.subrange(6 + n, 10 + n) =~= le_bytes(r.before as nat, 4));
    assert(data.subrange(10 + n, 14 + n) =~= le_bytes(r.after as nat, 4));
}

/// How many bytes of a request follow its first four, which hold the length of
/// the pattern.
pub fn request_rest(first: &[u8]) -> (n: Option<u64>)
    ensures
        n is Some <==> first@.len() >= 4,
        n matches Some(v) ==> v == le_value(first@.take(4)) + 11,
{
    match read_u32(first, 0) {
        Some(len) => {
            assert(first@.subrange(0, 4) =~= first@.take(4));
            Some(len as u64 + 11)
        },
        None => None,
    }
}

/// Read a request; `None` if `data` ends before it.
pub fn decode_request(data: &[u8]) -> (out: Option<Request>)
    ensures
        out is Some <==> request_at_start(data@) is Some,
        out matches Some(r) ==> request_at_start(data@) == Some(r@),
{
    let len: u32 = match read_u32(data, 0) {
        Some(len) => len,
        None => {
            return None;
        },
    };
    assert(data@.subrange(0, 4) =~= data@.take(4));
    if ((data.len() - 4) as u64) < len as u64 + 11 {
        return None;
    }
    let at: usize = 4 + len as usize;
    let pattern = decode_lossy(slice_subrange(data, 4, at));
    let (before, after): (u32, u32) = match (read_u32(data, at + 2), read_u32(data, at + 6)) {
        (Some(before), Some(after)) => (before, after),
        _ => {
            return None;
        },
    };
    Some(
        Request {
            pattern,
            ignore_case: data[at] != 0,
            mode: data[at + 1],
            before,
            after,
            color_always: data[at + 10] != 0,
        },
    )
}

/// The 32 bits of a signed number.
pub open spec fn exit_bits(exit: i32) -> nat {
    if exit >= 0 {
        exit as nat
    } else {
        (exit + 0x1_0000_0000) as nat
    }
}

/// The signed number with these 32 bits.
pub open spec fn bits_exit(bits: nat) -> int {
    if bits < 0x8000_0000 {
        bits as int
    } else {
        bits - 0x1_0000_0000
    }
}

/// A response on the wire: the exit code, then the output behind its length.
pub open spec fn response_bytes(exit: i32, output: Seq<u8>) -> Seq<u8> {
    le_bytes(exit_bits(exit), 4) + le_bytes(output.len(), 4) + output
}

/// The exit code and the length of the output that a response starts with.
pub open spec fn response_head(data: Seq<u8>) -> Option<(int, nat)> {
    if data.len() < 8 {
        None
    } else {
        Some((bits_exit(le_value(data.take(4))), le_value(data.subrange(4, 8))))
    }
}

/// The response to a search.
pub fn encode_response(exit: i32, output: &[u8]) -> (out: Vec<u8>)
    ensures
        out@ == response_bytes(exit, output@),
{
    let mut out: Vec<u8> = Vec::new();
    let bits: u32 = if exit >= 0 {
        exit as u32
    } else {
        u32::MAX - (-(exit + 1)) as u32
    };
    push_u32(&mut out, bits);
    push_le(&mut out, output.len() as u64, 4);
    out.extend_from_slice(output);
    assert(out@ =~= response_bytes(exit, output@));
    out
}

/// Read the start of a response: the exit code and how many bytes of output
/// follow.
pub fn decode_response_head(data: &[u8]) -> (out: Option<(i32, u32)>)
    ensures
        out is Some <==> response_head(data@) is Some,
        out matches Some((exit, len)) ==> response_head(data@) == Some((exit as int, len as nat)),
{
    match (read_u32(data, 0), data.len() >= 8) {
        (Some(bits), true) => {
            assert(data@.subrange(0, 4) =~= data@.take(4));
            match read_u32(data, 4) {
                Some(len) => {
                    let exit: i32 = if bits < 0x8000_0000 {
                        bits as i32
                    } else {
                        -((u32::MAX - bits) as i32) - 1
                    };
                    Some((exit, len))
                },
                None => None,
            }
        },
        _ => None,
    }
}

/// A response is read back as it was sent: its head gives the exit code and
/// the length of the output, and the output follows.
pub proof fn response_round_trip(exit: i32, output: Seq<u8>)
    requires
        output.len() < 0x1_0000_0000,
    ensures
        response_head(response_bytes(exit, output)) == Some((exit as int, output.len())),
        response_bytes(exit, output).skip(8) == output,
{
    let data = response_bytes(exit, output);
    lemma_capacity();
    lemma_le_round_trip(exit_bits(exit), 4);
    lemma_le_round_trip(output.len(), 4);
    assert(data.take(4) =~= le_bytes(exit_bits(exit), 4));
    assert(data.subrange(4, 8) =~= le_bytes(output.len(), 4));
    assert(data.skip(8) =~= output);
}

/// The name of the directory that holds the index of a root.
pub open spec fn state_dir(root: Seq<u8>) -> Seq<u8> {
    joined(root, encode_utf8(".instantgrep"@))
}

/// The directory that holds the index of a root.
pub fn index_dir(root: &[u8]) -> (out: Vec<u8>)
    ensures
        out@ == state_dir(root@),
        out@ == joined(root@, encode_utf8(".instantgrep"@)),
{
    join(root, ".instantgrep".as_bytes())
}

/// The index file of a root: `<root>/.instantgrep/index.bin`.
pub fn index_path(root: &[u8]) -> (out: Vec<u8>)
    ensures
        out@ == joined(state_dir(root@), encode_utf8("index.bin"@)),
{
    join(&index_dir(root), "index.bin".as_bytes())
}

/// Socket path for a canonical `root`: `<root>/.instantgrep/daemon.sock`.
pub fn socket_path(root: &[u8]) -> (out: Vec<u8>)
    ensures
        out@ == joined(state_dir(root@), encode_utf8("daemon.sock"@)),
{
    join(&index_dir(root), "daemon.sock".as_bytes())
}

/// Two options ask for the same search and the same output: what counts of the
/// colour is only whether it is always on.
pub open spec fn alike(a: SearchOptions, b: SearchOptions) -> bool {
    &&& a.mode == b.mode
    &&& a.before == b.before
    &&& a.after == b.after
    &&& (a.color == ColorWhen::Always) == (b.color == ColorWhen::Always)
}

proof fn lemma_entries_alike(bytes: Seq<u8>, spans: Seq<(usize, usize)>, a: SearchOptions, b: SearchOptions, n: nat)
    requires
        alike(a, b),
    ensures
        entries_upto(bytes, spans, a, n) == entries_upto(bytes, spans, b, n),
    decreases n,
{
    if n > 0 {
        lemma_entries_alike(bytes, spans, a, b, (n - 1) as nat);
    }
}

proof fn lemma_hits_alike(files: Seq<SourceFile>, pattern: Seq<char>, a: SearchOptions, b: SearchOptions)
    requires
        alike(a, b),
    ensures
        hits_of(files, pattern, a) == hits_of(files, pattern, b),
    decreases files.len(),
{
    if files.len() > 0 {
        lemma_hits_alike(files.drop_last(), pattern, a, b);
        if let Some(bytes) = files.last().bytes {
            let spans = match_spans(pattern, bytes@);
            lemma_entries_alike(bytes@, spans, a, b, line_starts(bytes@).len());
        }
    }
}

proof fn lemma_lines_alike(path: Seq<u8>, entries: Seq<EntrySpec>, a: SearchOptions, b: SearchOptions)
    requires
        alike(a, b),
    ensures
        entry_lines(path, entries, a) == entry_lines(path, entries, b),
    decreases entries.len(),
{
    if entries.len() > 0 {
        lemma_lines_alike(path, entries.drop_last(), a, b);
    }
}

proof fn lemma_output_alike(results: Seq<FileSpec>, root: Seq<u8>, a: SearchOptions, b: SearchOptions)
    requires
        alike(a, b),
    ensures
        output_of(results, root, a) == output_of(results, root, b),
    decreases results.len(),
{
    if results.len() > 0 {
        lemma_output_alike(results.drop_last(), root, a, b);
        lemma_lines_alike(lossy(joined(root, results.last().rel_path)), results.last().entries, a, b);
    }
}

/// The options that a request carries are alike to those it was made from, so a
/// search with them prints the same.
proof fn lemma_served_output(
    files: Seq<SourceFile>,
    root: Seq<u8>,
    pattern: Seq<char>,
    ignore_case: bool,
    opts: SearchOptions,
)
    requires
        opts.before <= u32::MAX,
        opts.after <= u32::MAX,
    ensures
        ({
            let served = request_for(pattern, ignore_case, opts).opts();
            let source = effective_pattern(pattern, ignore_case);
            &&& alike(served, opts)
            &&& output_of(hits_of(files, source, served), root, served) == output_of(
                hits_of(files, source, opts),
                root,
                opts,
            )
        }),
{
    let served = request_for(pattern, ignore_case, opts).opts();
    let source = effective_pattern(pattern, ignore_case);
    lemma_hits_alike(files, source, served, opts);
    lemma_output_alike(hits_of(files, source, opts), root, served, opts);
}

/// A request that was encoded is read back as it was.
pub proof fn request_round_trip(r: RequestSpec)
    requires
        encode_utf8(r.pattern).len() < 0x1_0000_0000,
    ensures
        request_at_start(request_bytes(r)) == Some(r),
{
    lemma_request_fields(r);
    text_is_shown_as_it_is(seq![], r.pattern);
    assert(request_at_start(request_bytes(r))->0 =~= r);
}

/// What a search prints and how it exits: the files that the index admits, as
/// they are in `tree`, are matched and written as the options say.
pub open spec fn answers(
    index: Index,
    tree: Map<Seq<u8>, Seq<u8>>,
    root: Seq<u8>,
    pattern: Seq<char>,
    ignore_case: bool,
    opts: SearchOptions,
    exit: i32,
    output: Seq<u8>,
) -> bool {
    let source = effective_pattern(pattern, ignore_case);
    exists|files: Seq<SourceFile>| #[trigger]
        reads(files, candidates(index, search_query(pattern, ignore_case)), tree) && output == output_of(
            hits_of(files, source, opts),
            root,
            opts,
        ) && exit == exit_for(output)
}

/// A client of the daemon gets the exit code and the bytes of the one-shot run.
/// The request for a search is read back by the daemon as it was sent; what the
/// daemon answers to it, `exit` and `output`, is what the search itself gives;
/// and the client reads both from the response, the output behind its head.
pub proof fn daemon_output_is_identical(
    index: Index,
    tree: Map<Seq<u8>, Seq<u8>>,
    root: Seq<u8>,
    pattern: Seq<char>,
    ignore_case: bool,
    opts: SearchOptions,
    exit: i32,
    output: Seq<u8>,
)
    requires
        encode_utf8(pattern).len() < 0x1_0000_0000,
        opts.before <= u32::MAX,
        opts.after <= u32::MAX,
        output.len() < 0x1_0000_0000,
    ensures
        ({
            let sent = request_for(pattern, ignore_case, opts);
            let response = response_bytes(exit, output);
            &&& request_at_start(request_bytes(sent)) == Some(sent)
            &&& answers(index, tree, root, sent.pattern, sent.ignore_case, sent.opts(), exit, output) <==> answers(
                index,
                tree,
                root,
                pattern,
                ignore_case,
                opts,
                exit,
                output,
            )
            &&& response_head(response) == Some((exit as int, output.len()))
            &&& response.skip(8) == output
        }),
{
    let sent = request_for(pattern, ignore_case, opts);
    let source = effective_pattern(pattern, ignore_case);
    let paths = candidates(index, search_query(pattern, ignore_case));
    request_round_trip(sent);
    response_round_trip(exit, output);
    assert forall|files: Seq<SourceFile>| #[trigger] reads(files, paths, tree) implies output_of(
        hits_of(files, source, sent.opts()),
        root,
        sent.opts(),
    ) == output_of(hits_of(files, source, opts), root, opts) by {
        lemma_served_output(files, root, pattern, ignore_case, opts);
    }
}

/// The first four bytes of a request say how many more belong to it.
pub proof fn requests_announce_their_length(r: RequestSpec)
    requires
        encode_utf8(r.pattern).len() < 0x1_0000_0000,
    ensures
        request_bytes(r).len() == 4 + le_value(request_bytes(r).take(4)) + 11,
        le_value(request_bytes(r).take(4)) == encode_utf8(r.pattern).len(),
{
    lemma_request_fields(r);
}

/// The options of a request are those that it was made with: the mode, the lines
/// around a match, and whether colour is always on.
pub proof fn requests_carry_the_options(pattern: Seq<char>, ignore_case: bool, opts: SearchOptions)
    requires
        opts.before <= u32::MAX,
        opts.after <= u32::MAX,
    ensures
        request_for(pattern, ignore_case, opts).pattern == pattern,
        request_for(pattern, ignore_case, opts).ignore_case == ignore_case,
        request_for(pattern, ignore_case, opts).opts().mode == opts.mode,
        request_for(pattern, ignore_case, opts).opts().before == opts.before,
        request_for(pattern, ignore_case, opts).opts().after == opts.after,
        request_for(pattern, ignore_case, opts).opts().color == if opts.color == ColorWhen::Always {
            ColorWhen::Always
        } else {
            ColorWhen::Never
        },
{
}

/// A mode byte that stands for no mode stands for the normal one.
pub proof fn unknown_modes_are_normal(byte: u8)
    ensures
        byte == 1 ==> byte_mode(byte) == SearchMode::Count,
        byte == 2 ==> byte_mode(byte) == SearchMode::FilesWithMatches,
        byte != 1 && byte != 2 ==> byte_mode(byte) == SearchMode::Normal,
{
}

/// A request is read if and only if all of it is there; what follows it makes no
/// difference.
pub proof fn requests_are_read_when_complete(data: Seq<u8>, more: Seq<u8>)
    ensures
        request_at_start(data) is Some <==> data.len() >= 4 && data.len() >= 4 + le_value(data.take(4)) + 11,
        request_at_start(data) is Some ==> request_at_start(data + more) == request_at_start(data),
{
    if request_at_start(data) is Some {
        let at = 4 + le_value(data.take(4)) as int;
        assert((data + more).take(4) =~= data.take(4));
        assert((data + more).subrange(4, at) =~= data.subrange(4, at));
        assert((data + more).subrange(at + 2, at + 6) =~= data.subrange(at + 2, at + 6));
        assert((data + more).subrange(at + 6, at + 10) =~= data.subrange(at + 6, at + 10));
    }
}

/// The start of a response is eight bytes: the exit code and the length of the
/// output, each in four; what follows makes no difference.
pub proof fn responses_start_with_eight_bytes(data: Seq<u8>, more: Seq<u8>)
    ensures
        response_head(data) is Some <==> data.len() >= 8,
        data.len() >= 8 ==> response_head(data + more) == response_head(data) && (response_head(data)->0).1 == le_value(
            data.subrange(4, 8),
        ),
{
    if data.len() >= 8 {
        assert((data + more).take(4) =~= data.take(4));
        assert((data + more).subrange(4, 8) =~= data.subrange(4, 8));
    }
}

} // verus!
