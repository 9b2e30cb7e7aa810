//! Trigram primitives.
//!
//! A trigram is three bytes packed into a `u32` (big-endian byte order so that
//! sorting `u32` keys sorts trigrams lexicographically). The index stores, per
//! trigram, the set of file ids that contain it (see [`crate::index`]).

use rustc_hash::FxHashSet;
use vstd::prelude::*;

use crate::fx;

verus! {

pub type Trigram = u32;

/// The trigram that packs `a`, `b` and `c`, the first byte most significant.
pub open spec fn pack(a: u8, b: u8, c: u8) -> Trigram {
    (a * 0x10000 + b * 0x100 + c) as u32
}

/// All overlapping trigrams of a byte string, in order.
pub open spec fn trigrams(bytes: Seq<u8>) -> Seq<Trigram> {
    Seq::new(
        if bytes.len() < 3 { 0 } else { (bytes.len() - 2) as nat },
        |i: int| pack(bytes[i], bytes[i + 1], bytes[i + 2]),
    )
}

/// The trigrams that a byte string contains.
pub open spec fn trigram_set(bytes: Seq<u8>) -> Set<Trigram> {
    trigrams(bytes).to_set()
}

/// `b` with an ASCII upper-case letter made lower-case.
pub open spec fn lower_byte(b: u8) -> u8 {
    if 65 <= b <= 90 {
        (b + 32) as u8
    } else {
        b
    }
}

/// A byte string with its ASCII letters made lower-case.
pub open spec fn lower(bytes: Seq<u8>) -> Seq<u8> {
    bytes.map_values(|b: u8| lower_byte(b))
}

/// The trigrams of a byte string and of its ASCII-lowercased form.
pub open spec fn folded_set(bytes: Seq<u8>) -> Set<Trigram> {
    trigram_set(bytes).union(trigram_set(lower(bytes)))
}

/// Pack three bytes into a trigram key.
pub fn encode(a: u8, b: u8, c: u8) -> (t: Trigram)
    ensures
        t == pack(a, b, c),
{
    let (x, y, z): (u32, u32, u32) = (a as u32, b as u32, c as u32);
    assert((x << 16) | (y << 8) | z == x * 0x10000 + y * 0x100 + z) by (bit_vector)
        requires
            x < 256,
            y < 256,
            z < 256,
    ;
    (x << 16) | (y << 8) | z
}

/// The trigram of the first three bytes.
pub fn encode_slice(bytes: &[u8]) -> (t: Trigram)
    requires
        bytes@.len() >= 3,
    ensures
        t == pack(bytes@[0], bytes@[1], bytes@[2]),
{
    encode(bytes[0], bytes[1], bytes[2])
}

/// All overlapping trigrams of a byte slice, in order.
pub fn extract_ordered(bytes: &[u8]) -> (out: Vec<Trigram>)
    ensures
        out@ == trigrams(bytes@),
{
    let mut out: Vec<Trigram> = Vec::new();
    if bytes.len() < 3 {
        return out;
    }
    let mut i: usize = 0;
    while i < bytes.len() - 2
        invariant
            3 <= bytes@.len(),
            i <= bytes@.len() - 2,
            out@ =~= trigrams(bytes@).take(i as int),
        decreases bytes@.len() - i,
    {
        out.push(encode(bytes[i], bytes[i + 1], bytes[i + 2]));
        i += 1;
    }
    out
}

/// The distinct trigrams a byte slice contains.
pub fn extract_distinct(bytes: &[u8]) -> (out: FxHashSet<Trigram>)
    ensures
        out@ == trigram_set(bytes@),
{
    let mut out: FxHashSet<Trigram> = FxHashSet::default();
    let all: Vec<Trigram> = extract_ordered(bytes);
    let mut i: usize = 0;
    while i < all.len()
        invariant
            i <= all@.len(),
            out@ == all@.take(i as int).to_set(),
        decreases all@.len() - i,
    {
        fx::set_insert(&mut out, all[i]);
        proof {
            all@.lemma_take_succ_push(i as int);
            all@.take(i as int).lemma_push_to_set_commute(all@[i as int]);
        }
        i += 1;
    }
    assert(all@.take(i as int) =~= all@);
    out
}

/// Make an ASCII letter lower-case.
pub fn lower_ascii(b: u8) -> (out: u8)
    ensures
        out == lower_byte(b),
{
    if 65 <= b && b <= 90 {
        b + 32
    } else {
        b
    }
}

/// Distinct trigrams plus their ASCII-lowercased counterparts, so a single
/// index can serve both case-sensitive and case-insensitive queries.
///
/// Lowercasing is ASCII-only: full Unicode case folding on raw bytes is not
/// sound, and the overwhelming majority of source-code trigrams are ASCII.
/// Matching itself is delegated to the (Unicode-aware) regex engine, so this
/// only affects candidate pruning and is always conservative.
pub fn extract_distinct_folded(bytes: &[u8]) -> (out: FxHashSet<Trigram>)
    ensures
        out@ == folded_set(bytes@),
{
    let mut out: FxHashSet<Trigram> = FxHashSet::default();
    let ghost plain = trigrams(bytes@);
    let ghost low = trigrams(lower(bytes@));
    if bytes.len() < 3 {
        assert(out@ =~= folded_set(bytes@));
        return out;
    }
    let mut i: usize = 0;
    while i < bytes.len() - 2
        invariant
            3 <= bytes@.len(),
            i <= bytes@.len() - 2,
            plain == trigrams(bytes@),
            low == trigrams(lower(bytes@)),
            out@ == plain.take(i as int).to_set().union(low.take(i as int).to_set()),
        decreases bytes@.len() - i,
    {
        let (a, b, c): (u8, u8, u8) = (bytes[i], bytes[i + 1], bytes[i + 2]);
        fx::set_insert(&mut out, encode(a, b, c));
        fx::set_insert(&mut out, encode(lower_ascii(a), lower_ascii(b), lower_ascii(c)));
        proof {
            plain.lemma_take_succ_push(i as int);
            low.lemma_take_succ_push(i as int);
            plain.take(i as int).lemma_push_to_set_commute(plain[i as int]);
            low.take(i as int).lemma_push_to_set_commute(low[i as int]);
            assert(out@ =~= plain.take(i + 1).to_set().union(low.take(i + 1).to_set()));
        }
        i += 1;
    }
    assert(plain.take(i as int) =~= plain);
    assert(low.take(i as int) =~= low);
    out
}

/// Trigrams required by a literal of three or more bytes (empty if too short).
pub fn literal_trigrams(literal: &[u8]) -> (out: Vec<Trigram>)
    ensures
        out@ == trigrams(literal@),
{
    extract_ordered(literal)
}

/// Packing loses nothing, and keys are ordered as the byte triples are: by the
/// first byte, then the second, then the third.
pub proof fn pack_preserves_order(a: u8, b: u8, c: u8, x: u8, y: u8, z: u8)
    ensures
        pack(a, b, c) == pack(x, y, z) <==> (a == x && b == y && c == z),
        pack(a, b, c) < pack(x, y, z) <==> (a < x || (a == x && (b < y || (b == y && c < z)))),
{
}

/// A byte string contains every trigram of each of its substrings.
pub proof fn substring_trigrams(text: Seq<u8>, start: int, end: int)
    requires
        0 <= start <= end <= text.len(),
    ensures
        trigram_set(text.subrange(start, end)).subset_of(trigram_set(text)),
{
    let part = text.subrange(start, end);
    assert forall|t: Trigram| trigram_set(part).contains(t) implies trigram_set(text).contains(t) by {
        let i = choose|i: int| 0 <= i < trigrams(part).len() && trigrams(part)[i] == t;
        assert(trigrams(text)[start + i] == t);
    }
}

/// The folded set holds the plain trigrams, so a query that the plain set
/// satisfies is never pruned by folding, and it holds those of the lowercased
/// text.
pub proof fn folding_only_adds(bytes: Seq<u8>)
    ensures
        trigram_set(bytes).subset_of(folded_set(bytes)),
        trigram_set(lower(bytes)).subset_of(folded_set(bytes)),
{
}

/// A trigram holds its three bytes, the first at the top.
pub proof fn trigrams_hold_their_bytes(a: u8, b: u8, c: u8)
    ensures
        pack(a, b, c) / 0x10000 == a,
        pack(a, b, c) / 0x100 % 0x100 == b,
        pack(a, b, c) % 0x100 == c,
{
}

/// Of the bytes only the letters from `A` to `Z` change, each to the letter that
/// stands 32 places behind it.
pub proof fn only_capital_letters_change(b: u8)
    ensures
        lower_byte(b) != b <==> 65 <= b <= 90,
        lower_byte(b) != b ==> lower_byte(b) == b + 32,
        lower_byte(lower_byte(b)) == lower_byte(b),
{
}

/// The trigrams of a byte string are those of the three bytes at each place.
pub proof fn trigrams_slide_over_the_bytes(bytes: Seq<u8>, i: int)
    ensures
        trigrams(bytes).len() == if bytes.len() < 3 {
            0
        } else {
            bytes.len() - 2
        },
        0 <= i < bytes.len() - 2 ==> trigrams(bytes)[i] == bytes[i] * 0x10000 + bytes[i + 1] * 0x100 + bytes[i + 2],
        lower(bytes).len() == bytes.len(),
        0 <= i < bytes.len() ==> lower(bytes)[i] == lower_byte(bytes[i]),
{
}

} // verus!
