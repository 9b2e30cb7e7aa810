//! Text helpers: lossy decoding, decimal numbers, paths as byte strings.

use vstd::prelude::*;
use vstd::string::*;
use vstd::utf8::{decode_utf8, encode_utf8, valid_utf8};

verus! {

/// The text of a byte string that is not valid UTF-8, with each malformed part
/// replaced.
pub uninterp spec fn mended_text(bytes: Seq<u8>) -> Seq<char>;

/// The text that a byte string is shown as, with each malformed part replaced.
pub open spec fn lossy_text(bytes: Seq<u8>) -> Seq<char> {
    if valid_utf8(bytes) {
        decode_utf8(bytes)
    } else {
        mended_text(bytes)
    }
}

/// `String::from_utf8_lossy`: the text of `bytes`, unchanged where they are
/// valid UTF-8.
#[verifier::external_body]
pub(crate) fn decode_lossy(bytes: &[u8]) -> (text: String)
    ensures
        valid_utf8(bytes@) ==> text@ == decode_utf8(bytes@),
        !valid_utf8(bytes@) ==> text@ == mended_text(bytes@),
{
    String::from_utf8_lossy(bytes).into_owned()
}

/// `std::str::from_utf8`: `bytes` as text, if they are valid UTF-8.
#[verifier::external_body]
pub(crate) fn as_text(bytes: &[u8]) -> (text: Option<&str>)
    ensures
        text is Some <==> valid_utf8(bytes@),
        text matches Some(t) ==> encode_utf8(t@) == bytes@,
{
    std::str::from_utf8(bytes).ok()
}

/// The bytes that a byte string is shown as: its text, in UTF-8.
pub open spec fn lossy(bytes: Seq<u8>) -> Seq<u8> {
    encode_utf8(lossy_text(bytes))
}

/// Text in UTF-8 is shown as it is.
pub proof fn text_is_shown_as_it_is(bytes: Seq<u8>, text: Seq<char>)
    ensures
        valid_utf8(bytes) ==> lossy(bytes) == bytes,
        lossy_text(encode_utf8(text)) == text,
        lossy(lossy(bytes)) == lossy(bytes),
{
    broadcast use {
        vstd::utf8::encode_utf8_valid_utf8,
        vstd::utf8::encode_utf8_decode_utf8,
        vstd::utf8::decode_utf8_encode_utf8,
    };

}

/// Append the text of `bytes`.
pub fn push_lossy(out: &mut Vec<u8>, bytes: &[u8])
    ensures
        final(out)@ == old(out)@ + lossy(bytes@),
        valid_utf8(bytes@) ==> final(out)@ == old(out)@ + bytes@,
{
    let text = decode_lossy(bytes);
    proof {
        text_is_shown_as_it_is(bytes@, text@);
    }
    out.extend_from_slice(text.as_str().as_bytes());
}

/// The characters of Unicode's property White_Space.
pub open spec fn is_white_space(c: char) -> bool {
    let n = c as u32;
    ||| 0x9 <= n <= 0xd
    ||| n == 0x20
    ||| n == 0x85
    ||| n == 0xa0
    ||| n == 0x1680
    ||| 0x2000 <= n <= 0x200a
    ||| n == 0x2028
    ||| n == 0x2029
    ||| n == 0x202f
    ||| n == 0x205f
    ||| n == 0x3000
}

/// A text without the white space at its end.
pub open spec fn trimmed_end(text: Seq<char>) -> Seq<char>
    decreases text.len(),
{
    if text.len() > 0 && is_white_space(text.last()) {
        trimmed_end(text.drop_last())
    } else {
        text
    }
}

/// A text without the white space at its start.
pub open spec fn trimmed_start(text: Seq<char>) -> Seq<char>
    decreases text.len(),
{
    if text.len() > 0 && is_white_space(text[0]) {
        trimmed_start(text.skip(1))
    } else {
        text
    }
}

/// Whether a character is white space.
fn white_space(c: char) -> (out: bool)
    ensures
        out == is_white_space(c),
{
    let n = c as u32;
    (0x9 <= n && n <= 0xd) || n == 0x20 || n == 0x85 || n == 0xa0 || n == 0x1680 || (0x2000 <= n && n <= 0x200a) || n
        == 0x2028 || n == 0x2029 || n == 0x202f || n == 0x205f || n == 0x3000
}

/// The text without the white space at its end.
pub fn trim_end(text: &str) -> (out: &str)
    ensures
        out@ == trimmed_end(text@),
{
    let mut end = text.unicode_len();
    assert(text@.take(end as int) =~= text@);
    while end > 0 && white_space(text.get_char(end - 1))
        invariant
            end <= text@.len(),
            trimmed_end(text@.take(end as int)) == trimmed_end(text@),
        decreases end,
    {
        assert(text@.take(end as int).drop_last() =~= text@.take(end - 1));
        end -= 1;
    }
    text.substring_char(0, end)
}

/// The text without the white space at its start.
pub fn trim_start(text: &str) -> (out: &str)
    ensures
        out@ == trimmed_start(text@),
{
    let len = text.unicode_len();
    let mut start: usize = 0;
    assert(text@.skip(0) =~= text@);
    while start < len && white_space(text.get_char(start))
        invariant
            start <= len,
            len == text@.len(),
            trimmed_start(text@.skip(start as int)) == trimmed_start(text@),
        decreases len - start,
    {
        assert(text@.skip(start as int).skip(1) =~= text@.skip(start + 1));
        start += 1;
    }
    let out = text.substring_char(start, len);
    assert(out@ =~= text@.skip(start as int));
    out
}

/// A number in decimal digits.
pub open spec fn decimal(n: nat) -> Seq<u8>
    decreases n,
{
    if n < 10 {
        seq![(48 + n) as u8]
    } else {
        decimal(n / 10).push((48 + n % 10) as u8)
    }
}

/// Append a number in decimal digits.
pub fn push_decimal(out: &mut Vec<u8>, n: u64)
    ensures
        final(out)@ == old(out)@ + decimal(n as nat),
    decreases n,
{
    if n >= 10 {
        push_decimal(out, n / 10);
    }
    out.push(48 + (n % 10) as u8);
    assert(out@ =~= old(out)@ + decimal(n as nat));
}

/// `rel` taken relative to the directory `base`: an absolute path stands for
/// itself, and one `/` separates the two.
pub open spec fn joined(base: Seq<u8>, rel: Seq<u8>) -> Seq<u8> {
    if rel.len() > 0 && rel[0] == 47 {
        rel
    } else if base.len() == 0 || base.last() == 47 {
        base + rel
    } else {
        base.push(47) + rel
    }
}

/// Join two paths.
pub fn join(base: &[u8], rel: &[u8]) -> (out: Vec<u8>)
    ensures
        out@ == joined(base@, rel@),
{
    let mut out: Vec<u8> = Vec::with_capacity(base.len());
    if rel.len() == 0 || rel[0] != 47 {
        out.extend_from_slice(base);
        if base.len() > 0 && base[base.len() - 1] != 47 {
            out.push(47);
        }
    }
    out.extend_from_slice(rel);
    assert(out@ =~= joined(base@, rel@));
    out
}

/// Whether two texts are the same.
pub fn same_text(a: &str, b: &str) -> (out: bool)
    ensures
        out == (a@ == b@),
{
    let out = crate::strings::bytes_equal(a.as_bytes(), b.as_bytes());
    proof {
        vstd::utf8::encode_utf8_decode_utf8(a@);
        vstd::utf8::encode_utf8_decode_utf8(b@);
    }
    out
}

/// Trimming takes white space from one end, all of it and nothing else: what is
/// left is the front or the back of the text, the rest is white space, and what is
/// left does not end, or start, with any.
pub proof fn trimming_takes_white_space_alone(text: Seq<char>)
    ensures
        trimmed_end(text).is_prefix_of(text),
        forall|i: int| trimmed_end(text).len() <= i < text.len() ==> is_white_space(#[trigger] text[i]),
        trimmed_end(text).len() > 0 ==> !is_white_space(trimmed_end(text).last()),
        trimmed_start(text).is_suffix_of(text),
        forall|i: int| 0 <= i < text.len() - trimmed_start(text).len() ==> is_white_space(#[trigger] text[i]),
        trimmed_start(text).len() > 0 ==> !is_white_space(trimmed_start(text)[0]),
    decreases text.len(),
{
    if text.len() > 0 {
        let init = text.drop_last();
        let rest = text.skip(1);
        trimming_takes_white_space_alone(init);
        trimming_takes_white_space_alone(rest);
        assert forall|i: int| 0 <= i < init.len() implies #[trigger] text[i] == init[i] by {}
        assert forall|i: int| 0 < i < text.len() implies #[trigger] text[i] == rest[i - 1] by {}
        if is_white_space(text.last()) {
            let out = trimmed_end(text);
            assert forall|i: int| out.len() <= i < text.len() implies is_white_space(#[trigger] text[i]) by {
                if i < init.len() {
                    assert(is_white_space(init[i]));
                }
            }
            assert(out =~= text.take(out.len() as int));
        }
        if is_white_space(text[0]) {
            let out = trimmed_start(text);
            let n = text.len() - out.len();
            assert forall|i: int| 0 <= i < n implies is_white_space(#[trigger] text[i]) by {
                if i > 0 {
                    assert(is_white_space(rest[i - 1]));
                }
            }
            assert(out =~= text.skip(n));
        }
    }
}

/// The white space of Unicode: the control characters from tab to carriage return
/// and next line, and the characters of the categories for spaces, lines and
/// paragraphs.
pub proof fn white_space_is_that_of_unicode(c: char)
    ensures
        is_white_space(c) <==> seq![
            0x9u32, 0xa, 0xb, 0xc, 0xd, 0x20, 0x85, 0xa0, 0x1680, 0x2000, 0x2001, 0x2002, 0x2003, 0x2004, 0x2005, 0x2006,
            0x2007, 0x2008, 0x2009, 0x200a, 0x2028, 0x2029, 0x202f, 0x205f, 0x3000,
        ].contains(c as u32),
{
    let n = c as u32;
    let all = seq![
        0x9u32, 0xa, 0xb, 0xc, 0xd, 0x20, 0x85, 0xa0, 0x1680, 0x2000, 0x2001, 0x2002, 0x2003, 0x2004, 0x2005, 0x2006,
        0x2007, 0x2008, 0x2009, 0x200a, 0x2028, 0x2029, 0x202f, 0x205f, 0x3000,
    ];
    if is_white_space(c) {
        assert(all[0] == n || all[1] == n || all[2] == n || all[3] == n || all[4] == n || all[5] == n || all[6] == n || all[7]
            == n || all[8] == n || all[9] == n || all[10] == n || all[11] == n || all[12] == n || all[13] == n || all[14]
            == n || all[15] == n || all[16] == n || all[17] == n || all[18] == n || all[19] == n || all[20] == n || all[21]
            == n || all[22] == n || all[23] == n || all[24] == n);
    }
    if all.contains(n) {
        let i = choose|i: int| 0 <= i < all.len() && all[i] == n;
        assert(all[i] == n);
    }
}

/// A path in a directory starts with the directory and ends with the path, with a
/// slash between the two unless there is one, or nothing, in front; one that starts
/// from the root stands for itself.
pub proof fn paths_are_joined_by_one_slash(base: Seq<u8>, rel: Seq<u8>)
    ensures
        rel.len() > 0 && rel[0] == 47 ==> joined(base, rel) == rel,
        !(rel.len() > 0 && rel[0] == 47) && base.len() > 0 && base.last() != 47 ==> joined(base, rel).len() == base.len()
            + 1 + rel.len() && joined(base, rel)[base.len() as int] == 47 && joined(base, rel).take(base.len() as int)
            == base && joined(base, rel).skip((base.len() + 1) as int) == rel,
        !(rel.len() > 0 && rel[0] == 47) && (base.len() == 0 || base.last() == 47) ==> joined(base, rel).take(
            base.len() as int,
        ) == base && joined(base, rel).skip(base.len() as int) == rel,
{
    let out = joined(base, rel);
    if !(rel.len() > 0 && rel[0] == 47) {
        assert(out.take(base.len() as int) =~= base);
        if base.len() == 0 || base.last() == 47 {
            assert(out.skip(base.len() as int) =~= rel);
        } else {
            assert(out.skip((base.len() + 1) as int) =~= rel);
        }
    }
}

/// A number is written in digits, the first of which is no zero unless it is the
/// only one; ten times a number and a digit more is that digit behind it.
pub proof fn numbers_are_written_digit_by_digit(n: nat, d: nat)
    requires
        d < 10,
    ensures
        decimal(n).len() > 0,
        forall|i: int| 0 <= i < decimal(n).len() ==> 48 <= #[trigger] decimal(n)[i] <= 57,
        n > 0 ==> decimal(n)[0] != 48,
        decimal(d) == seq![(48 + d) as u8],
        n > 0 ==> decimal(10 * n + d) == decimal(n).push((48 + d) as u8),
    decreases n,
{
    if n >= 10 {
        numbers_are_written_digit_by_digit(n / 10, d);
        let less = decimal(n / 10);
        assert forall|i: int| 0 <= i < decimal(n).len() implies 48 <= #[trigger] decimal(n)[i] <= 57 by {
            if i < less.len() {
                assert(less[i] == decimal(n)[i]);
            }
        }
        assert(decimal(n)[0] == less[0]);
    }
    assert((10 * n + d) / 10 == n && (10 * n + d) % 10 == d);
}

} // verus!
