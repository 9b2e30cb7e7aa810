//! Little-endian integers in byte strings.

use vstd::prelude::*;

verus! {

/// The `n` lowest bytes of `x`, the lowest first.
pub open spec fn le_bytes(x: nat, n: nat) -> Seq<u8>
    decreases n,
{
    if n == 0 {
        Seq::empty()
    } else {
        seq![(x % 256) as u8] + le_bytes(x / 256, (n - 1) as nat)
    }
}

/// The number whose bytes, the lowest first, are `s`.
pub open spec fn le_value(s: Seq<u8>) -> nat
    decreases s.len(),
{
    if s.len() == 0 {
        0
    } else {
        s[0] as nat + 256 * le_value(s.drop_first())
    }
}

/// How many numbers `n` bytes can hold.
pub open spec fn capacity(n: nat) -> nat
    decreases n,
{
    if n == 0 {
        1
    } else {
        256 * capacity((n - 1) as nat)
    }
}

/// Bytes written are read back: a number that fits in `n` bytes is what they
/// stand for.
pub proof fn lemma_le_round_trip(x: nat, n: nat)
    requires
        x < capacity(n),
    ensures
        le_bytes(x, n).len() == n,
        le_value(le_bytes(x, n)) == x,
    decreases n,
{
    if n > 0 {
        lemma_le_round_trip(x / 256, (n - 1) as nat);
        let rest = le_bytes(x / 256, (n - 1) as nat);
        assert(le_bytes(x, n).drop_first() =~= rest);
    }
}

pub proof fn lemma_le_len(x: nat, n: nat)
    ensures
        le_bytes(x, n).len() == n,
    decreases n,
{
    if n > 0 {
        lemma_le_len(x / 256, (n - 1) as nat);
    }
}

pub proof fn lemma_le_value_bound(s: Seq<u8>)
    ensures
        le_value(s) < capacity(s.len()),
    decreases s.len(),
{
    if s.len() > 0 {
        lemma_le_value_bound(s.drop_first());
    }
}

pub proof fn lemma_capacity()
    ensures
        capacity(1) == 0x100,
        capacity(4) == 0x1_0000_0000,
        capacity(8) == 0x1_0000_0000_0000_0000,
{
    reveal_with_fuel(capacity, 9);
}

/// Append the `n` lowest bytes of `x`, the lowest first.
pub fn push_le(out: &mut Vec<u8>, x: u64, n: usize)
    ensures
        final(out)@ == old(out)@ + le_bytes(x as nat, n as nat),
    decreases n,
{
    if n > 0 {
        out.push((x % 256) as u8);
        push_le(out, x / 256, n - 1);
    }
    assert(out@ =~= old(out)@ + le_bytes(x as nat, n as nat));
}

/// Append a `u32`.
pub fn push_u32(out: &mut Vec<u8>, x: u32)
    ensures
        final(out)@ == old(out)@ + le_bytes(x as nat, 4),
{
    push_le(out, x as u64, 4)
}

/// Append a `u64`.
pub fn push_u64(out: &mut Vec<u8>, x: u64)
    ensures
        final(out)@ == old(out)@ + le_bytes(x as nat, 8),
{
    push_le(out, x, 8)
}

/// The number in the `n` bytes of `data` from `pos` on.
fn read_le(data: &[u8], pos: usize, n: usize) -> (x: u64)
    requires
        n <= 8,
        pos + n <= data@.len(),
    ensures
        x == le_value(data@.subrange(pos as int, pos + n)),
    decreases n,
{
    if n == 0 {
        return 0;
    }
    assert(pos < data.len());
    let rest = read_le(data, pos + 1, n - 1);
    proof {
        let s = data@.subrange(pos as int, pos + n);
        assert(s.drop_first() =~= data@.subrange(pos + 1, pos + n));
        lemma_le_value_bound(s.drop_first());
        reveal_with_fuel(capacity, 9);
    }
    data[pos] as u64 + 256 * rest
}

/// The `u32` at `pos`, if `data` is long enough.
pub fn read_u32(data: &[u8], pos: usize) -> (x: Option<u32>)
    requires
        pos <= data@.len(),
    ensures
        x is Some <==> pos + 4 <= data@.len(),
        x matches Some(v) ==> v == le_value(data@.subrange(pos as int, pos + 4)),
{
    if data.len() - pos < 4 {
        return None;
    }
    proof {
        lemma_le_value_bound(data@.subrange(pos as int, pos + 4));
        lemma_capacity();
    }
    Some(read_le(data, pos, 4) as u32)
}

/// The `u64` at `pos`, if `data` is long enough.
pub fn read_u64(data: &[u8], pos: usize) -> (x: Option<u64>)
    requires
        pos <= data@.len(),
    ensures
        x is Some <==> pos + 8 <= data@.len(),
        x matches Some(v) ==> v == le_value(data@.subrange(pos as int, pos + 8)),
{
    if data.len() - pos < 8 {
        return None;
    }
    Some(read_le(data, pos, 8))
}

/// The two's complement bits of a signed number.
pub open spec fn signed_bits(x: i64) -> u64 {
    if x >= 0 {
        x as u64
    } else {
        (x + 0x1_0000_0000_0000_0000) as u64
    }
}

/// The signed number with these two's complement bits.
pub open spec fn signed_value(bits: u64) -> i64 {
    if bits < 0x8000_0000_0000_0000 {
        bits as i64
    } else {
        (bits - 0x1_0000_0000_0000_0000) as i64
    }
}

/// The two's complement bits of a signed number.
pub fn to_bits(x: i64) -> (bits: u64)
    ensures
        bits == signed_bits(x),
        signed_value(bits) == x,
{
    if x >= 0 {
        x as u64
    } else {
        u64::MAX - (-(x + 1)) as u64
    }
}

/// The signed number with these two's complement bits.
pub fn from_bits(bits: u64) -> (x: i64)
    ensures
        x == signed_value(bits),
{
    if bits < 0x8000_0000_0000_0000 {
        bits as i64
    } else {
        -((u64::MAX - bits) as i64) - 1
    }
}

/// The bytes of a number are its remainders by 256, the lowest first; bytes at the
/// end count 256 times as much for each byte in front of them.
pub proof fn bytes_are_digits_to_the_base_256(x: nat, n: nat, s: Seq<u8>, b: u8)
    ensures
        n > 0 ==> le_bytes(x, n)[0] == x % 256 && le_bytes(x, n).drop_first() == le_bytes(x / 256, (n - 1) as nat),
        le_bytes(x, n).len() == n,
        le_value(s.push(b)) == le_value(s) + capacity(s.len()) * b,
        le_value(Seq::empty()) == 0,
    decreases s.len(),
{
    lemma_le_len(x, n);
    if n > 0 {
        assert(le_bytes(x, n).drop_first() =~= le_bytes(x / 256, (n - 1) as nat));
    }
    if s.len() == 0 {
        reveal_with_fuel(le_value, 2);
        assert(s.push(b).drop_first() =~= Seq::empty());
        assert(capacity(0) * b == b) by (nonlinear_arith)
            requires
                capacity(0) == 1,
        ;
    } else {
        let rest = s.drop_first();
        bytes_are_digits_to_the_base_256(x, n, rest, b);
        assert(s.push(b).drop_first() =~= rest.push(b));
        assert(s.push(b)[0] == s[0]);
        assert(256 * (le_value(rest) + capacity(rest.len()) * b) == 256 * le_value(rest) + (256 * capacity(rest.len()))
            * b) by (nonlinear_arith);
    }
}

} // verus!
