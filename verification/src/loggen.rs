//! Synthetic log lines for benchmarks.
//!
//! Lines are drawn from a fixed set of templates by a linear congruential
//! generator, so the same seed always gives the same lines.

use vstd::prelude::*;
use vstd::slice::slice_subrange;
use vstd::string::*;
use vstd::utf8::encode_utf8;

use crate::strings::{bytes_equal, strings_of};
use crate::text::{decimal, push_decimal};

verus! {

/// The state that follows `seed`.
pub open spec fn next_seed(seed: u64) -> u64 {
    seed.wrapping_mul(6364136223846793005).wrapping_add(1442695040888963407)
}

/// The number drawn when the state becomes `seed`: its upper 31 bits.
pub open spec fn drawn(seed: u64) -> u64 {
    seed >> 33
}

/// Advance the state and draw a number.
pub fn rand(seed: &mut u64) -> (out: u64)
    ensures
        *final(seed) == next_seed(*old(seed)),
        out == drawn(*final(seed)),
        out < 0x8000_0000,
{
    *seed = seed.wrapping_mul(6364136223846793005).wrapping_add(1442695040888963407);
    let s: u64 = *seed;
    assert(s >> 33 < 0x8000_0000) by (bit_vector);
    s >> 33
}

/// Draw a position below `n`.
pub fn pick(seed: &mut u64, n: usize) -> (out: usize)
    requires
        n > 0,
    ensures
        *final(seed) == next_seed(*old(seed)),
        out == drawn(*final(seed)) % (n as u64),
        out < n,
{
    let r: u64 = rand(seed);
    (r % n as u64) as usize
}

/// Severities.
pub open spec fn level_text(i: int) -> Seq<char> {
    if i == 0 {
        "INFO"@
    } else if i == 1 {
        "DEBUG"@
    } else if i == 2 {
        "WARN"@
    } else if i == 3 {
        "ERROR"@
    } else {
        "TRACE"@
    }
}

/// Severities.
fn level(i: usize) -> (out: &'static str)
    ensures
        out@ == level_text(i as int),
{
    if i == 0 {
        "INFO"
    } else if i == 1 {
        "DEBUG"
    } else if i == 2 {
        "WARN"
    } else if i == 3 {
        "ERROR"
    } else {
        "TRACE"
    }
}

/// Modules.
pub open spec fn module_text(i: int) -> Seq<char> {
    if i == 0 {
        "auth"@
    } else if i == 1 {
        "db"@
    } else if i == 2 {
        "api"@
    } else if i == 3 {
        "cache"@
    } else if i == 4 {
        "queue"@
    } else if i == 5 {
        "scheduler"@
    } else if i == 6 {
        "web"@
    } else if i == 7 {
        "rpc"@
    } else if i == 8 {
        "worker"@
    } else {
        "health"@
    }
}

/// Modules.
fn module(i: usize) -> (out: &'static str)
    ensures
        out@ == module_text(i as int),
{
    if i == 0 {
        "auth"
    } else if i == 1 {
        "db"
    } else if i == 2 {
        "api"
    } else if i == 3 {
        "cache"
    } else if i == 4 {
        "queue"
    } else if i == 5 {
        "scheduler"
    } else if i == 6 {
        "web"
    } else if i == 7 {
        "rpc"
    } else if i == 8 {
        "worker"
    } else {
        "health"
    }
}

/// Mail domains.
pub open spec fn domain_text(i: int) -> Seq<char> {
    if i == 0 {
        "example.com"@
    } else if i == 1 {
        "test.org"@
    } else {
        "corp.net"@
    }
}

/// Mail domains.
fn domain(i: usize) -> (out: &'static str)
    ensures
        out@ == domain_text(i as int),
{
    if i == 0 {
        "example.com"
    } else if i == 1 {
        "test.org"
    } else {
        "corp.net"
    }
}

/// What is drawn from `seed`: the bytes and the state afterwards.
pub type Drawn = (Seq<u8>, u64);

/// Four numbers with dots between them.
pub open spec fn ip_field(seed: u64) -> Drawn {
    let a = next_seed(seed);
    let b = next_seed(a);
    let c = next_seed(b);
    let d = next_seed(c);
    (
        decimal(drawn(a) as nat).push(46) + decimal(drawn(b) as nat).push(46) + decimal(drawn(c) as nat).push(46)
            + decimal(drawn(d) as nat),
        d,
    )
}

/// A mail address.
pub open spec fn email_field(seed: u64) -> Drawn {
    let a = next_seed(seed);
    let b = next_seed(a);
    (
        (encode_utf8("user"@) + decimal(drawn(a) as nat)).push(64) + encode_utf8(
            domain_text((drawn(b) % 3) as int),
        ),
        b,
    )
}

/// The characters of keys.
pub open spec fn key_byte(i: int) -> u8 {
    if i < 6 {
        (97 + i) as u8
    } else {
        (48 + i - 6) as u8
    }
}

/// The first `n` characters of a key.
pub open spec fn key_field(seed: u64, n: nat) -> Drawn
    decreases n,
{
    if n == 0 {
        (Seq::empty(), seed)
    } else {
        let (head, s) = key_field(seed, (n - 1) as nat);
        let t = next_seed(s);
        (head.push(key_byte((drawn(t) % 16) as int)), t)
    }
}

/// What a placeholder is replaced by; an unknown one by nothing.
#[verifier::opaque]
pub open spec fn field(seed: u64, key: Seq<u8>) -> Drawn {
    if key == encode_utf8("ip"@) {
        ip_field(seed)
    } else if key == encode_utf8("email"@) {
        email_field(seed)
    } else if key == encode_utf8("key"@) {
        key_field(seed, 8)
    } else if key == encode_utf8("n"@) {
        (decimal((drawn(next_seed(seed)) % 9999 + 1) as nat), next_seed(seed))
    } else if key == encode_utf8("module"@) {
        (encode_utf8(module_text((drawn(next_seed(seed)) % 10) as int)), next_seed(seed))
    } else {
        (Seq::empty(), seed)
    }
}

/// Where the placeholder that starts before `i` is closed: the first `}` from
/// `i` on, or the end.
pub open spec fn closing(template: Seq<u8>, i: int) -> int
    decreases template.len() - i,
{
    if i >= template.len() || template[i] == 125 {
        i
    } else {
        closing(template, i + 1)
    }
}

/// Every `{` is followed by a `}`.
pub open spec fn is_closed(template: Seq<u8>) -> bool {
    forall|i: int| 0 <= i < template.len() && #[trigger] template[i] == 123 ==> closing(template, i + 1) < template.len()
}

pub proof fn lemma_closing(template: Seq<u8>, i: int)
    requires
        0 <= i,
    ensures
        i <= closing(template, i),
        i <= template.len() ==> closing(template, i) <= template.len(),
    decreases template.len() - i,
{
    if i < template.len() && template[i] != 125 {
        lemma_closing(template, i + 1);
    }
}

/// The template from `i` on with its placeholders filled in.
pub open spec fn filled(seed: u64, template: Seq<u8>, i: int) -> Drawn
    decreases template.len() - i,
    when i >= 0
{
    if i >= template.len() {
        (Seq::empty(), seed)
    } else if template[i] == 123 {
        proof {
            lemma_closing(template, i + 1);
        }
        let end = closing(template, i + 1);
        let (head, s) = field(seed, template.subrange(i + 1, end));
        let (tail, t) = filled(
            s,
            template,
            if end < template.len() {
                end + 1
            } else {
                end
            },
        );
        (head + tail, t)
    } else {
        let (tail, t) = filled(seed, template, i + 1);
        (seq![template[i]] + tail, t)
    }
}

fn push_text(buf: &mut Vec<u8>, text: &str)
    ensures
        final(buf)@ == old(buf)@ + encode_utf8(text@),
{
    buf.extend_from_slice(text.as_bytes());
}

/// Append what a placeholder is replaced by.
fn push_field(seed: &mut u64, buf: &mut Vec<u8>, key: &[u8])
    ensures
        final(buf)@ == old(buf)@ + field(*old(seed), key@).0,
        *final(seed) == field(*old(seed), key@).1,
{
    let ghost before = buf@;
    let ghost start = *seed;
    proof {
        reveal(field);
    }
    if bytes_equal(key, "ip".as_bytes()) {
        let a: u64 = rand(seed);
        push_decimal(buf, a);
        buf.push(46);
        let b: u64 = rand(seed);
        push_decimal(buf, b);
        buf.push(46);
        let c: u64 = rand(seed);
        push_decimal(buf, c);
        buf.push(46);
        let d: u64 = rand(seed);
        push_decimal(buf, d);
        assert(buf@ =~= before + ip_field(start).0);
    } else if bytes_equal(key, "email".as_bytes()) {
        push_text(buf, "user");
        let a: u64 = rand(seed);
        push_decimal(buf, a);
        buf.push(64);
        let at = pick(seed, 3);
        push_text(buf, domain(at));
        assert(buf@ =~= before + email_field(start).0);
    } else if bytes_equal(key, "key".as_bytes()) {
        let mut i: usize = 0;
        while i < 8
            invariant
                i <= 8,
                buf@ =~= before + key_field(start, i as nat).0,
                *seed == key_field(start, i as nat).1,
            decreases 8 - i,
        {
            let at = pick(seed, 16);
            let b: u8 = if at < 6 {
                97 + at as u8
            } else {
                48 + (at - 6) as u8
            };
            buf.push(b);
            i += 1;
        }
    } else if bytes_equal(key, "n".as_bytes()) {
        let a: u64 = rand(seed);
        push_decimal(buf, a % 9999 + 1);
    } else if bytes_equal(key, "module".as_bytes()) {
        let at = pick(seed, 10);
        push_text(buf, module(at));
    } else {
        assert(buf@ =~= before + Seq::<u8>::empty());
    }
}

/// Append `template` with its placeholders filled in.
pub fn fmt(seed: &mut u64, buf: &mut Vec<u8>, template: &[u8])
    requires
        is_closed(template@),
    ensures
        final(buf)@ == old(buf)@ + filled(*old(seed), template@, 0).0,
        *final(seed) == filled(*old(seed), template@, 0).1,
{
    let ghost before = buf@;
    let ghost whole = filled(*seed, template@, 0);
    let mut i: usize = 0;
    while i < template.len()
        invariant
            i <= template@.len(),
            is_closed(template@),
            buf@ + filled(*seed, template@, i as int).0 == before + whole.0,
            filled(*seed, template@, i as int).1 == whole.1,
        decreases template@.len() - i,
    {
        let ghost done = buf@;
        let ghost s = *seed;
        if template[i] == 123 {
            let ghost close = closing(template@, i + 1);
            let mut end: usize = i + 1;
            proof {
                lemma_closing(template@, i + 1);
            }
            assert(close < template@.len());
            while end < template.len() && template[end] != 125
                invariant
                    i < end <= close < template@.len(),
                    closing(template@, end as int) == close,
                decreases template@.len() - end,
            {
                proof {
                    lemma_closing(template@, end + 1);
                }
                end += 1;
            }
            let key = slice_subrange(template, i + 1, end);
            push_field(seed, buf, key);
            proof {
                let head = field(s, key@).0;
                let tail = filled(*seed, template@, end + 1).0;
                assert(done + (head + tail) =~= (done + head) + tail);
            }
            i = end + 1;
        } else {
            buf.push(template[i]);
            proof {
                let tail = filled(s, template@, i + 1).0;
                assert(done + (seq![template@[i as int]] + tail) =~= done.push(template@[i as int]) + tail);
            }
            i += 1;
        }
    }
    assert(buf@ + Seq::<u8>::empty() =~= buf@);
}

/// Whether every `{` of a template is followed by a `}`.
pub fn check_template(template: &[u8]) -> (out: bool)
    ensures
        out == is_closed(template@),
{
    let mut closed = false;
    let mut i: usize = template.len();
    while i > 0
        invariant
            i <= template@.len(),
            closed == (closing(template@, i as int) < template@.len()),
            forall|j: int|
                i <= j < template@.len() && #[trigger] template@[j] == 123 ==> closing(template@, j + 1) < template@.len(),
        decreases i,
    {
        i -= 1;
        if template[i] == 123 && !closed {
            assert(template@[i as int] == 123);
            return false;
        }
        if template[i] == 125 {
            closed = true;
        }
    }
    true
}

/// A log line drawn from `seed`: a fixed time stamp, a severity, a module and
/// one of the messages, filled in.
pub open spec fn line_of(seed: u64, actions: Seq<Seq<u8>>) -> Drawn {
    let a = next_seed(seed);
    let b = next_seed(a);
    let c = next_seed(b);
    let (text, s) = filled(c, actions[(drawn(c) % (actions.len() as u64)) as int], 0);
    (
        (encode_utf8("2024-01-15 10:30:45 "@) + encode_utf8(level_text((drawn(a) % 5) as int)) + seq![32u8, 91u8]
            + encode_utf8(module_text((drawn(b) % 10) as int)) + seq![93u8, 32u8] + text).push(10),
        s,
    )
}

/// Append a log line drawn from `seed`.
pub fn log_line(seed: &mut u64, buf: &mut Vec<u8>, actions: &[Vec<u8>])
    requires
        actions@.len() > 0,
        forall|i: int| 0 <= i < actions@.len() ==> is_closed((#[trigger] actions@[i])@),
    ensures
        final(buf)@ == old(buf)@ + line_of(*old(seed), strings_of(actions@)).0,
        *final(seed) == line_of(*old(seed), strings_of(actions@)).1,
{
    let ghost before = buf@;
    let ghost start = *seed;
    let l = pick(seed, 5);
    let m = pick(seed, 10);
    let a = pick(seed, actions.len());
    push_text(buf, "2024-01-15 10:30:45 ");
    push_text(buf, level(l));
    buf.push(32);
    buf.push(91);
    push_text(buf, module(m));
    buf.push(93);
    buf.push(32);
    fmt(seed, buf, &actions[a]);
    buf.push(10);
    assert(buf@ =~= before + line_of(start, strings_of(actions@)).0);
}

/// The state is multiplied and added to, modulo 2^64, and its upper 31 bits are
/// what is drawn.
pub proof fn numbers_are_drawn_by_congruence(seed: u64)
    ensures
        next_seed(seed) as int == (seed * 6364136223846793005 + 1442695040888963407) % 0x1_0000_0000_0000_0000,
        drawn(seed) == seed / 0x2_0000_0000,
{
    let product = (seed * 6364136223846793005) % 0x1_0000_0000_0000_0000;
    assert(seed.wrapping_mul(6364136223846793005) == product);
    assert(seed >> 33 == seed / 0x2_0000_0000) by (bit_vector);
    assert((product + 1442695040888963407) % 0x1_0000_0000_0000_0000 == (seed * 6364136223846793005
        + 1442695040888963407) % 0x1_0000_0000_0000_0000) by {
        vstd::arithmetic::div_mod::lemma_add_mod_noop(
            seed * 6364136223846793005,
            1442695040888963407,
            0x1_0000_0000_0000_0000,
        );
        vstd::arithmetic::div_mod::lemma_add_mod_noop(product, 1442695040888963407, 0x1_0000_0000_0000_0000);
    }
}

/// The words that are drawn from.
pub proof fn words_are_drawn_from_lists(i: int)
    ensures
        0 <= i < 5 ==> level_text(i) == seq!["INFO"@, "DEBUG"@, "WARN"@, "ERROR"@, "TRACE"@][i],
        0 <= i < 10 ==> module_text(i) == seq![
            "auth"@, "db"@, "api"@, "cache"@, "queue"@, "scheduler"@, "web"@, "rpc"@, "worker"@, "health"@,
        ][i],
        0 <= i < 3 ==> domain_text(i) == seq!["example.com"@, "test.org"@, "corp.net"@][i],
        0 <= i < 16 ==> key_byte(i) == seq![
            97u8, 98, 99, 100, 101, 102, 48, 49, 50, 51, 52, 53, 54, 55, 56, 57,
        ][i],
{
}

/// Eight characters make a key, each drawn on its own.
proof fn lemma_key(seed: u64, n: nat)
    ensures
        key_field(seed, n).0.len() == n,
        forall|i: int|
            0 <= i < n ==> 97 <= #[trigger] key_field(seed, n).0[i] <= 102 || 48 <= key_field(seed, n).0[i] <= 57,
    decreases n,
{
    if n > 0 {
        lemma_key(seed, (n - 1) as nat);
        let head = key_field(seed, (n - 1) as nat).0;
        assert forall|i: int| 0 <= i < n implies 97 <= #[trigger] key_field(seed, n).0[i] <= 102 || 48 <= key_field(
            seed,
            n,
        ).0[i] <= 57 by {
            if i < n - 1 {
                assert(head[i] == key_field(seed, n).0[i]);
            }
        }
    }
}

/// The state after `k` draws.
pub open spec fn state_after(seed: u64, k: nat) -> u64
    decreases k,
{
    if k == 0 {
        seed
    } else {
        next_seed(state_after(seed, (k - 1) as nat))
    }
}

/// Draw number `k`.
pub open spec fn draw(seed: u64, k: nat) -> nat {
    drawn(state_after(seed, k)) as nat
}

proof fn lemma_key_draws(seed: u64, n: nat)
    ensures
        key_field(seed, n).1 == state_after(seed, n),
        forall|i: int| 0 <= i < n ==> #[trigger] key_field(seed, n).0[i] == key_byte((draw(seed, (i + 1) as nat) % 16) as int),
    decreases n,
{
    lemma_key(seed, n);
    if n > 0 {
        lemma_key_draws(seed, (n - 1) as nat);
        lemma_key(seed, (n - 1) as nat);
        let head = key_field(seed, (n - 1) as nat).0;
        assert forall|i: int| 0 <= i < n implies #[trigger] key_field(seed, n).0[i] == key_byte(
            (draw(seed, (i + 1) as nat) % 16) as int,
        ) by {
            if i < n - 1 {
                assert(head[i] == key_field(seed, n).0[i]);
            }
        }
    }
}

/// What the placeholders stand for: `ip` for four numbers with dots between them,
/// `email` for a user with a number at one of the domains, `key` for eight
/// hexadecimal digits, `n` for a number from 1 to 9999 and `module` for a module;
/// each is drawn anew, in this order. Any other stands for nothing, and then nothing
/// is drawn.
pub proof fn placeholders_stand_for_what_they_say(seed: u64, key: Seq<u8>)
    ensures
        key == encode_utf8("ip"@) ==> field(seed, key) == (
            decimal(draw(seed, 1)) + seq![46u8] + decimal(draw(seed, 2)) + seq![46u8] + decimal(draw(seed, 3)) + seq![46u8]
                + decimal(draw(seed, 4)),
            state_after(seed, 4),
        ),
        key == encode_utf8("email"@) ==> field(seed, key) == (
            encode_utf8("user"@) + decimal(draw(seed, 1)) + seq![64u8] + encode_utf8(
                seq!["example.com"@, "test.org"@, "corp.net"@][(draw(seed, 2) % 3) as int],
            ),
            state_after(seed, 2),
        ),
        key == encode_utf8("key"@) ==> field(seed, key).1 == state_after(seed, 8) && field(seed, key).0.len() == 8
            && forall|i: int|
            0 <= i < 8 ==> #[trigger] field(seed, key).0[i] == key_byte((draw(seed, (i + 1) as nat) % 16) as int),
        key == encode_utf8("n"@) ==> field(seed, key) == (decimal(draw(seed, 1) % 9999 + 1), state_after(seed, 1)),
        key == encode_utf8("module"@) ==> field(seed, key) == (
            encode_utf8(module_text((draw(seed, 1) % 10) as int)),
            state_after(seed, 1),
        ),
        key != encode_utf8("ip"@) && key != encode_utf8("email"@) && key != encode_utf8("key"@) && key != encode_utf8("n"@)
            && key != encode_utf8("module"@) ==> field(seed, key) == (Seq::<u8>::empty(), seed),
{
    reveal(field);
    reveal_with_fuel(state_after, 5);
    lemma_placeholder_names();
    if key == encode_utf8("ip"@) {
        assert(field(seed, key).0 =~= decimal(draw(seed, 1)) + seq![46u8] + decimal(draw(seed, 2)) + seq![46u8] + decimal(
            draw(seed, 3),
        ) + seq![46u8] + decimal(draw(seed, 4)));
    }
    if key == encode_utf8("email"@) {
        let i = (draw(seed, 2) % 3) as int;
        let at = seq!["example.com"@, "test.org"@, "corp.net"@][i];
        assert(domain_text(i) == at);
        assert(field(seed, key).0 =~= encode_utf8("user"@) + decimal(draw(seed, 1)) + seq![64u8] + encode_utf8(at));
    }
    if key == encode_utf8("key"@) {
        lemma_key(seed, 8);
        lemma_key_draws(seed, 8);
    }
}

/// The names of the placeholders are different from one another.
proof fn lemma_placeholder_names()
    ensures
        encode_utf8("ip"@).len() == 2,
        encode_utf8("email"@).len() == 5,
        encode_utf8("key"@).len() == 3,
        encode_utf8("n"@).len() == 1,
        encode_utf8("module"@).len() == 6,
{
    reveal_strlit("ip");
    reveal_strlit("email");
    reveal_strlit("key");
    reveal_strlit("n");
    reveal_strlit("module");
    vstd::utf8::is_ascii_chars_encode_utf8("ip"@);
    vstd::utf8::is_ascii_chars_encode_utf8("email"@);
    vstd::utf8::is_ascii_chars_encode_utf8("key"@);
    vstd::utf8::is_ascii_chars_encode_utf8("n"@);
    vstd::utf8::is_ascii_chars_encode_utf8("module"@);
}

proof fn lemma_filled_shift(seed: u64, front: Seq<u8>, rest: Seq<u8>, i: int)
    requires
        0 <= i,
    ensures
        filled(seed, front + rest, front.len() + i) == filled(seed, rest, i),
    decreases rest.len() - i,
{
    let whole = front + rest;
    if i < rest.len() {
        assert(whole[front.len() + i] == rest[i]);
        if rest[i] == 123 {
            lemma_closing_shift(front, rest, i + 1);
            lemma_closing(rest, i + 1);
            let end = closing(rest, i + 1);
            assert(whole.subrange(front.len() + i + 1, front.len() + end) =~= rest.subrange(i + 1, end));
            let s = field(seed, rest.subrange(i + 1, end)).1;
            lemma_filled_shift(
                s,
                front,
                rest,
                if end < rest.len() {
                    end + 1
                } else {
                    end
                },
            );
        } else {
            lemma_filled_shift(seed, front, rest, i + 1);
        }
    }
}

proof fn lemma_closing_shift(front: Seq<u8>, rest: Seq<u8>, i: int)
    requires
        0 <= i,
    ensures
        closing(front + rest, front.len() + i) == front.len() + closing(rest, i),
    decreases rest.len() - i,
{
    if i < rest.len() {
        assert((front + rest)[front.len() + i] == rest[i]);
        if rest[i] != 125 {
            lemma_closing_shift(front, rest, i + 1);
        }
    }
}

proof fn lemma_closing_at(template: Seq<u8>, i: int, end: int)
    requires
        0 <= i <= end < template.len(),
        template[end] == 125,
        forall|j: int| i <= j < end ==> template[j] != 125,
    ensures
        closing(template, i) == end,
    decreases end - i,
{
    if i < end {
        lemma_closing_at(template, i + 1, end);
    }
}

/// A template is filled in from its start: a byte that opens no placeholder stays,
/// a placeholder is replaced, and what follows is filled in from the state that
/// this leaves. A template that is at its end stays as it is.
pub proof fn templates_are_filled_in_order(seed: u64, b: u8, key: Seq<u8>, rest: Seq<u8>)
    ensures
        filled(seed, Seq::empty(), 0) == (Seq::<u8>::empty(), seed),
        b != 123 ==> filled(seed, seq![b] + rest, 0).0 == seq![b] + filled(seed, rest, 0).0 && filled(
            seed,
            seq![b] + rest,
            0,
        ).1 == filled(seed, rest, 0).1,
        !key.contains(125) ==> filled(seed, seq![123u8] + key + seq![125u8] + rest, 0).0 == field(seed, key).0 + filled(
            field(seed, key).1,
            rest,
            0,
        ).0 && filled(seed, seq![123u8] + key + seq![125u8] + rest, 0).1 == filled(field(seed, key).1, rest, 0).1,
{
    if b != 123 {
        let whole = seq![b] + rest;
        assert(whole[0] == b);
        lemma_filled_shift(seed, seq![b], rest, 0);
    }
    if !key.contains(125) {
        let front = seq![123u8] + key + seq![125u8];
        let whole = front + rest;
        let end = key.len() + 1;
        assert(whole[0] == 123);
        assert(whole[end as int] == 125);
        assert forall|j: int| 1 <= j < end implies whole[j] != 125 by {
            assert(whole[j] == key[j - 1]);
        }
        lemma_closing_at(whole, 1, end as int);
        assert(whole.subrange(1, end as int) =~= key);
        lemma_filled_shift(field(seed, key).1, front, rest, 0);
        assert(front.len() == end + 1);
    }
}

/// A template can be filled in if and only if a `}` stands somewhere behind every
/// `{`.
pub proof fn closed_templates_close_every_brace(template: Seq<u8>)
    ensures
        is_closed(template) <==> forall|i: int|
            0 <= i < template.len() && #[trigger] template[i] == 123 ==> exists|j: int|
                i < j < template.len() && #[trigger] template[j] == 125,
{
    if is_closed(template) {
        assert forall|i: int| 0 <= i < template.len() && #[trigger] template[i] == 123 implies exists|j: int|
            i < j < template.len() && #[trigger] template[j] == 125 by {
            lemma_closing_found(template, i + 1);
            assert(template[closing(template, i + 1)] == 125);
        }
    }
    if forall|i: int|
        0 <= i < template.len() && #[trigger] template[i] == 123 ==> exists|j: int|
            i < j < template.len() && #[trigger] template[j] == 125 {
        assert forall|i: int| 0 <= i < template.len() && #[trigger] template[i] == 123 implies closing(template, i + 1)
            < template.len() by {
            lemma_closing_found(template, i + 1);
            let j = choose|j: int| i < j < template.len() && #[trigger] template[j] == 125;
            assert(closing(template, i + 1) <= j);
        }
    }
}

proof fn lemma_closing_found(template: Seq<u8>, i: int)
    requires
        0 <= i,
    ensures
        closing(template, i) < template.len() ==> i <= closing(template, i) && template[closing(template, i)] == 125,
        forall|j: int| i <= j < template.len() && #[trigger] template[j] == 125 ==> closing(template, i) <= j,
    decreases template.len() - i,
{
    lemma_closing(template, i);
    if i < template.len() && template[i] != 125 {
        lemma_closing_found(template, i + 1);
    }
}

/// A log line is a time stamp, a severity, a module in brackets and a message that
/// is filled in, and ends with a newline; the three are drawn in this order.
pub proof fn log_lines_have_a_fixed_shape(seed: u64, actions: Seq<Seq<u8>>)
    requires
        0 < actions.len() <= u64::MAX,
    ensures
        ({
            let level = seq!["INFO"@, "DEBUG"@, "WARN"@, "ERROR"@, "TRACE"@][(draw(seed, 1) % 5) as int];
            let module = module_text((draw(seed, 2) % 10) as int);
            let message = filled(state_after(seed, 3), actions[(draw(seed, 3) % actions.len()) as int], 0);
            &&& line_of(seed, actions).0 == encode_utf8("2024-01-15 10:30:45 "@) + encode_utf8(level) + seq![32u8, 91u8]
                + encode_utf8(module) + seq![93u8, 32u8] + message.0 + seq![10u8]
            &&& line_of(seed, actions).1 == message.1
        }),
{
    reveal_with_fuel(state_after, 4);
    let l = (draw(seed, 1) % 5) as int;
    let level = seq!["INFO"@, "DEBUG"@, "WARN"@, "ERROR"@, "TRACE"@][l];
    assert(level_text(l) == level);
    let module = module_text((draw(seed, 2) % 10) as int);
    let message = filled(state_after(seed, 3), actions[(draw(seed, 3) % actions.len()) as int], 0);
    assert(line_of(seed, actions).0 =~= encode_utf8("2024-01-15 10:30:45 "@) + encode_utf8(level) + seq![32u8, 91u8]
        + encode_utf8(module) + seq![93u8, 32u8] + message.0 + seq![10u8]);
}

} // verus!
