//! Primitives of the wire formats: little-endian numbers, LEB128 variable
//! length integers and length-prefixed text.
//!
//! A reader is described by what it makes of a byte string: a value and the
//! bytes that follow it, or nothing where the string does not begin with a
//! value. A writer appends.

use crate::text;
use vstd::arithmetic::div_mod;
use vstd::arithmetic::power;
use vstd::prelude::*;

verus! {

/// A reader at `cursor` found what the bytes from there on begin with.
pub open spec fn reads<T>(
    found: Option<(T, usize)>,
    expected: Option<(T, Seq<u8>)>,
    bytes: Seq<u8>,
    cursor: usize,
) -> bool {
    match expected {
        Some((v, rest)) => {
            &&& found matches Some((value, next))
            &&& value == v
            &&& cursor < next <= bytes.len()
            &&& bytes.skip(next as int) == rest
        },
        None => found is None,
    }
}

/// As [`reads`], with the value seen through its view.
pub open spec fn reads_view<T: View>(
    found: Option<(T, usize)>,
    expected: Option<(T::V, Seq<u8>)>,
    bytes: Seq<u8>,
    cursor: usize,
) -> bool {
    match expected {
        Some((v, rest)) => {
            &&& found matches Some((value, next))
            &&& value@ == v
            &&& cursor < next <= bytes.len()
            &&& bytes.skip(next as int) == rest
        },
        None => found is None,
    }
}

/// The lowest `width` bytes of a number, lowest first.
pub open spec fn le(v: nat, width: nat) -> Seq<u8>
    decreases width,
{
    if width == 0 {
        seq![]
    } else {
        seq![(v % 256) as u8] + le(v / 256, (width - 1) as nat)
    }
}

/// The number whose bytes these are, lowest first.
pub open spec fn le_value(s: Seq<u8>) -> nat
    decreases s.len(),
{
    if s.len() == 0 {
        0
    } else {
        s[0] as nat + 256 * le_value(s.drop_first())
    }
}

/// 256 to the power of `width`.
pub open spec fn span(width: nat) -> nat
    decreases width,
{
    if width == 0 {
        1
    } else {
        256 * span((width - 1) as nat)
    }
}

/// A little-endian number of `width` bytes at the head of `s`.
pub open spec fn read_le(s: Seq<u8>, width: nat) -> Option<(nat, Seq<u8>)> {
    if s.len() < width {
        None
    } else {
        Some((le_value(s.take(width as int)), s.skip(width as int)))
    }
}

/// The LEB128 form of a number: seven bits to a byte, lowest first, with the
/// top bit set on all bytes but the last.
pub open spec fn varint(v: nat) -> Seq<u8>
    decreases v,
{
    if v < 128 {
        seq![v as u8]
    } else {
        seq![(v % 128 + 128) as u8] + varint(v / 128)
    }
}

/// The number that the low seven bits of the bytes make up.
pub open spec fn varint_sum(s: Seq<u8>) -> nat
    decreases s.len(),
{
    if s.len() == 0 {
        0
    } else {
        s[0] as nat % 128 + 128 * varint_sum(s.drop_first())
    }
}

/// The number of leading bytes whose top bit is set.
pub open spec fn continued(s: Seq<u8>) -> nat
    decreases s.len(),
{
    if s.len() == 0 || s[0] < 128 {
        0
    } else {
        1 + continued(s.drop_first())
    }
}

/// A variable length integer at the head of `s`: ten bytes at most, the last
/// with its top bit clear. Bits beyond the 64th are dropped.
pub open spec fn read_varint(s: Seq<u8>) -> Option<(u64, Seq<u8>)> {
    let n = continued(s) as int;
    if n < s.len() && n < 10 {
        Some(((varint_sum(s.take(n + 1)) % 0x1_0000_0000_0000_0000) as u64, s.skip(n + 1)))
    } else {
        None
    }
}

/// A text as it is sent: its length in bytes, then its UTF-8 bytes.
pub open spec fn prefixed(bytes: Seq<u8>) -> Seq<u8> {
    varint(bytes.len()) + bytes
}

/// A length-prefixed byte string at the head of `s`.
pub open spec fn read_prefixed(s: Seq<u8>) -> Option<(Seq<u8>, Seq<u8>)> {
    match read_varint(s) {
        Some((len, rest)) => if len <= rest.len() {
            Some((rest.take(len as int), rest.skip(len as int)))
        } else {
            None
        },
        None => None,
    }
}

/// A length-prefixed text at the head of `s`.
pub open spec fn read_text(s: Seq<u8>) -> Option<(Seq<char>, Seq<u8>)> {
    match read_prefixed(s) {
        Some((bytes, rest)) => match text::utf8_text(bytes) {
            Some(t) => Some((t, rest)),
            None => None,
        },
        None => None,
    }
}

/// What follows the first `n` bytes of a concatenation that begins with them.
pub proof fn lemma_concat(a: Seq<u8>, b: Seq<u8>)
    ensures
        (a + b).take(a.len() as int) == a,
        (a + b).skip(a.len() as int) == b,
{
    assert((a + b).take(a.len() as int) =~= a);
    assert((a + b).skip(a.len() as int) =~= b);
}

proof fn lemma_le_length(v: nat, width: nat)
    ensures
        le(v, width).len() == width,
    decreases width,
{
    if width > 0 {
        lemma_le_length(v / 256, (width - 1) as nat);
    }
}

proof fn lemma_le_value(v: nat, width: nat)
    requires
        v < span(width),
    ensures
        le_value(le(v, width)) == v,
    decreases width,
{
    if width > 0 {
        lemma_le_value(v / 256, (width - 1) as nat);
        let s = le(v, width);
        assert(s.drop_first() =~= le(v / 256, (width - 1) as nat));
    }
}

/// A little-endian number that fits is read back.
pub proof fn lemma_le_round_trip(v: nat, width: nat, rest: Seq<u8>)
    requires
        v < span(width),
    ensures
        le(v, width).len() == width,
        read_le(le(v, width) + rest, width) == Some((v, rest)),
{
    lemma_le_length(v, width);
    lemma_le_value(v, width);
    lemma_concat(le(v, width), rest);
}

/// 256 to the powers in use.
pub proof fn lemma_spans()
    ensures
        span(4) == 0x1_0000_0000,
        span(8) == 0x1_0000_0000_0000_0000,
{
    reveal_with_fuel(span, 9);
}

/// 128 to the power of `n`.
spec fn pow128(n: nat) -> nat
    decreases n,
{
    if n == 0 {
        1
    } else {
        128 * pow128((n - 1) as nat)
    }
}

proof fn lemma_varint_shape(v: nat, n: nat)
    requires
        v < pow128(n),
        n > 0,
    ensures
        0 < varint(v).len() <= n,
        varint_sum(varint(v)) == v,
    decreases n,
{
    let s = varint(v);
    if v < 128 {
        assert(s.drop_first() =~= seq![]);
        assert(varint_sum(s.drop_first()) == 0);
    } else {
        assert(n > 1) by {
            if n == 1 {
                reveal_with_fuel(pow128, 2);
            }
        }
        lemma_varint_shape(v / 128, (n - 1) as nat);
        assert(s.drop_first() =~= varint(v / 128));
    }
}

proof fn lemma_varint_continued(v: nat, rest: Seq<u8>)
    ensures
        continued(varint(v) + rest) == varint(v).len() - 1,
    decreases v,
{
    let s = varint(v) + rest;
    if v >= 128 {
        lemma_varint_continued(v / 128, rest);
        assert(s.drop_first() =~= varint(v / 128) + rest);
    }
}

/// A variable length integer is read back.
pub proof fn lemma_varint_round_trip(v: u64, rest: Seq<u8>)
    ensures
        0 < varint(v as nat).len() <= 10,
        read_varint(varint(v as nat) + rest) == Some((v, rest)),
{
    let n = v as nat;
    assert(pow128(10) == 0x40_0000_0000_0000_0000) by {
        reveal_with_fuel(pow128, 11);
    }
    lemma_varint_shape(n, 10);
    lemma_varint_continued(n, rest);
    lemma_concat(varint(n), rest);
}

/// A length-prefixed byte string is read back.
pub proof fn lemma_prefixed_round_trip(bytes: Seq<u8>, rest: Seq<u8>)
    requires
        bytes.len() <= u64::MAX,
    ensures
        read_prefixed(prefixed(bytes) + rest) == Some((bytes, rest)),
{
    lemma_varint_round_trip(bytes.len() as u64, bytes + rest);
    assert(prefixed(bytes) + rest =~= varint(bytes.len()) + (bytes + rest));
    lemma_concat(bytes, rest);
}

/// A length-prefixed text is read back.
pub proof fn lemma_text_round_trip(t: Seq<char>, rest: Seq<u8>)
    requires
        vstd::utf8::encode_utf8(t).len() <= u64::MAX,
    ensures
        read_text(prefixed(vstd::utf8::encode_utf8(t)) + rest) == Some((t, rest)),
{
    lemma_prefixed_round_trip(vstd::utf8::encode_utf8(t), rest);
    text::lemma_utf8_round_trip(t);
}

proof fn lemma_continued_at(s: Seq<u8>, n: int)
    requires
        0 <= n <= s.len(),
        forall|i: int| 0 <= i < n ==> (#[trigger] s[i]) >= 128,
    ensures
        continued(s) >= n,
        n < s.len() && s[n] < 128 ==> continued(s) == n,
        n == s.len() ==> continued(s) == n,
    decreases n,
{
    if n > 0 {
        let t = s.drop_first();
        assert forall|i: int| 0 <= i < n - 1 implies (#[trigger] t[i]) >= 128 by {
            assert(t[i] == s[i + 1]);
        }
        assert(s[0] >= 128);
        lemma_continued_at(t, n - 1);
    }
}

proof fn lemma_sum_push(s: Seq<u8>, b: u8)
    ensures
        varint_sum(s.push(b)) == varint_sum(s) + (b as nat % 128) * pow128(s.len()),
        varint_sum(s) < pow128(s.len()),
    decreases s.len(),
{
    let t = s.push(b);
    if s.len() == 0 {
        assert(t.drop_first() =~= seq![]);
        assert(varint_sum(t.drop_first()) == 0);
        assert((b as nat % 128) * pow128(s.len()) == b as nat % 128) by (nonlinear_arith)
            requires
                pow128(s.len()) == 1,
        ;
    } else {
        lemma_sum_push(s.drop_first(), b);
        assert(t.drop_first() =~= s.drop_first().push(b));
        let p = pow128((s.len() - 1) as nat);
        assert(128 * ((b as nat % 128) * p) == (b as nat % 128) * (128 * p)) by (nonlinear_arith);
        assert(pow128(s.len()) == 128 * p);
        assert(t[0] == s[0]);
    }
}

/// Appends the LEB128 form of a number.
pub fn encode_varint(value: u64, out: &mut Vec<u8>)
    ensures
        final(out)@ == old(out)@ + varint(value as nat),
{
    let mut v: u64 = value;
    while v >= 128
        invariant
            out@ + varint(v as nat) == old(out)@ + varint(value as nat),
        decreases v,
    {
        let ghost before = out@;
        out.push((v % 128 + 128) as u8);
        proof {
            assert(before + varint(v as nat) =~= out@ + varint((v / 128) as nat));
        }
        v = v / 128;
    }
    out.push(v as u8);
    proof {
        assert(out@ =~= old(out)@ + varint(value as nat));
    }
}

/// Reads a variable length integer at `cursor`, and gives the place behind it.
pub fn decode_varint_at(bytes: &[u8], cursor: usize) -> (found: Option<(u64, usize)>)
    requires
        cursor <= bytes@.len(),
    ensures
        reads(found, read_varint(bytes@.skip(cursor as int)), bytes@, cursor),
{
    let ghost s = bytes@.skip(cursor as int);
    let mut value: u64 = 0;
    let mut weight: u64 = 1;
    let mut i: usize = 0;
    while i < 9 && i < bytes.len() - cursor
        invariant
            cursor <= bytes@.len(),
            s == bytes@.skip(cursor as int),
            i <= 9,
            i <= s.len(),
            weight == pow128(i as nat),
            value == varint_sum(s.take(i as int)),
            value < weight,
            forall|j: int| 0 <= j < i ==> (#[trigger] s[j]) >= 128,
        decreases 9 - i,
    {
        let b: u8 = bytes[cursor + i];
        proof {
            assert(b == s[i as int]);
            lemma_sum_push(s.take(i as int), b);
            assert(s.take(i as int).push(b) =~= s.take(i + 1));
            lemma_sum_push(s.take(i + 1), 0);
            lemma_pow128_bound(i as nat);
            let low = b as nat % 128;
            let w = weight as nat;
            assert(low * w <= 127 * w) by (nonlinear_arith)
                requires
                    low <= 127,
            ;
        }
        let low: u64 = (b % 128) as u64;
        value = value + low * weight;
        if b < 128 {
            proof {
                lemma_continued_at(s, i as int);
                assert(s.take(i + 1).len() == i + 1);
                assert(s.skip(i + 1) =~= bytes@.skip(cursor + i + 1));
            }
            return Some((value, cursor + i + 1));
        }
        weight = weight * 128;
        i += 1;
    }
    if i == bytes.len() - cursor {
        proof {
            lemma_continued_at(s, i as int);
        }
        return None;
    }
    let b: u8 = bytes[cursor + 9];
    proof {
        assert(b == s[9]);
        lemma_continued_at(s, 9);
        lemma_sum_push(s.take(9), b);
        assert(s.take(9).push(b) =~= s.take(10));
        assert(pow128(9) == 0x8000_0000_0000_0000) by {
            reveal_with_fuel(pow128, 10);
        }
    }
    if b >= 128 {
        proof {
            lemma_continued_at(s, 10);
        }
        return None;
    }
    let top: u64 = (b % 2) as u64;
    proof {
        let low = b as nat;
        assert(varint_sum(s.take(10)) == value + low * 0x8000_0000_0000_0000);
        assert(low == 2 * (low / 2) + low % 2);
        assert((value + low * 0x8000_0000_0000_0000) % 0x1_0000_0000_0000_0000 == value + (low % 2)
            * 0x8000_0000_0000_0000);
        assert(s.skip(10) =~= bytes@.skip(cursor + 10));
    }
    Some((value + top * 0x8000_0000_0000_0000, cursor + 10))
}

proof fn lemma_pow128_bound(n: nat)
    requires
        n <= 8,
    ensures
        pow128(n) <= 0x100_0000_0000_0000,
        pow128(n + 1) == 128 * pow128(n),
    decreases 8 - n,
{
    reveal_with_fuel(pow128, 10);
    if n < 8 {
        lemma_pow128_bound(n + 1);
    }
}

/// Reads a variable length integer, and gives the number of bytes it takes.
pub fn decode_varint(bytes: &[u8]) -> (found: Option<(u64, usize)>)
    ensures
        match read_varint(bytes@) {
            Some((v, rest)) => {
                &&& found matches Some((value, taken))
                &&& value == v
                &&& 0 < taken <= bytes@.len()
                &&& bytes@.skip(taken as int) == rest
            },
            None => found is None,
        },
{
    proof {
        assert(bytes@.skip(0) =~= bytes@);
    }
    decode_varint_at(bytes, 0)
}

/// Appends the lowest `width` bytes of a number, lowest first.
fn put_le(v: u64, width: usize, out: &mut Vec<u8>)
    ensures
        final(out)@ == old(out)@ + le(v as nat, width as nat),
{
    let mut rest: u64 = v;
    let mut left: usize = width;
    while left > 0
        invariant
            out@ + le(rest as nat, left as nat) == old(out)@ + le(v as nat, width as nat),
        decreases left,
    {
        let ghost before = out@;
        out.push((rest % 256) as u8);
        proof {
            assert(before + le(rest as nat, left as nat) =~= out@ + le((rest / 256) as nat, (left - 1) as nat));
        }
        rest = rest / 256;
        left = left - 1;
    }
    proof {
        assert(out@ =~= old(out)@ + le(v as nat, width as nat));
    }
}

/// Appends a number as four bytes.
pub fn encode_u32(v: u32, out: &mut Vec<u8>)
    ensures
        final(out)@ == old(out)@ + le(v as nat, 4),
{
    put_le(v as u64, 4, out);
}

/// Appends a number as eight bytes.
pub fn encode_u64(v: u64, out: &mut Vec<u8>)
    ensures
        final(out)@ == old(out)@ + le(v as nat, 8),
{
    put_le(v, 8, out);
}

proof fn lemma_le_value_split(s: Seq<u8>)
    requires
        s.len() > 0,
    ensures
        le_value(s) == s[0] as nat + 256 * le_value(s.skip(1)),
{
    assert(s.drop_first() =~= s.skip(1));
}

/// The number whose four bytes stand at `cursor`.
fn get_u32(bytes: &[u8], cursor: usize) -> (v: u32)
    requires
        cursor + 4 <= bytes@.len(),
    ensures
        v == le_value(bytes@.skip(cursor as int).take(4)),
{
    let a: u32 = bytes[cursor] as u32;
    let b: u32 = bytes[cursor + 1] as u32;
    let c: u32 = bytes[cursor + 2] as u32;
    let d: u32 = bytes[cursor + 3] as u32;
    proof {
        let s = bytes@.skip(cursor as int).take(4);
        assert(s =~= seq![a as u8, b as u8, c as u8, d as u8]);
        lemma_le_value_split(s);
        lemma_le_value_split(s.skip(1));
        lemma_le_value_split(s.skip(1).skip(1));
        lemma_le_value_split(s.skip(1).skip(1).skip(1));
        assert(s.skip(1).skip(1).skip(1).skip(1) =~= seq![]);
    }
    a + 256 * (b + 256 * (c + 256 * d))
}

/// Reads four bytes at `cursor`.
pub fn decode_u32_at(bytes: &[u8], cursor: usize) -> (found: Option<(u32, usize)>)
    requires
        cursor <= bytes@.len(),
    ensures
        match read_le(bytes@.skip(cursor as int), 4) {
            Some((v, rest)) => {
                &&& found matches Some((value, next))
                &&& value == v
                &&& cursor < next <= bytes@.len()
                &&& bytes@.skip(next as int) == rest
            },
            None => found is None,
        },
{
    if bytes.len() - cursor < 4 {
        return None;
    }
    proof {
        assert(bytes@.skip(cursor as int).skip(4) =~= bytes@.skip(cursor + 4));
    }
    Some((get_u32(bytes, cursor), cursor + 4))
}

/// Reads eight bytes at `cursor`.
pub fn decode_u64_at(bytes: &[u8], cursor: usize) -> (found: Option<(u64, usize)>)
    requires
        cursor <= bytes@.len(),
    ensures
        match read_le(bytes@.skip(cursor as int), 8) {
            Some((v, rest)) => {
                &&& found matches Some((value, next))
                &&& value == v
                &&& cursor < next <= bytes@.len()
                &&& bytes@.skip(next as int) == rest
            },
            None => found is None,
        },
{
    if bytes.len() - cursor < 8 {
        return None;
    }
    let low: u64 = get_u32(bytes, cursor) as u64;
    let high: u64 = get_u32(bytes, cursor + 4) as u64;
    proof {
        let s = bytes@.skip(cursor as int);
        assert(s.skip(8) =~= bytes@.skip(cursor + 8));
        lemma_le_value_concat(s.take(4), bytes@.skip(cursor + 4).take(4));
        assert(s.take(8) =~= s.take(4) + bytes@.skip(cursor + 4).take(4));
        lemma_spans();
        assert(s.take(4).len() == 4);
        assert(high == le_value(bytes@.skip(cursor + 4).take(4)));
        assert(le_value(s.take(8)) == low + 0x1_0000_0000 * high);
    }
    Some((low + high * 0x1_0000_0000, cursor + 8))
}

proof fn lemma_le_value_concat(a: Seq<u8>, b: Seq<u8>)
    ensures
        le_value(a + b) == le_value(a) + span(a.len()) * le_value(b),
    decreases a.len(),
{
    if a.len() == 0 {
        assert(a + b =~= b);
        assert(span(a.len()) * le_value(b) == le_value(b)) by (nonlinear_arith)
            requires
                span(a.len()) == 1,
        ;
    } else {
        lemma_le_value_concat(a.drop_first(), b);
        assert((a + b).drop_first() =~= a.drop_first() + b);
        assert((a + b)[0] == a[0]);
        let p = span((a.len() - 1) as nat);
        let v = le_value(b);
        assert(256 * (p * v) == (256 * p) * v) by (nonlinear_arith);
        assert(span(a.len()) == 256 * p);
        assert(le_value(a) == a[0] as nat + 256 * le_value(a.drop_first()));
        assert(le_value(a + b) == a[0] as nat + 256 * le_value(a.drop_first() + b));
    }
}

/// Appends a byte string.
pub fn put_bytes(bytes: &[u8], out: &mut Vec<u8>)
    ensures
        final(out)@ == old(out)@ + bytes@,
{
    let mut i: usize = 0;
    while i < bytes.len()
        invariant
            i <= bytes@.len(),
            out@ == old(out)@ + bytes@.take(i as int),
        decreases bytes@.len() - i,
    {
        out.push(bytes[i]);
        proof {
            assert(bytes@.take(i + 1) =~= bytes@.take(i as int).push(bytes@[i as int]));
            assert(out@ =~= old(out)@ + bytes@.take(i + 1));
        }
        i += 1;
    }
    proof {
        assert(bytes@.take(bytes@.len() as int) =~= bytes@);
    }
}

/// The bytes from `from` up to `to`.
pub fn copy_range(bytes: &[u8], from: usize, to: usize) -> (part: Vec<u8>)
    requires
        from <= to <= bytes@.len(),
    ensures
        part@ == bytes@.subrange(from as int, to as int),
{
    let mut part: Vec<u8> = Vec::new();
    let mut i: usize = from;
    while i < to
        invariant
            from <= i <= to <= bytes@.len(),
            part@ == bytes@.subrange(from as int, i as int),
        decreases to - i,
    {
        part.push(bytes[i]);
        proof {
            assert(bytes@.subrange(from as int, i + 1) =~= bytes@.subrange(from as int, i as int).push(
                bytes@[i as int],
            ));
        }
        i += 1;
    }
    part
}

/// Appends a length-prefixed byte string.
pub fn encode_prefixed(bytes: &[u8], out: &mut Vec<u8>)
    ensures
        final(out)@ == old(out)@ + prefixed(bytes@),
{
    encode_varint(bytes.len() as u64, out);
    put_bytes(bytes, out);
    proof {
        assert(out@ =~= old(out)@ + prefixed(bytes@));
    }
}

/// Reads a length-prefixed byte string at `cursor`.
pub fn decode_prefixed_at(bytes: &[u8], cursor: usize) -> (found: Option<(Vec<u8>, usize)>)
    requires
        cursor <= bytes@.len(),
    ensures
        reads_view(found, read_prefixed(bytes@.skip(cursor as int)), bytes@, cursor),
{
    match decode_varint_at(bytes, cursor) {
        Some((len, start)) => {
            if len > (bytes.len() - start) as u64 {
                return None;
            }
            let end: usize = start + len as usize;
            proof {
                assert(bytes@.skip(start as int).take(len as int) =~= bytes@.subrange(start as int, end as int));
                assert(bytes@.skip(start as int).skip(len as int) =~= bytes@.skip(end as int));
            }
            Some((copy_range(bytes, start, end), end))
        },
        None => None,
    }
}

/// Appends a length-prefixed text.
pub fn encode_string(s: &str, out: &mut Vec<u8>)
    ensures
        final(out)@ == old(out)@ + prefixed(vstd::utf8::encode_utf8(s@)),
{
    encode_prefixed(s.as_bytes(), out);
}

/// Reads a length-prefixed text at `cursor`.
pub fn decode_string_at(bytes: &[u8], cursor: usize) -> (found: Option<(String, usize)>)
    requires
        cursor <= bytes@.len(),
    ensures
        reads_view(found, read_text(bytes@.skip(cursor as int)), bytes@, cursor),
{
    match decode_prefixed_at(bytes, cursor) {
        Some((part, next)) => match text::text_of_utf8(part.as_slice()) {
            Some(t) => Some((t, next)),
            None => None,
        },
        None => None,
    }
}

/// A fixed-width number is written with its lowest byte first: byte `i` counts
/// the `i`-th power of 256.
pub proof fn law_lowest_byte_first(v: nat, width: nat, i: nat)
    requires
        i < width,
    ensures
        le(v, width).len() == width,
        le(v, width)[i as int] == (v as int / power::pow(256, i)) % 256,
    decreases width,
{
    lemma_le_length(v, width);
    lemma_le_length(v / 256, (width - 1) as nat);
    power::lemma_pow0(256);
    if i > 0 {
        law_lowest_byte_first(v / 256, (width - 1) as nat, (i - 1) as nat);
        lemma_shifted(v as int, 256, i);
    }
}

/// Dividing by a power is dividing once and then by the lower power.
proof fn lemma_shifted(v: int, base: int, i: nat)
    requires
        base > 0,
        i > 0,
        v >= 0,
    ensures
        v / power::pow(base, i) == (v / base) / power::pow(base, (i - 1) as nat),
{
    reveal(power::pow);
    power::lemma_pow_positive(base, (i - 1) as nat);
    div_mod::lemma_div_denominator(v, base, power::pow(base, (i - 1) as nat));
}

/// Every byte string is the number that it holds, and every number that fits is
/// held by its bytes.
pub proof fn law_fixed_width_numbers_are_bytes(s: Seq<u8>, v: nat, width: nat)
    ensures
        le(le_value(s), s.len()) == s,
        v < power::pow(256, width) ==> le_value(le(v, width)) == v,
    decreases s.len(),
{
    if s.len() > 0 {
        let rest = s.drop_first();
        law_fixed_width_numbers_are_bytes(rest, v, width);
        let n = le_value(s);
        assert(n % 256 == s[0] && n / 256 == le_value(rest));
        assert(le(n, s.len()) =~= s) by {
            assert(s =~= seq![s[0]] + rest);
        }
    } else {
        assert(le(le_value(s), s.len()) =~= s);
    }
    lemma_span_is_power(width);
    if v < power::pow(256, width) {
        lemma_le_value(v, width);
    }
}

proof fn lemma_span_is_power(width: nat)
    ensures
        span(width) == power::pow(256, width),
    decreases width,
{
    reveal(power::pow);
    if width > 0 {
        lemma_span_is_power((width - 1) as nat);
    }
}

/// A variable length integer is written in groups of seven bits, the lowest
/// first, each with the top bit set but the last; and in as few groups as hold
/// it.
pub proof fn law_seven_bits_to_a_byte(v: nat, i: nat)
    ensures
        ({
            let s = varint(v);
            let n = s.len();
            &&& n >= 1
            &&& v < power::pow(128, n)
            &&& n > 1 ==> v >= power::pow(128, (n - 1) as nat)
            &&& i < n ==> s[i as int] % 128 == (v as int / power::pow(128, i)) % 128
            &&& i < n ==> (s[i as int] >= 128 <==> i < n - 1)
        }),
    decreases v,
{
    let s = varint(v);
    power::lemma_pow0(128);
    power::lemma_pow1(128);
    if v >= 128 {
        let rest = varint(v / 128);
        let m = rest.len();
        let before: nat = if i > 0 {
            (i - 1) as nat
        } else {
            0
        };
        law_seven_bits_to_a_byte(v / 128, before);
        assert(s =~= seq![(v % 128 + 128) as u8] + rest);
        assert(power::pow(128, (m + 1) as nat) == 128 * power::pow(128, m)) by {
            reveal(power::pow);
        }
        if m > 1 {
            assert(power::pow(128, m) == 128 * power::pow(128, (m - 1) as nat)) by {
                reveal(power::pow);
            }
        }
        if i > 0 {
            lemma_shifted(v as int, 128, i);
            if i < s.len() {
                assert(s[i as int] == rest[i - 1]);
            }
        }
    }
}

/// Reading takes the bytes up to the first without the top bit, of which there
/// must be one among the first ten, puts their groups of seven bits together,
/// the lowest first, and drops what is beyond 64 bits.
pub proof fn law_seven_bits_are_put_together(s: Seq<u8>, n: nat, i: nat)
    requires
        1 <= n <= s.len(),
        forall|k: int| 0 <= k < n - 1 ==> #[trigger] s[k] >= 128,
        s[n - 1] < 128,
    ensures
        n > 10 ==> read_varint(s) is None,
        n <= 10 ==> {
            &&& read_varint(s) is Some
            &&& (read_varint(s)->0).1 == s.skip(n as int)
            &&& ({
                let v = (read_varint(s)->0).0;
                &&& i < n && i < 9 ==> (v as int / power::pow(128, i)) % 128 == s[i as int] % 128
                &&& n < 10 ==> v < power::pow(128, n)
                &&& n == 10 ==> v as int / power::pow(128, 9) == s[9] % 2
            })
        },
{
    lemma_continued_exactly(s, (n - 1) as nat);
    if n <= 10 {
        let t = s.take(n as int);
        let sum = varint_sum(t) as int;
        lemma_sum_digits(t, i);
        lemma_cut(sum, i);
        if n < 10 {
            lemma_nine_groups(sum, n);
        } else {
            lemma_sum_digits(t, 9);
            lemma_ten_groups(sum);
        }
    }
}

/// Nine groups or fewer fit in 64 bits.
proof fn lemma_nine_groups(sum: int, n: nat)
    requires
        n <= 9,
        0 <= sum < power::pow(128, n),
    ensures
        sum % 0x1_0000_0000_0000_0000 == sum,
{
    lemma_nine();
    power::lemma_pow_increases(128, n, 9);
}

/// Of a tenth group one bit fits.
proof fn lemma_ten_groups(sum: int)
    requires
        sum >= 0,
    ensures
        (sum % 0x1_0000_0000_0000_0000) / power::pow(128, 9) == ((sum / power::pow(128, 9)) % 128) % 2,
{
    lemma_nine();
}

/// Cutting a number at 64 bits leaves its first nine groups of seven bits.
proof fn lemma_cut(x: int, i: nat)
    requires
        x >= 0,
    ensures
        i < 9 ==> ((x % 0x1_0000_0000_0000_0000) / power::pow(128, i)) % 128 == (x / power::pow(128, i)) % 128,
{
    if i < 9 {
        let d = power::pow(128, i);
        let m = 2 * power::pow(128, (8 - i) as nat);
        power::lemma_pow_positive(128, i);
        power::lemma_pow_positive(128, (8 - i) as nat);
        assert(power::pow(128, (9 - i) as nat) == 128 * power::pow(128, (8 - i) as nat)) by {
            reveal(power::pow);
        }
        power::lemma_pow_adds(128, i, (9 - i) as nat);
        lemma_nine();
        assert(d * (128 * m) == 0x1_0000_0000_0000_0000) by (nonlinear_arith)
            requires
                d * (64 * m) == 0x8000_0000_0000_0000,
        ;
        div_mod::lemma_mod_breakdown(x, d, 128 * m);
        let q = (x / d) % (128 * m);
        let r = x % d;
        assert((d * q + r) / d == q) by {
            div_mod::lemma_fundamental_div_mod_converse(d * q + r, d, q, r);
        }
        div_mod::lemma_mod_mod(x / d, 128, m);
    }
}

/// 128 to the ninth.
proof fn lemma_nine()
    ensures
        power::pow(128, 9) == 0x8000_0000_0000_0000,
{
    reveal(power::pow);
    reveal_with_fuel(power::pow, 10);
}

/// How many bytes are continued.
proof fn lemma_continued_exactly(s: Seq<u8>, m: nat)
    requires
        m < s.len(),
        forall|k: int| 0 <= k < m ==> #[trigger] s[k] >= 128,
        s[m as int] < 128,
    ensures
        continued(s) == m,
    decreases m,
{
    if m > 0 {
        let rest = s.drop_first();
        assert forall|k: int| 0 <= k < m - 1 implies #[trigger] rest[k] >= 128 by {
            assert(rest[k] == s[k + 1]);
        }
        lemma_continued_exactly(rest, (m - 1) as nat);
    }
}

/// The sum has the groups as its digits.
proof fn lemma_sum_digits(s: Seq<u8>, i: nat)
    ensures
        varint_sum(s) < power::pow(128, s.len()),
        i < s.len() ==> (varint_sum(s) as int / power::pow(128, i)) % 128 == s[i as int] % 128,
    decreases s.len(),
{
    power::lemma_pow0(128);
    if s.len() > 0 {
        let rest = s.drop_first();
        let before: nat = if i > 0 {
            (i - 1) as nat
        } else {
            0
        };
        lemma_sum_digits(rest, before);
        assert(power::pow(128, s.len()) == 128 * power::pow(128, rest.len())) by {
            reveal(power::pow);
        }
        assert(varint_sum(s) / 128 == varint_sum(rest));
        if i > 0 {
            lemma_shifted(varint_sum(s) as int, 128, i);
            if i < s.len() {
                assert(rest[i - 1] == s[i as int]);
            }
        }
    }
}

/// A byte string stands behind its length, and is read back with what follows
/// left over; so is a text, as UTF-8.
pub proof fn law_length_comes_first(bytes: Seq<u8>, t: Seq<char>, rest: Seq<u8>)
    requires
        bytes.len() <= u64::MAX,
        vstd::utf8::encode_utf8(t).len() <= u64::MAX,
    ensures
        prefixed(bytes) == varint(bytes.len()) + bytes,
        read_prefixed(prefixed(bytes) + rest) == Some((bytes, rest)),
        read_text(prefixed(vstd::utf8::encode_utf8(t)) + rest) == Some((t, rest)),
{
    lemma_prefixed_round_trip(bytes, rest);
    lemma_text_round_trip(t, rest);
}

} // verus!
