//! Byte-level building blocks of the wire format: big-endian integers,
//! single-byte booleans and NUL-terminated UTF-8 strings.

use vstd::arithmetic::div_mod::lemma_div_denominator;
use vstd::prelude::*;
use vstd::slice::slice_subrange;
use vstd::string::StringSliceAdditionalSpecFns;

use crate::protocol::packet::{nul_free, ErrMalformed};
use vstd::utf8::*;

verus! {

/// The two bytes of `v`, most significant first.
pub open spec fn be_u16(v: u16) -> Seq<u8> {
    seq![(v / 0x100) as u8, (v % 0x100) as u8]
}

/// The four bytes of `v`, most significant first.
pub open spec fn be_u32(v: u32) -> Seq<u8> {
    seq![
        (v / 0x100_0000) as u8,
        (v / 0x1_0000 % 0x100) as u8,
        (v / 0x100 % 0x100) as u8,
        (v % 0x100) as u8,
    ]
}

/// The eight bytes of `v`, most significant first.
pub open spec fn be_u64(v: u64) -> Seq<u8> {
    seq![
        (v / 0x100_0000_0000_0000) as u8,
        (v / 0x1_0000_0000_0000 % 0x100) as u8,
        (v / 0x100_0000_0000 % 0x100) as u8,
        (v / 0x1_0000_0000 % 0x100) as u8,
        (v / 0x100_0000 % 0x100) as u8,
        (v / 0x1_0000 % 0x100) as u8,
        (v / 0x100 % 0x100) as u8,
        (v % 0x100) as u8,
    ]
}

/// The number that the first two bytes of `b` spell, most significant first.
pub open spec fn u16_from_be(b: Seq<u8>) -> u16
    recommends
        b.len() >= 2,
{
    (b[0] as int * 0x100 + b[1] as int) as u16
}

/// The number that the first four bytes of `b` spell, most significant first.
pub open spec fn u32_from_be(b: Seq<u8>) -> u32
    recommends
        b.len() >= 4,
{
    (b[0] as int * 0x100_0000 + b[1] as int * 0x1_0000 + b[2] as int * 0x100 + b[3] as int) as u32
}

/// The number that the first eight bytes of `b` spell, most significant first.
pub open spec fn u64_from_be(b: Seq<u8>) -> u64
    recommends
        b.len() >= 8,
{
    (b[0] as int * 0x100_0000_0000_0000 + b[1] as int * 0x1_0000_0000_0000 + b[2] as int
        * 0x100_0000_0000 + b[3] as int * 0x1_0000_0000 + b[4] as int * 0x100_0000 + b[5] as int
        * 0x1_0000 + b[6] as int * 0x100 + b[7] as int) as u64
}

/// The byte that stands for a boolean.
pub open spec fn bool_byte(b: bool) -> u8 {
    if b {
        1
    } else {
        0
    }
}

/// Reading back what `be_u16` wrote gives the number again.
pub proof fn lemma_u16_round_trip(v: u16)
    ensures
        be_u16(v).len() == 2,
        u16_from_be(be_u16(v)) == v,
{
}

/// Reading back what `be_u32` wrote gives the number again.
pub proof fn lemma_u32_round_trip(v: u32)
    ensures
        be_u32(v).len() == 4,
        u32_from_be(be_u32(v)) == v,
{
}

/// Reading back what `be_u64` wrote gives the number again.
pub proof fn lemma_u64_round_trip(v: u64)
    ensures
        be_u64(v).len() == 8,
        u64_from_be(be_u64(v)) == v,
{
    let x = v as int;
    let q1 = x / 0x100;
    let q2 = q1 / 0x100;
    let q3 = q2 / 0x100;
    let q4 = q3 / 0x100;
    let q5 = q4 / 0x100;
    let q6 = q5 / 0x100;
    let q7 = q6 / 0x100;
    assert(q2 == x / 0x1_0000) by {
        lemma_div_denominator(x, 0x100, 0x100);
    }
    assert(q3 == x / 0x100_0000) by {
        lemma_div_denominator(x, 0x1_0000, 0x100);
    }
    assert(q4 == x / 0x1_0000_0000) by {
        lemma_div_denominator(x, 0x100_0000, 0x100);
    }
    assert(q5 == x / 0x100_0000_0000) by {
        lemma_div_denominator(x, 0x1_0000_0000, 0x100);
    }
    assert(q6 == x / 0x1_0000_0000_0000) by {
        lemma_div_denominator(x, 0x100_0000_0000, 0x100);
    }
    assert(q7 == x / 0x100_0000_0000_0000) by {
        lemma_div_denominator(x, 0x1_0000_0000_0000, 0x100);
    }
    assert(x == q1 * 0x100 + x % 0x100);
    assert(q1 == q2 * 0x100 + q1 % 0x100);
    assert(q2 == q3 * 0x100 + q2 % 0x100);
    assert(q3 == q4 * 0x100 + q3 % 0x100);
    assert(q4 == q5 * 0x100 + q4 % 0x100);
    assert(q5 == q6 * 0x100 + q5 % 0x100);
    assert(q6 == q7 * 0x100 + q6 % 0x100);
    assert(0 <= q7 < 0x100);
}

/// Appends the big-endian bytes of `v`.
pub fn put_u16(packet: &mut Vec<u8>, v: u16)
    ensures
        final(packet)@ == old(packet)@ + be_u16(v),
{
    packet.push((v / 0x100) as u8);
    packet.push((v % 0x100) as u8);
    assert(packet@ =~= old(packet)@ + be_u16(v));
}

/// Appends the big-endian bytes of `v`.
pub fn put_u32(packet: &mut Vec<u8>, v: u32)
    ensures
        final(packet)@ == old(packet)@ + be_u32(v),
{
    packet.push((v / 0x100_0000) as u8);
    packet.push((v / 0x1_0000 % 0x100) as u8);
    packet.push((v / 0x100 % 0x100) as u8);
    packet.push((v % 0x100) as u8);
    assert(packet@ =~= old(packet)@ + be_u32(v));
}

/// Appends the big-endian bytes of `v`.
pub fn put_u64(packet: &mut Vec<u8>, v: u64)
    ensures
        final(packet)@ == old(packet)@ + be_u64(v),
{
    packet.push((v / 0x100_0000_0000_0000) as u8);
    packet.push((v / 0x1_0000_0000_0000 % 0x100) as u8);
    packet.push((v / 0x100_0000_0000 % 0x100) as u8);
    packet.push((v / 0x1_0000_0000 % 0x100) as u8);
    packet.push((v / 0x100_0000 % 0x100) as u8);
    packet.push((v / 0x1_0000 % 0x100) as u8);
    packet.push((v / 0x100 % 0x100) as u8);
    packet.push((v % 0x100) as u8);
    assert(packet@ =~= old(packet)@ + be_u64(v));
}

/// Reads the big-endian number at the start of `b`.
pub fn get_u16(b: &[u8]) -> (v: u16)
    requires
        b@.len() >= 2,
    ensures
        v == u16_from_be(b@),
{
    let hi: u16 = b[0] as u16;
    let lo: u16 = b[1] as u16;
    hi * 0x100 + lo
}

/// Reads the big-endian number at the start of `b`.
pub fn get_u32(b: &[u8]) -> (v: u32)
    requires
        b@.len() >= 4,
    ensures
        v == u32_from_be(b@),
{
    let b0: u32 = b[0] as u32;
    let b1: u32 = b[1] as u32;
    let b2: u32 = b[2] as u32;
    let b3: u32 = b[3] as u32;
    b0 * 0x100_0000 + b1 * 0x1_0000 + b2 * 0x100 + b3
}

/// Reads the big-endian number at the start of `b`.
pub fn get_u64(b: &[u8]) -> (v: u64)
    requires
        b@.len() >= 8,
    ensures
        v == u64_from_be(b@),
{
    let b0: u64 = b[0] as u64;
    let b1: u64 = b[1] as u64;
    let b2: u64 = b[2] as u64;
    let b3: u64 = b[3] as u64;
    let b4: u64 = b[4] as u64;
    let b5: u64 = b[5] as u64;
    let b6: u64 = b[6] as u64;
    let b7: u64 = b[7] as u64;
    b0 * 0x100_0000_0000_0000 + b1 * 0x1_0000_0000_0000 + b2 * 0x100_0000_0000 + b3
        * 0x1_0000_0000 + b4 * 0x100_0000 + b5 * 0x1_0000 + b6 * 0x100 + b7
}

/// `s` as a NUL-terminated string: its UTF-8 bytes, then a zero byte.
pub open spec fn cstr(s: Seq<char>) -> Seq<u8> {
    encode_utf8(s) + seq![0u8]
}

/// The first zero byte of `b` is at `pos`.
pub open spec fn nul_at(b: Seq<u8>, pos: int) -> bool {
    &&& 0 <= pos < b.len()
    &&& b[pos] == 0
    &&& forall|j: int| 0 <= j < pos ==> b[j] != 0
}

/// `b` holds a zero byte.
pub open spec fn has_nul(b: Seq<u8>) -> bool {
    exists|pos: int| nul_at(b, pos)
}

/// Where the first zero byte of `b` is, if `b` holds one.
pub open spec fn nul_position(b: Seq<u8>) -> int {
    choose|pos: int| nul_at(b, pos)
}

/// Splits `b` at its first zero byte into the string before it and the bytes
/// after it.
#[verifier::opaque]
pub open spec fn parse_cstr(b: Seq<u8>) -> Result<(Seq<char>, Seq<u8>), ErrMalformed> {
    if !has_nul(b) {
        Err(ErrMalformed::MissingTerminator)
    } else {
        let pos = nul_position(b);
        let text = b.subrange(0, pos);
        if !valid_utf8(text) {
            Err(ErrMalformed::InvalidUtf8)
        } else {
            Ok((decode_utf8(text), b.subrange(pos + 1, b.len() as int)))
        }
    }
}

/// What is left of `b` after its first zero byte is shorter than `b`.
pub proof fn lemma_parse_cstr_shrinks(b: Seq<u8>)
    ensures
        parse_cstr(b) matches Ok(p) ==> p.1.len() < b.len(),
{
    reveal(parse_cstr);
}

/// There is one first zero byte at most.
pub proof fn lemma_nul_at_unique(b: Seq<u8>, pos: int)
    requires
        nul_at(b, pos),
    ensures
        has_nul(b),
        nul_position(b) == pos,
{
    let q = nul_position(b);
    assert(nul_at(b, q));
    if q < pos {
        assert(b[q] != 0);
    }
    if pos < q {
        assert(b[pos] != 0);
    }
}

proof fn lemma_high_bit_byte(x: u8)
    by (bit_vector)
    ensures
        0x80u8 | x != 0,
        0xC0u8 | x != 0,
        0xE0u8 | x != 0,
        0xF0u8 | x != 0,
{
}

proof fn lemma_low_seven_bits(c: u32)
    by (bit_vector)
    requires
        c != 0,
        c <= 0x7F,
    ensures
        (c & 0x7F) as u8 != 0,
{
}

/// The UTF-8 bytes of a string without NUL hold no zero byte.
pub proof fn lemma_utf8_nul_free(s: Seq<char>)
    requires
        nul_free(s),
    ensures
        forall|j: int| 0 <= j < encode_utf8(s).len() ==> encode_utf8(s)[j] != 0,
    decreases s.len(),
{
    if s.len() > 0 {
        let c = s[0] as u32;
        let head = encode_scalar(c);
        let tail = s.drop_first();
        char_is_scalar(s[0]);
        assert(c != 0) by {
            if c == 0 {
                char_u32_cast(s[0], 0u32);
                char_u32_cast('\0', 0u32);
            }
        }
        assert(nul_free(tail)) by {
            assert forall|i: int| 0 <= i < tail.len() implies tail[i] != '\0' by {
                assert(tail[i] == s[i + 1]);
            }
        }
        lemma_utf8_nul_free(tail);
        assert forall|k: int| 0 <= k < head.len() implies head[k] != 0 by {
            if has_width_1_encoding(c) {
                lemma_low_seven_bits(c);
            } else if has_width_2_encoding(c) {
                lemma_high_bit_byte(((c >> 6) & 0x1F) as u8);
                lemma_high_bit_byte((c & 0x3F) as u8);
            } else if has_width_3_encoding(c) {
                lemma_high_bit_byte(((c >> 12) & 0x0F) as u8);
                lemma_high_bit_byte(((c >> 6) & 0x3F) as u8);
                lemma_high_bit_byte((c & 0x3F) as u8);
            } else {
                lemma_high_bit_byte(((c >> 18) & 0x7) as u8);
                lemma_high_bit_byte(((c >> 12) & 0x3F) as u8);
                lemma_high_bit_byte(((c >> 6) & 0x3F) as u8);
                lemma_high_bit_byte((c & 0x3F) as u8);
            }
        }
        assert(encode_utf8(s) == head + encode_utf8(tail));
    }
}

/// A NUL-terminated string, whatever follows it, is read back as written.
pub proof fn lemma_cstr_round_trip(s: Seq<char>, rest: Seq<u8>)
    requires
        nul_free(s),
    ensures
        parse_cstr(cstr(s) + rest) == Ok::<_, ErrMalformed>((s, rest)),
{
    reveal(parse_cstr);
    let b = cstr(s) + rest;
    let pos = encode_utf8(s).len() as int;
    lemma_utf8_nul_free(s);
    assert(nul_at(b, pos));
    lemma_nul_at_unique(b, pos);
    assert(b.subrange(0, pos) =~= encode_utf8(s));
    assert(b.subrange(pos + 1, b.len() as int) =~= rest);
    encode_utf8_valid_utf8(s);
    encode_utf8_decode_utf8(s);
}

/// `core::str::from_utf8`: succeeds exactly on valid UTF-8, and the string
/// it gives is made of the bytes it was given.
#[verifier::external_body]
fn str_from_utf8<'a>(bytes: &'a [u8]) -> (r: Option<&'a str>)
    ensures
        r is Some <==> valid_utf8(bytes@),
        r matches Some(s) ==> s.spec_bytes() == bytes@,
{
    core::str::from_utf8(bytes).ok()
}

/// Splits `input` at its first zero byte: the string before it, and the
/// bytes after it.
pub fn take_cstring<'a>(input: &'a [u8]) -> (r: Result<(&'a str, &'a [u8]), ErrMalformed>)
    ensures
        match r {
            Ok((s, rest)) => parse_cstr(input@) == Ok::<_, ErrMalformed>((s@, rest@)),
            Err(e) => parse_cstr(input@) == Err::<(Seq<char>, Seq<u8>), _>(e),
        },
{
    proof {
        reveal(parse_cstr);
    }
    let mut pos: usize = 0;
    while pos < input.len() && input[pos] != 0
        invariant
            pos <= input@.len(),
            forall|j: int| 0 <= j < pos ==> input@[j] != 0,
        decreases input@.len() - pos,
    {
        pos += 1;
    }
    if pos == input.len() {
        assert(!has_nul(input@)) by {
            if has_nul(input@) {
                let q = nul_position(input@);
                assert(nul_at(input@, q));
            }
        }
        return Err(ErrMalformed::MissingTerminator);
    }
    proof {
        lemma_nul_at_unique(input@, pos as int);
    }
    let left = slice_subrange(input, 0, pos);
    let rest = slice_subrange(input, pos + 1, input.len());
    match str_from_utf8(left) {
        Some(s) => {
            proof {
                encode_utf8_decode_utf8(s@);
            }
            Ok((s, rest))
        },
        None => Err(ErrMalformed::InvalidUtf8),
    }
}

} // verus!
