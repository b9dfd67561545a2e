//! Big-endian integer fields: the numbers they stand for, the bytes a number
//! is laid out as, and the calls that decode them.

use byteorder::{BigEndian, ByteOrder};
use vstd::prelude::*;

verus! {

/// The unsigned 16-bit number held big-endian in the first two bytes of `s`.
pub open spec fn be_u16(s: Seq<u8>) -> u16
    recommends
        s.len() >= 2,
{
    (s[0] as int * 0x100 + s[1] as int) as u16
}

/// The unsigned 32-bit number held big-endian in the first four bytes of `s`.
pub open spec fn be_u32(s: Seq<u8>) -> u32
    recommends
        s.len() >= 4,
{
    (s[0] as int * 0x100_0000 + s[1] as int * 0x1_0000 + s[2] as int * 0x100 + s[3] as int) as u32
}

/// The signed 32-bit number held big-endian, in two's complement, in the
/// first four bytes of `s`.
pub open spec fn be_i32(s: Seq<u8>) -> i32
    recommends
        s.len() >= 4,
{
    let u = be_u32(s) as int;
    if u < 0x8000_0000 {
        u as i32
    } else {
        (u - 0x1_0000_0000) as i32
    }
}

/// Byte `k` of `v`, counted from the least significant, which is byte 0.
#[verifier::opaque]
pub open spec fn byte_of(v: u32, k: int) -> u8
    recommends
        0 <= k < 4,
{
    if k == 0 {
        (v as int % 0x100) as u8
    } else if k == 1 {
        (v as int / 0x100 % 0x100) as u8
    } else if k == 2 {
        (v as int / 0x1_0000 % 0x100) as u8
    } else {
        (v as int / 0x100_0000 % 0x100) as u8
    }
}

/// The two bytes that hold `v`, most significant first.
pub open spec fn u16_bytes(v: u16) -> Seq<u8> {
    seq![byte_of(v as u32, 1), byte_of(v as u32, 0)]
}

/// The four bytes that hold `v`, most significant first.
pub open spec fn u32_bytes(v: u32) -> Seq<u8> {
    seq![byte_of(v, 3), byte_of(v, 2), byte_of(v, 1), byte_of(v, 0)]
}

/// The four bytes that hold `v` in two's complement, most significant first.
pub open spec fn i32_bytes(v: i32) -> Seq<u8> {
    if v < 0 {
        u32_bytes((v as int + 0x1_0000_0000) as u32)
    } else {
        u32_bytes(v as u32)
    }
}

/// The bytes of a number, each weighted by its place, add up to the number.
proof fn lemma_bytes_add_up(v: u32)
    ensures
        byte_of(v, 3) as int * 0x100_0000 + byte_of(v, 2) as int * 0x1_0000 + byte_of(v, 1) as int
            * 0x100 + byte_of(v, 0) as int == v,
        v < 0x1_0000 ==> byte_of(v, 3) == 0 && byte_of(v, 2) == 0,
{
    reveal(byte_of);
    assert((v / 0x100_0000 % 0x100) * 0x100_0000 + (v / 0x1_0000 % 0x100) * 0x1_0000 + (v / 0x100
        % 0x100) * 0x100 + v % 0x100 == v) by (bit_vector);
    assert(v < 0x1_0000 ==> v / 0x100_0000 % 0x100 == 0 && v / 0x1_0000 % 0x100 == 0)
        by (bit_vector);
}

/// A number put together from four bytes has those four as its bytes.
proof fn lemma_bytes_taken_apart(a: u8, b: u8, c: u8, d: u8)
    ensures
        byte_of((a as int * 0x100_0000 + b as int * 0x1_0000 + c as int * 0x100 + d as int) as u32, 3)
            == a,
        byte_of((a as int * 0x100_0000 + b as int * 0x1_0000 + c as int * 0x100 + d as int) as u32, 2)
            == b,
        byte_of((a as int * 0x100_0000 + b as int * 0x1_0000 + c as int * 0x100 + d as int) as u32, 1)
            == c,
        byte_of((a as int * 0x100_0000 + b as int * 0x1_0000 + c as int * 0x100 + d as int) as u32, 0)
            == d,
{
    reveal(byte_of);
    let v = (a as int * 0x100_0000 + b as int * 0x1_0000 + c as int * 0x100 + d as int) as u32;
    assert(v == a as u32 * 0x100_0000 + b as u32 * 0x1_0000 + c as u32 * 0x100 + d as u32);
    assert(v / 0x100_0000 % 0x100 == a && v / 0x1_0000 % 0x100 == b && v / 0x100 % 0x100 == c && v
        % 0x100 == d) by (bit_vector)
        requires
            v == a as u32 * 0x100_0000 + b as u32 * 0x1_0000 + c as u32 * 0x100 + d as u32,
    ;
}

/// Laying a number out and reading it back gives the number, whatever bytes
/// follow it.
pub proof fn lemma_read_u16_bytes(v: u16, rest: Seq<u8>)
    ensures
        u16_bytes(v).len() == 2,
        be_u16(u16_bytes(v) + rest) == v,
{
    lemma_bytes_add_up(v as u32);
    let s = u16_bytes(v) + rest;
    assert(s[0] == u16_bytes(v)[0]);
    assert(s[1] == u16_bytes(v)[1]);
}

/// The two bytes a 16-bit field is read from are the layout of what was read.
pub proof fn lemma_bytes_read_u16(s: Seq<u8>)
    requires
        s.len() >= 2,
    ensures
        u16_bytes(be_u16(s)) == s.take(2),
{
    lemma_bytes_taken_apart(0, 0, s[0], s[1]);
    assert(u16_bytes(be_u16(s)) =~= s.take(2));
}

/// Laying a number out and reading it back gives the number, whatever bytes
/// follow it.
pub proof fn lemma_read_u32_bytes(v: u32, rest: Seq<u8>)
    ensures
        u32_bytes(v).len() == 4,
        be_u32(u32_bytes(v) + rest) == v,
{
    lemma_bytes_add_up(v);
    let s = u32_bytes(v) + rest;
    assert(s[0] == u32_bytes(v)[0]);
    assert(s[1] == u32_bytes(v)[1]);
    assert(s[2] == u32_bytes(v)[2]);
    assert(s[3] == u32_bytes(v)[3]);
}

/// The four bytes a 32-bit field is read from are the layout of what was read.
pub proof fn lemma_bytes_read_u32(s: Seq<u8>)
    requires
        s.len() >= 4,
    ensures
        u32_bytes(be_u32(s)) == s.take(4),
{
    lemma_bytes_taken_apart(s[0], s[1], s[2], s[3]);
    assert(u32_bytes(be_u32(s)) =~= s.take(4));
}

/// Laying a signed number out and reading it back gives the number, whatever
/// bytes follow it.
pub proof fn lemma_read_i32_bytes(v: i32, rest: Seq<u8>)
    ensures
        i32_bytes(v).len() == 4,
        be_i32(i32_bytes(v) + rest) == v,
{
    if v < 0 {
        lemma_read_u32_bytes((v as int + 0x1_0000_0000) as u32, rest);
    } else {
        lemma_read_u32_bytes(v as u32, rest);
    }
}

/// The four bytes a signed 32-bit field is read from are the layout of what
/// was read.
pub proof fn lemma_bytes_read_i32(s: Seq<u8>)
    requires
        s.len() >= 4,
    ensures
        i32_bytes(be_i32(s)) == s.take(4),
{
    lemma_bytes_read_u32(s);
}

/// Decodes an unsigned 16-bit field with `byteorder::BigEndian::read_u16`.
///
/// Trusted, not proved: that call returns the number whose most significant
/// byte is `buf[0]` and whose least significant byte is `buf[1]`, and looks at
/// no other byte. It panics on fewer than two bytes, which `requires` excludes.
#[verifier::external_body]
pub(crate) fn decode_u16(buf: &[u8]) -> (v: u16)
    requires
        buf@.len() >= 2,
    ensures
        v == be_u16(buf@),
{
    BigEndian::read_u16(buf)
}

/// Decodes an unsigned 32-bit field with `byteorder::BigEndian::read_u32`.
///
/// Trusted, not proved: that call returns the number formed by the first four
/// bytes of `buf`, most significant first. It panics on fewer than four bytes,
/// which `requires` excludes.
#[verifier::external_body]
pub(crate) fn decode_u32(buf: &[u8]) -> (v: u32)
    requires
        buf@.len() >= 4,
    ensures
        v == be_u32(buf@),
{
    BigEndian::read_u32(buf)
}

/// Decodes a signed 32-bit field with `byteorder::BigEndian::read_i32`.
///
/// Trusted, not proved: that call reads the first four bytes of `buf` as an
/// unsigned big-endian number and reinterprets its 32 bits as two's
/// complement. It panics on fewer than four bytes, which `requires` excludes.
#[verifier::external_body]
pub(crate) fn decode_i32(buf: &[u8]) -> (v: i32)
    requires
        buf@.len() >= 4,
    ensures
        v == be_i32(buf@),
{
    BigEndian::read_i32(buf)
}

} // verus!
