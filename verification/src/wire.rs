//! Little-endian integers as byte sequences.
use vstd::prelude::*;

verus! {

/// The two bytes of `v`, low byte first.
pub open spec fn u16_le(v: u16) -> Seq<u8> {
    seq![(v % 256) as u8, (v / 256) as u8]
}

/// The four bytes of `v`, low byte first.
pub open spec fn u32_le(v: u32) -> Seq<u8> {
    seq![
        (v % 256) as u8,
        (v / 256 % 256) as u8,
        (v / 65536 % 256) as u8,
        (v / 16777216) as u8,
    ]
}

/// The 16-bit value whose low byte is `b[at]`.
pub open spec fn le_u16(b: Seq<u8>, at: int) -> u16
    recommends
        0 <= at,
        at + 2 <= b.len(),
{
    (b[at] + 256 * b[at + 1]) as u16
}

/// The 32-bit value whose low byte is `b[at]`.
pub open spec fn le_u32(b: Seq<u8>, at: int) -> u32
    recommends
        0 <= at,
        at + 4 <= b.len(),
{
    (b[at] + 256 * b[at + 1] + 65536 * b[at + 2] + 16777216 * b[at + 3]) as u32
}

/// The two's-complement bit pattern of `v`.
pub open spec fn i32_bits(v: i32) -> u32 {
    if v >= 0 {
        v as u32
    } else {
        (v + 0x1_0000_0000) as u32
    }
}

/// The signed value with the bit pattern `u`.
pub open spec fn bits_i32(u: u32) -> i32 {
    if u < 0x8000_0000 {
        u as i32
    } else {
        (u - 0x1_0000_0000) as i32
    }
}

/// Reading back what `u16_le` wrote gives the value.
pub proof fn lemma_u16_round_trip(v: u16)
    ensures
        u16_le(v).len() == 2,
        le_u16(u16_le(v), 0) == v,
{
}

/// Reading back what `u32_le` wrote gives the value.
pub proof fn lemma_u32_round_trip(v: u32)
    ensures
        u32_le(v).len() == 4,
        le_u32(u32_le(v), 0) == v,
{
}

/// The four base-256 digits of a number below 2^32 are the ones it was built from.
proof fn lemma_digits(b0: int, b1: int, b2: int, b3: int)
    requires
        0 <= b0 < 256,
        0 <= b1 < 256,
        0 <= b2 < 256,
        0 <= b3 < 256,
    ensures
        ({
            let v = b0 + 256 * b1 + 65536 * b2 + 16777216 * b3;
            &&& 0 <= v < 0x1_0000_0000
            &&& v % 256 == b0
            &&& v / 256 % 256 == b1
            &&& v / 65536 % 256 == b2
            &&& v / 16777216 == b3
        }),
{
    let v = b0 + 256 * b1 + 65536 * b2 + 16777216 * b3;
    let w1 = b1 + 256 * b2 + 65536 * b3;
    let w2 = b2 + 256 * b3;
    assert(v == b0 + 256 * w1);
    assert(v / 256 == w1);
    assert(w1 == b1 + 256 * w2);
    assert(v / 65536 == w2);
    assert(v / 16777216 == b3);
}

/// Writing what `le_u32` read gives the four bytes back.
pub proof fn lemma_u32_bytes_round_trip(b: Seq<u8>, at: int)
    requires
        0 <= at,
        at + 4 <= b.len(),
    ensures
        u32_le(le_u32(b, at)) == b.subrange(at, at + 4),
{
    lemma_digits(b[at] as int, b[at + 1] as int, b[at + 2] as int, b[at + 3] as int);
    assert(u32_le(le_u32(b, at)) =~= b.subrange(at, at + 4));
}

/// A 32-bit field that holds the bytes of `v` reads as `v`.
pub proof fn lemma_field_u32(b: Seq<u8>, at: int, v: u32)
    requires
        0 <= at,
        at + 4 <= b.len(),
        b.subrange(at, at + 4) == u32_le(v),
    ensures
        le_u32(b, at) == v,
{
    let f = b.subrange(at, at + 4);
    assert(b[at] == f[0] && b[at + 1] == f[1] && b[at + 2] == f[2] && b[at + 3] == f[3]);
    lemma_u32_round_trip(v);
}

/// A 16-bit field that holds the bytes of `v` reads as `v`.
pub proof fn lemma_field_u16(b: Seq<u8>, at: int, v: u16)
    requires
        0 <= at,
        at + 2 <= b.len(),
        b.subrange(at, at + 2) == u16_le(v),
    ensures
        le_u16(b, at) == v,
{
    let f = b.subrange(at, at + 2);
    assert(b[at] == f[0] && b[at + 1] == f[1]);
    lemma_u16_round_trip(v);
}

/// The bit pattern of a signed value and back.
pub proof fn lemma_i32_round_trip(v: i32)
    ensures
        bits_i32(i32_bits(v)) == v,
{
}

/// The bytes of `v`, low byte first.
pub fn u16_to_le(v: u16) -> (out: [u8; 2])
    ensures
        out@ == u16_le(v),
{
    let out: [u8; 2] = [(v % 256) as u8, (v / 256) as u8];
    assert(out@ =~= u16_le(v));
    out
}

/// The bytes of `v`, low byte first.
pub fn u32_to_le(v: u32) -> (out: [u8; 4])
    ensures
        out@ == u32_le(v),
{
    let out: [u8; 4] = [
        (v % 256) as u8,
        (v / 256 % 256) as u8,
        (v / 65536 % 256) as u8,
        (v / 16777216) as u8,
    ];
    assert(out@ =~= u32_le(v));
    out
}

/// The bit pattern of `v`.
pub fn i32_to_bits(v: i32) -> (u: u32)
    ensures
        u == i32_bits(v),
{
    if v >= 0 {
        v as u32
    } else {
        (v as i64 + 0x1_0000_0000) as u32
    }
}

/// The signed value with the bit pattern `u`.
pub fn bits_to_i32(u: u32) -> (v: i32)
    ensures
        v == bits_i32(u),
{
    if u < 0x8000_0000 {
        u as i32
    } else {
        (u as i64 - 0x1_0000_0000) as i32
    }
}

} // verus!
