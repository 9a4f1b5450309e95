//! Little-endian integers in byte sequences.
use vstd::prelude::*;

verus! {

/// The unsigned 16-bit integer stored at `at`.
pub open spec fn le_u16(s: Seq<u8>, at: int) -> int {
    s[at] + 256 * s[at + 1]
}

/// The signed 16-bit integer stored at `at`.
pub open spec fn le_i16(s: Seq<u8>, at: int) -> int {
    if le_u16(s, at) < 0x8000 {
        le_u16(s, at)
    } else {
        le_u16(s, at) - 0x1_0000
    }
}

/// The unsigned 32-bit integer stored at `at`.
pub open spec fn le_u32(s: Seq<u8>, at: int) -> int {
    s[at] + 256 * s[at + 1] + 65536 * s[at + 2] + 16777216 * s[at + 3]
}

/// The signed 32-bit integer stored at `at`.
pub open spec fn le_i32(s: Seq<u8>, at: int) -> int {
    if le_u32(s, at) < 0x8000_0000 {
        le_u32(s, at)
    } else {
        le_u32(s, at) - 0x1_0000_0000
    }
}

/// The four bytes of `v`, least significant first.
pub open spec fn u32_bytes(v: u32) -> Seq<u8> {
    seq![
        (v % 256) as u8,
        ((v / 256) % 256) as u8,
        ((v / 65536) % 256) as u8,
        ((v / 16777216) % 256) as u8,
    ]
}

/// `v` as an unsigned 16-bit integer with the same bits.
pub open spec fn i16_bits(v: i16) -> int {
    if v < 0 {
        v + 0x1_0000
    } else {
        v as int
    }
}

/// The two bytes of `v`, least significant first.
pub open spec fn i16_bytes(v: i16) -> Seq<u8> {
    seq![(i16_bits(v) % 256) as u8, (i16_bits(v) / 256) as u8]
}

/// `b` read as a signed byte.
pub open spec fn byte_i8(b: u8) -> int {
    if b < 128 {
        b as int
    } else {
        b - 256
    }
}

/// `v` as an unsigned byte with the same bits.
pub open spec fn i8_byte(v: i8) -> u8 {
    if v < 0 {
        (v + 256) as u8
    } else {
        v as u8
    }
}

/// Reading back a written `u32` gives the same value.
pub proof fn law_u32_round_trip(v: u32)
    ensures
        le_u32(u32_bytes(v), 0) == v,
{
    let b = v / 256;
    let c = b / 256;
    let d = c / 256;
    assert(v / 65536 == c && v / 16777216 == d && d < 256) by (bit_vector)
        requires
            b == v / 256,
            c == b / 256,
            d == c / 256,
    ;
    assert(v == 256 * b + v % 256);
    assert(b == 256 * c + b % 256);
    assert(c == 256 * d + c % 256);
}

/// Reading back a written `i16` gives the same value.
pub proof fn law_i16_round_trip(v: i16)
    ensures
        le_i16(i16_bytes(v), 0) == v,
{
}

/// Reading back a written `i8` gives the same value.
pub proof fn law_i8_round_trip(v: i8)
    ensures
        byte_i8(i8_byte(v)) == v,
{
}

/// The bytes of `s`, four for each number.
pub open spec fn u32s_bytes(s: Seq<u32>) -> Seq<u8> {
    Seq::new(s.len() * 4, |i: int| u32_bytes(s[i / 4])[i % 4])
}

/// The bytes of `s`, two for each number.
pub open spec fn i16s_bytes(s: Seq<i16>) -> Seq<u8> {
    Seq::new(s.len() * 2, |i: int| i16_bytes(s[i / 2])[i % 2])
}

pub proof fn lemma_u32s_push(s: Seq<u32>, v: u32)
    ensures
        u32s_bytes(s.push(v)) == u32s_bytes(s) + u32_bytes(v),
{
    assert(u32s_bytes(s.push(v)) =~= u32s_bytes(s) + u32_bytes(v));
}

pub proof fn lemma_i16s_push(s: Seq<i16>, v: i16)
    ensures
        i16s_bytes(s.push(v)) == i16s_bytes(s) + i16_bytes(v),
{
    assert(i16s_bytes(s.push(v)) =~= i16s_bytes(s) + i16_bytes(v));
}

/// Where the bytes of `s` stand in `all` from `at` on, reading the number at place `j` gives `s[j]`.
pub proof fn law_read_u32s(all: Seq<u8>, at: int, s: Seq<u32>, j: int)
    requires
        0 <= at,
        at + s.len() * 4 <= all.len(),
        all.subrange(at, at + s.len() * 4) == u32s_bytes(s),
        0 <= j < s.len(),
    ensures
        le_u32(all, at + 4 * j) == s[j],
{
    let part = all.subrange(at, at + s.len() * 4);
    assert(all[at + 4 * j] == part[4 * j]);
    assert(all[at + 4 * j + 1] == part[4 * j + 1]);
    assert(all[at + 4 * j + 2] == part[4 * j + 2]);
    assert(all[at + 4 * j + 3] == part[4 * j + 3]);
    law_u32_round_trip(s[j]);
}

/// Where the bytes of `s` stand in `all` from `at` on, reading the number at place `j` gives `s[j]`.
pub proof fn law_read_i16s(all: Seq<u8>, at: int, s: Seq<i16>, j: int)
    requires
        0 <= at,
        at + s.len() * 2 <= all.len(),
        all.subrange(at, at + s.len() * 2) == i16s_bytes(s),
        0 <= j < s.len(),
    ensures
        le_i16(all, at + 2 * j) == s[j],
{
    let part = all.subrange(at, at + s.len() * 2);
    assert(all[at + 2 * j] == part[2 * j]);
    assert(all[at + 2 * j + 1] == part[2 * j + 1]);
    law_i16_round_trip(s[j]);
}

pub fn read_i16(s: &[u8], at: usize) -> (v: i16)
    requires
        at + 2 <= s.len(),
    ensures
        v == le_i16(s@, at as int),
{
    let u: i32 = s[at] as i32 + 256 * (s[at + 1] as i32);
    if u < 0x8000 {
        u as i16
    } else {
        (u - 0x1_0000) as i16
    }
}

pub fn read_u32(s: &[u8], at: usize) -> (v: u32)
    requires
        at + 4 <= s.len(),
    ensures
        v == le_u32(s@, at as int),
{
    s[at] as u32 + 256 * (s[at + 1] as u32) + 65536 * (s[at + 2] as u32) + 16777216 * (s[at
        + 3] as u32)
}

pub fn read_i32(s: &[u8], at: usize) -> (v: i32)
    requires
        at + 4 <= s.len(),
    ensures
        v == le_i32(s@, at as int),
{
    let u: u32 = read_u32(s, at);
    if u < 0x8000_0000 {
        u as i32
    } else {
        (u as i64 - 0x1_0000_0000) as i32
    }
}

pub fn read_i8(s: &[u8], at: usize) -> (v: i8)
    requires
        at < s.len(),
    ensures
        v == byte_i8(s@[at as int]),
{
    let b: u8 = s[at];
    if b < 128 {
        b as i8
    } else {
        (b as i16 - 256) as i8
    }
}

pub fn push_u32(out: &mut Vec<u8>, v: u32)
    ensures
        final(out)@ == old(out)@ + u32_bytes(v),
{
    out.push((v % 256) as u8);
    out.push(((v / 256) % 256) as u8);
    out.push(((v / 65536) % 256) as u8);
    out.push(((v / 16777216) % 256) as u8);
}

pub fn push_i16(out: &mut Vec<u8>, v: i16)
    ensures
        final(out)@ == old(out)@ + i16_bytes(v),
{
    let u: i32 = if v < 0 {
        v as i32 + 0x1_0000
    } else {
        v as i32
    };
    out.push((u % 256) as u8);
    out.push((u / 256) as u8);
}

pub fn push_i8(out: &mut Vec<u8>, v: i8)
    ensures
        final(out)@ == old(out)@.push(i8_byte(v)),
{
    if v < 0 {
        out.push((v as i16 + 256) as u8);
    } else {
        out.push(v as u8);
    }
}

/// Integers stand with their least significant byte first; signed ones in two's complement.
pub proof fn law_little_endian(s: Seq<u8>, at: int)
    ensures
        le_u16(s, at) == s[at] + 0x100 * s[at + 1],
        le_u32(s, at) == s[at] + 0x100 * s[at + 1] + 0x1_0000 * s[at + 2] + 0x100_0000 * s[at + 3],
        s[at + 1] < 128 ==> le_i16(s, at) == s[at] + 0x100 * s[at + 1],
        s[at + 1] >= 128 ==> le_i16(s, at) == s[at] + 0x100 * s[at + 1] - 0x1_0000,
        s[at + 3] < 128 ==> le_i32(s, at) == le_u32(s, at),
        s[at + 3] >= 128 ==> le_i32(s, at) == le_u32(s, at) - 0x1_0000_0000,
        s[at] < 128 ==> byte_i8(s[at]) == s[at],
        s[at] >= 128 ==> byte_i8(s[at]) == s[at] - 0x100,
{
}

} // verus!
