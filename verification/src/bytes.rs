//! Fixed-width integers as they lie in a byte buffer.
//!
//! Every read is bounded by the buffer: a byte past its end reads as zero, so
//! a field that the buffer cuts short is read from the bytes that are there.

use vstd::prelude::*;

verus! {

/// The byte at index `i` of `s`, or zero where `s` has no such byte.
pub open spec fn byte_at(s: Seq<u8>, i: int) -> int {
    if 0 <= i < s.len() {
        s[i] as int
    } else {
        0
    }
}

/// The unsigned 16-bit integer whose little-endian bytes start at `at`.
pub open spec fn le_u16(s: Seq<u8>, at: int) -> int {
    byte_at(s, at) + 0x100 * byte_at(s, at + 1)
}

/// The unsigned 32-bit integer whose little-endian bytes start at `at`.
pub open spec fn le_u32(s: Seq<u8>, at: int) -> int {
    byte_at(s, at) + 0x100 * byte_at(s, at + 1) + 0x1_0000 * byte_at(s, at + 2) + 0x100_0000
        * byte_at(s, at + 3)
}

/// The unsigned 32-bit integer whose big-endian bytes start at `at`.
pub open spec fn be_u32(s: Seq<u8>, at: int) -> int {
    0x100_0000 * byte_at(s, at) + 0x1_0000 * byte_at(s, at + 1) + 0x100 * byte_at(s, at + 2)
        + byte_at(s, at + 3)
}

/// The two's complement reading of a 16-bit pattern.
pub open spec fn signed16(v: int) -> int {
    if v >= 0x8000 {
        v - 0x1_0000
    } else {
        v
    }
}

/// The two's complement reading of a 32-bit pattern.
pub open spec fn signed32(v: int) -> int {
    if v >= 0x8000_0000 {
        v - 0x1_0000_0000
    } else {
        v
    }
}

/// The low 32 bits of `v` as four bytes, most significant first.
pub open spec fn be_bytes(v: int) -> Seq<u8> {
    seq![
        ((v / 0x100_0000) % 0x100) as u8,
        ((v / 0x1_0000) % 0x100) as u8,
        ((v / 0x100) % 0x100) as u8,
        (v % 0x100) as u8,
    ]
}

/// Reads the byte `k` places after `at`, or zero past the end of `s`.
fn byte_after(s: &[u8], at: usize, k: usize) -> (b: u8)
    ensures
        b as int == byte_at(s@, at + k),
{
    let n = s.len();
    if at < n && k < n - at {
        s[at + k]
    } else {
        0
    }
}

/// Reads an unsigned little-endian 16-bit integer at `at`.
pub fn read_le_u16(s: &[u8], at: usize) -> (v: u16)
    ensures
        v as int == le_u16(s@, at as int),
{
    let b0 = byte_after(s, at, 0) as u16;
    let b1 = byte_after(s, at, 1) as u16;
    b0 + 0x100 * b1
}

/// Reads an unsigned little-endian 32-bit integer at `at`.
pub fn read_le_u32(s: &[u8], at: usize) -> (v: u32)
    ensures
        v as int == le_u32(s@, at as int),
{
    let b0 = byte_after(s, at, 0) as u32;
    let b1 = byte_after(s, at, 1) as u32;
    let b2 = byte_after(s, at, 2) as u32;
    let b3 = byte_after(s, at, 3) as u32;
    b0 + 0x100 * b1 + 0x1_0000 * b2 + 0x100_0000 * b3
}

/// Reads an unsigned big-endian 32-bit integer at `at`.
pub fn read_be_u32(s: &[u8], at: usize) -> (v: u32)
    ensures
        v as int == be_u32(s@, at as int),
{
    let b0 = byte_after(s, at, 0) as u32;
    let b1 = byte_after(s, at, 1) as u32;
    let b2 = byte_after(s, at, 2) as u32;
    let b3 = byte_after(s, at, 3) as u32;
    0x100_0000 * b0 + 0x1_0000 * b1 + 0x100 * b2 + b3
}

/// Reads a 16-bit pattern as a two's complement integer.
pub fn to_i16(v: u16) -> (r: i16)
    ensures
        r as int == signed16(v as int),
{
    if v >= 0x8000 {
        ((v - 0x8000) as i16) + i16::MIN
    } else {
        v as i16
    }
}

/// Reads a 32-bit pattern as a two's complement integer.
pub fn to_i32(v: u32) -> (r: i32)
    ensures
        r as int == signed32(v as int),
{
    if v >= 0x8000_0000 {
        ((v - 0x8000_0000) as i32) + i32::MIN
    } else {
        v as i32
    }
}

/// Appends the low 32 bits of `v` to `out`, most significant byte first.
pub fn push_be_bytes(out: &mut Vec<u8>, v: usize)
    ensures
        final(out)@ == old(out)@ + be_bytes(v as int),
{
    let b0 = ((v / 0x100_0000) % 0x100) as u8;
    let b1 = ((v / 0x1_0000) % 0x100) as u8;
    let b2 = ((v / 0x100) % 0x100) as u8;
    let b3 = (v % 0x100) as u8;
    out.push(b0);
    out.push(b1);
    out.push(b2);
    out.push(b3);
}

/// A 32-bit integer written big-endian reads back as itself.
pub proof fn lemma_be_bytes_read_back(v: int, rest: Seq<u8>)
    requires
        0 <= v < 0x1_0000_0000,
    ensures
        be_u32(be_bytes(v) + rest, 0) == v,
{
    let s = be_bytes(v) + rest;
    assert(s[0] == be_bytes(v)[0]);
    assert(s[1] == be_bytes(v)[1]);
    assert(s[2] == be_bytes(v)[2]);
    assert(s[3] == be_bytes(v)[3]);
}

} // verus!
