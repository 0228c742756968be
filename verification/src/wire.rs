//! Big-endian integers inside a byte buffer.

use crate::basic::{be_bytes, be_value, lemma_bytes_round_trip, lemma_value_round_trip};
use vstd::prelude::*;

verus! {

/// The eight bytes of `v`, most significant first.
pub open spec fn be_bytes_u64(v: u64) -> Seq<u8> {
    be_bytes((v / 0x1_0000_0000) as u32) + be_bytes((v % 0x1_0000_0000) as u32)
}

/// The 32-bit integer written big-endian at `b[at..at + 4]`.
pub open spec fn u32_at(b: Seq<u8>, at: int) -> u32
    recommends
        0 <= at,
        at + 4 <= b.len(),
{
    be_value(b.subrange(at, at + 4))
}

/// The 64-bit integer written big-endian at `b[at..at + 8]`.
pub open spec fn u64_at(b: Seq<u8>, at: int) -> u64
    recommends
        0 <= at,
        at + 8 <= b.len(),
{
    (u32_at(b, at) as int * 0x1_0000_0000 + u32_at(b, at + 4) as int) as u64
}

/// The bit pattern of `v` in two's complement.
pub open spec fn i32_bits(v: i32) -> u32 {
    if v >= 0 {
        v as u32
    } else {
        (v + 0x1_0000_0000) as u32
    }
}

/// The signed integer whose two's complement bit pattern is `u`.
pub open spec fn i32_of_bits(u: u32) -> i32 {
    if u < 0x8000_0000 {
        u as i32
    } else {
        (u - 0x1_0000_0000) as i32
    }
}

/// Reading at the place where an integer was written gives it back,
/// whatever stands before and after.
pub proof fn lemma_u32_at_written(head: Seq<u8>, v: u32, tail: Seq<u8>)
    ensures
        u32_at(head + be_bytes(v) + tail, head.len() as int) == v,
{
    let b = head + be_bytes(v) + tail;
    assert(b.subrange(head.len() as int, head.len() as int + 4) =~= be_bytes(v));
    lemma_bytes_round_trip(v);
}

/// Reading at the place where a 64-bit integer was written gives it back,
/// whatever stands before and after.
pub proof fn lemma_u64_at_written(head: Seq<u8>, v: u64, tail: Seq<u8>)
    ensures
        be_bytes_u64(v).len() == 8,
        u64_at(head + be_bytes_u64(v) + tail, head.len() as int) == v,
{
    let hi = (v / 0x1_0000_0000) as u32;
    let lo = (v % 0x1_0000_0000) as u32;
    let b = head + be_bytes_u64(v) + tail;
    assert(b =~= head + be_bytes(hi) + (be_bytes(lo) + tail));
    lemma_u32_at_written(head, hi, be_bytes(lo) + tail);
    assert(b =~= (head + be_bytes(hi)) + be_bytes(lo) + tail);
    lemma_u32_at_written(head + be_bytes(hi), lo, tail);
}

/// Eight bytes are the bytes of the 64-bit integer that they write.
pub proof fn lemma_u64_bytes_at(b: Seq<u8>, at: int)
    requires
        0 <= at,
        at + 8 <= b.len(),
    ensures
        be_bytes_u64(u64_at(b, at)) == b.subrange(at, at + 8),
{
    let hi = b.subrange(at, at + 4);
    let lo = b.subrange(at + 4, at + 8);
    lemma_value_round_trip(hi);
    lemma_value_round_trip(lo);
    let v = u64_at(b, at);
    assert(v == be_value(hi) as int * 0x1_0000_0000 + be_value(lo) as int);
    assert(v / 0x1_0000_0000 == be_value(hi));
    assert(v % 0x1_0000_0000 == be_value(lo));
    assert(be_bytes_u64(v) == hi + lo);
    assert(hi + lo =~= b.subrange(at, at + 8));
}

/// A signed integer comes back from its bit pattern.
pub proof fn lemma_i32_bits_round_trip(v: i32)
    ensures
        i32_of_bits(i32_bits(v)) == v,
{
}

/// Appends the four big-endian bytes of `v`.
pub fn push_u32(out: &mut Vec<u8>, v: u32)
    ensures
        final(out)@ == old(out)@ + be_bytes(v),
{
    out.push((v / 0x100_0000) as u8);
    out.push((v / 0x1_0000 % 0x100) as u8);
    out.push((v / 0x100 % 0x100) as u8);
    out.push((v % 0x100) as u8);
    assert(out@ =~= old(out)@ + be_bytes(v));
}

/// Appends the eight big-endian bytes of `v`.
pub fn push_u64(out: &mut Vec<u8>, v: u64)
    ensures
        final(out)@ == old(out)@ + be_bytes_u64(v),
{
    push_u32(out, (v / 0x1_0000_0000) as u32);
    push_u32(out, (v % 0x1_0000_0000) as u32);
    assert(out@ =~= old(out)@ + be_bytes_u64(v));
}

/// Appends the four bytes of `v` in two's complement, big-endian.
pub fn push_i32(out: &mut Vec<u8>, v: i32)
    ensures
        final(out)@ == old(out)@ + be_bytes(i32_bits(v)),
{
    let bits: u32 = if v >= 0 {
        v as u32
    } else {
        ((v + 1 + i32::MAX) as u32) + 0x8000_0000
    };
    push_u32(out, bits);
}

/// Appends the bytes of `src`.
pub fn push_bytes(out: &mut Vec<u8>, src: &[u8])
    ensures
        final(out)@ == old(out)@ + src@,
{
    let mut i: usize = 0;
    while i < src.len()
        invariant
            i <= src.len(),
            out@ == old(out)@ + src@.take(i as int),
        decreases src.len() - i,
    {
        out.push(src[i]);
        assert(src@.take(i + 1) =~= src@.take(i as int).push(src@[i as int]));
        i += 1;
    }
    assert(src@.take(i as int) =~= src@);
}

/// Reads the big-endian 32-bit integer at `bytes[at..at + 4]`.
pub fn read_u32(bytes: &[u8], at: usize) -> (v: u32)
    requires
        at + 4 <= bytes.len(),
    ensures
        v == u32_at(bytes@, at as int),
{
    let b0: u32 = bytes[at] as u32;
    let b1: u32 = bytes[at + 1] as u32;
    let b2: u32 = bytes[at + 2] as u32;
    let b3: u32 = bytes[at + 3] as u32;
    b0 * 0x100_0000 + b1 * 0x1_0000 + b2 * 0x100 + b3
}

/// Reads the big-endian 64-bit integer at `bytes[at..at + 8]`.
pub fn read_u64(bytes: &[u8], at: usize) -> (v: u64)
    requires
        at + 8 <= bytes.len(),
    ensures
        v == u64_at(bytes@, at as int),
{
    let hi: u64 = read_u32(bytes, at) as u64;
    let lo: u64 = read_u32(bytes, at + 4) as u64;
    hi * 0x1_0000_0000 + lo
}

/// Reads the two's complement 32-bit integer at `bytes[at..at + 4]`.
pub fn read_i32(bytes: &[u8], at: usize) -> (v: i32)
    requires
        at + 4 <= bytes.len(),
    ensures
        v == i32_of_bits(u32_at(bytes@, at as int)),
{
    let bits: u32 = read_u32(bytes, at);
    if bits < 0x8000_0000 {
        bits as i32
    } else {
        ((bits - 0x8000_0000) as i32) - i32::MAX - 1
    }
}

} // verus!
