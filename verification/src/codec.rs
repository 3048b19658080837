//! Little-endian byte encoding of the scalar values that make up cache
//! buffers and the persisted container. Every encoder is exact and every
//! decoder is proved to invert it.

use vstd::assert_seqs_equal;
use vstd::prelude::*;

verus! {

/// The four little-endian bytes of a 32-bit value.
#[verifier::opaque]
pub open spec fn u32_bytes(v: u32) -> Seq<u8> {
    seq![
        (v % 0x100) as u8,
        ((v / 0x100) % 0x100) as u8,
        ((v / 0x10000) % 0x100) as u8,
        ((v / 0x1000000) % 0x100) as u8,
    ]
}

/// The 32-bit value held by four little-endian bytes.
#[verifier::opaque]
pub open spec fn u32_of_bytes(b: Seq<u8>) -> u32
    recommends
        b.len() == 4,
{
    (b[0] + b[1] * 0x100 + b[2] * 0x10000 + b[3] * 0x1000000) as u32
}

pub proof fn lemma_u32_bytes_len(v: u32)
    ensures
        u32_bytes(v).len() == 4,
{
    reveal(u32_bytes);
}

pub proof fn lemma_u32_round_trip(v: u32)
    ensures
        u32_of_bytes(u32_bytes(v)) == v,
{
    reveal(u32_bytes);
    reveal(u32_of_bytes);
    assert(v == v % 0x100 + (v / 0x100) % 0x100 * 0x100 + (v / 0x10000) % 0x100 * 0x10000 + (v
        / 0x1000000) % 0x100 * 0x1000000) by (bit_vector);
}

/// The eight little-endian bytes of a 64-bit value.
#[verifier::opaque]
pub open spec fn u64_bytes(v: u64) -> Seq<u8> {
    seq![
        (v % 0x100) as u8,
        ((v / 0x100) % 0x100) as u8,
        ((v / 0x10000) % 0x100) as u8,
        ((v / 0x1000000) % 0x100) as u8,
        ((v / 0x100000000) % 0x100) as u8,
        ((v / 0x10000000000) % 0x100) as u8,
        ((v / 0x1000000000000) % 0x100) as u8,
        ((v / 0x100000000000000) % 0x100) as u8,
    ]
}

/// The 64-bit value held by eight little-endian bytes.
#[verifier::opaque]
pub open spec fn u64_of_bytes(b: Seq<u8>) -> u64
    recommends
        b.len() == 8,
{
    (b[0] + b[1] * 0x100 + b[2] * 0x10000 + b[3] * 0x1000000 + b[4] * 0x100000000 + b[5]
        * 0x10000000000 + b[6] * 0x1000000000000 + b[7] * 0x100000000000000) as u64
}

pub proof fn lemma_u64_bytes_len(v: u64)
    ensures
        u64_bytes(v).len() == 8,
{
    reveal(u64_bytes);
}

pub proof fn lemma_u64_round_trip(v: u64)
    ensures
        u64_of_bytes(u64_bytes(v)) == v,
{
    reveal(u64_bytes);
    reveal(u64_of_bytes);
    assert(v == v % 0x100 + (v / 0x100) % 0x100 * 0x100 + (v / 0x10000) % 0x100 * 0x10000 + (v
        / 0x1000000) % 0x100 * 0x1000000 + (v / 0x100000000) % 0x100 * 0x100000000 + (v
        / 0x10000000000) % 0x100 * 0x10000000000 + (v / 0x1000000000000) % 0x100 * 0x1000000000000
        + (v / 0x100000000000000) % 0x100 * 0x100000000000000) by (bit_vector);
}

/// Signed 64-bit values travel as their two's-complement bit pattern.
pub open spec fn i64_bytes(v: i64) -> Seq<u8> {
    u64_bytes(v as u64)
}

pub open spec fn i64_of_bytes(b: Seq<u8>) -> i64
    recommends
        b.len() == 8,
{
    u64_of_bytes(b) as i64
}

pub proof fn lemma_i64_bytes_len(v: i64)
    ensures
        i64_bytes(v).len() == 8,
{
    lemma_u64_bytes_len(v as u64);
}

pub proof fn lemma_i64_round_trip(v: i64)
    ensures
        i64_of_bytes(i64_bytes(v)) == v,
{
    lemma_u64_round_trip(v as u64);
    assert(v as u64 as i64 == v) by (bit_vector);
}

/// Appends the four little-endian bytes of `v`.
pub fn push_u32(buf: &mut Vec<u8>, v: u32)
    ensures
        final(buf)@ == old(buf)@ + u32_bytes(v),
{
    buf.push((v % 0x100) as u8);
    buf.push(((v / 0x100) % 0x100) as u8);
    buf.push(((v / 0x10000) % 0x100) as u8);
    buf.push(((v / 0x1000000) % 0x100) as u8);
    proof {
        reveal(u32_bytes);
        assert_seqs_equal!(buf@ == old(buf)@ + u32_bytes(v));
    }
}

/// Appends the eight little-endian bytes of `v`.
pub fn push_u64(buf: &mut Vec<u8>, v: u64)
    ensures
        final(buf)@ == old(buf)@ + u64_bytes(v),
{
    buf.push((v % 0x100) as u8);
    buf.push(((v / 0x100) % 0x100) as u8);
    buf.push(((v / 0x10000) % 0x100) as u8);
    buf.push(((v / 0x1000000) % 0x100) as u8);
    buf.push(((v / 0x100000000) % 0x100) as u8);
    buf.push(((v / 0x10000000000) % 0x100) as u8);
    buf.push(((v / 0x1000000000000) % 0x100) as u8);
    buf.push(((v / 0x100000000000000) % 0x100) as u8);
    proof {
        reveal(u64_bytes);
        assert_seqs_equal!(buf@ == old(buf)@ + u64_bytes(v));
    }
}

/// Appends the eight bytes of the two's-complement pattern of `v`.
pub fn push_i64(buf: &mut Vec<u8>, v: i64)
    ensures
        final(buf)@ == old(buf)@ + i64_bytes(v),
{
    push_u64(buf, v as u64);
}

/// Reads the 32-bit value at byte offset `off`.
pub fn read_u32(buf: &Vec<u8>, off: usize) -> (r: u32)
    requires
        off + 4 <= buf@.len(),
    ensures
        r == u32_of_bytes(buf@.subrange(off as int, off + 4)),
{
    let n: usize = buf.len();
    let b0: u32 = buf[off] as u32;
    let b1: u32 = buf[off + 1] as u32;
    let b2: u32 = buf[off + 2] as u32;
    let b3: u32 = buf[off + 3] as u32;
    proof {
        reveal(u32_of_bytes);
    }
    b0 + b1 * 0x100 + b2 * 0x10000 + b3 * 0x1000000
}

/// Reads the 64-bit value at byte offset `off`.
pub fn read_u64(buf: &Vec<u8>, off: usize) -> (r: u64)
    requires
        off + 8 <= buf@.len(),
    ensures
        r == u64_of_bytes(buf@.subrange(off as int, off + 8)),
{
    let n: usize = buf.len();
    let b0: u64 = buf[off] as u64;
    let b1: u64 = buf[off + 1] as u64;
    let b2: u64 = buf[off + 2] as u64;
    let b3: u64 = buf[off + 3] as u64;
    let b4: u64 = buf[off + 4] as u64;
    let b5: u64 = buf[off + 5] as u64;
    let b6: u64 = buf[off + 6] as u64;
    let b7: u64 = buf[off + 7] as u64;
    proof {
        reveal(u64_of_bytes);
    }
    b0 + b1 * 0x100 + b2 * 0x10000 + b3 * 0x1000000 + b4 * 0x100000000 + b5 * 0x10000000000 + b6
        * 0x1000000000000 + b7 * 0x100000000000000
}

/// Reads the signed 64-bit value at byte offset `off`.
pub fn read_i64(buf: &Vec<u8>, off: usize) -> (r: i64)
    requires
        off + 8 <= buf@.len(),
    ensures
        r == i64_of_bytes(buf@.subrange(off as int, off + 8)),
{
    read_u64(buf, off) as i64
}

} // verus!
