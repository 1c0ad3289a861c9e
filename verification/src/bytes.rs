//! Little-endian fixed-width integers in byte buffers.
use crate::bitops::{lemma_u16_join, lemma_u16_parts, lemma_u32_join, lemma_u32_parts, lemma_u64_join, lemma_u64_parts};
use vstd::prelude::*;

verus! {

pub open spec fn le_u16(v: u16) -> Seq<u8> {
    seq![(v % 256) as u8, (v / 256) as u8]
}

pub open spec fn le_u32(v: u32) -> Seq<u8> {
    seq![(v % 256) as u8, ((v / 256) % 256) as u8, ((v / 0x1_0000) % 256) as u8, (v / 0x100_0000) as u8]
}

pub open spec fn le_u64(v: u64) -> Seq<u8> {
    le_u32((v % 0x1_0000_0000) as u32) + le_u32((v / 0x1_0000_0000) as u32)
}

/// The value of two little-endian bytes.
pub open spec fn from_le_u16(b: Seq<u8>, i: int) -> u16 {
    (b[i] + 256 * b[i + 1]) as u16
}

/// The value of four little-endian bytes.
pub open spec fn from_le_u32(b: Seq<u8>, i: int) -> u32 {
    (b[i] + 256 * b[i + 1] + 0x1_0000 * b[i + 2] + 0x100_0000 * b[i + 3]) as u32
}

/// The value of eight little-endian bytes.
pub open spec fn from_le_u64(b: Seq<u8>, i: int) -> u64 {
    (from_le_u32(b, i) + 0x1_0000_0000 * from_le_u32(b, i + 4)) as u64
}

pub fn push_u16_le(buf: &mut Vec<u8>, v: u16)
    ensures
        final(buf)@ == old(buf)@ + le_u16(v),
{
    proof {
        lemma_u16_parts(v);
    }
    buf.push(v as u8);
    buf.push((v >> 8) as u8);
}

pub fn push_u32_le(buf: &mut Vec<u8>, v: u32)
    ensures
        final(buf)@ == old(buf)@ + le_u32(v),
{
    proof {
        lemma_u32_parts(v);
    }
    buf.push(v as u8);
    buf.push((v >> 8) as u8);
    buf.push((v >> 16) as u8);
    buf.push((v >> 24) as u8);
}

pub fn push_u64_le(buf: &mut Vec<u8>, v: u64)
    ensures
        final(buf)@ == old(buf)@ + le_u64(v),
{
    proof {
        lemma_u64_parts(v);
    }
    push_u32_le(buf, v as u32);
    push_u32_le(buf, (v >> 32) as u32);
}

pub fn read_u16_le(b: &[u8], i: usize) -> (v: u16)
    requires
        i + 2 <= b@.len(),
    ensures
        v == from_le_u16(b@, i as int),
{
    let b0 = b[i] as u16;
    let b1 = b[i + 1] as u16;
    proof {
        lemma_u16_join(b0, b1);
    }
    b0 | (b1 << 8)
}

pub fn read_u32_le(b: &[u8], i: usize) -> (v: u32)
    requires
        i + 4 <= b@.len(),
    ensures
        v == from_le_u32(b@, i as int),
{
    let b0 = b[i] as u32;
    let b1 = b[i + 1] as u32;
    let b2 = b[i + 2] as u32;
    let b3 = b[i + 3] as u32;
    proof {
        lemma_u32_join(b0, b1, b2, b3);
    }
    b0 | (b1 << 8) | (b2 << 16) | (b3 << 24)
}

pub fn read_u64_le(b: &[u8], i: usize) -> (v: u64)
    requires
        i + 8 <= b@.len(),
    ensures
        v == from_le_u64(b@, i as int),
{
    let n = b.len();
    let lo = read_u32_le(b, i) as u64;
    let hi = read_u32_le(b, i + 4) as u64;
    proof {
        lemma_u64_join(lo, hi, 0, 0, 0);
    }
    lo | (hi << 32)
}

/// Four little-endian bytes read back give the value written.
pub proof fn lemma_le_u32_roundtrip(v: u32, pre: Seq<u8>, post: Seq<u8>)
    ensures
        from_le_u32(pre + le_u32(v) + post, pre.len() as int) == v,
{
    let b = pre + le_u32(v) + post;
    let i = pre.len() as int;
    assert(b[i] == (v % 256) as u8);
    assert(b[i + 1] == ((v / 256) % 256) as u8);
    assert(b[i + 2] == ((v / 0x1_0000) % 256) as u8);
    assert(b[i + 3] == (v / 0x100_0000) as u8);
    assert((v % 256) + 256 * ((v / 256) % 256) + 0x1_0000 * ((v / 0x1_0000) % 256) + 0x100_0000 * (v
        / 0x100_0000) == v) by (nonlinear_arith);
}

/// Two little-endian bytes read back give the value written.
pub proof fn lemma_le_u16_roundtrip(v: u16, pre: Seq<u8>, post: Seq<u8>)
    ensures
        from_le_u16(pre + le_u16(v) + post, pre.len() as int) == v,
{
    let b = pre + le_u16(v) + post;
    let i = pre.len() as int;
    assert(b[i] == (v % 256) as u8);
    assert(b[i + 1] == (v / 256) as u8);
}

/// Eight little-endian bytes read back give the value written.
pub proof fn lemma_le_u64_roundtrip(v: u64, post: Seq<u8>)
    ensures
        from_le_u64(le_u64(v) + post, 0) == v,
{
    let lo = (v % 0x1_0000_0000) as u32;
    let hi = (v / 0x1_0000_0000) as u32;
    let b = le_u64(v) + post;
    assert(b =~= Seq::<u8>::empty() + le_u32(lo) + (le_u32(hi) + post));
    lemma_le_u32_roundtrip(lo, Seq::empty(), le_u32(hi) + post);
    assert(b =~= le_u32(lo) + le_u32(hi) + post);
    lemma_le_u32_roundtrip(hi, le_u32(lo), post);
    assert(lo + 0x1_0000_0000 * hi == v);
}

} // verus!
