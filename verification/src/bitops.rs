//! Facts about shifts, masks and casts, each proved by bit blasting.
use vstd::prelude::*;

verus! {

/// Splitting a 64-bit value into seven-bit groups, bytes and halves.
pub proof fn lemma_u64_parts(n: u64)
    by (bit_vector)
    ensures
        n & 0x7F == n % 128,
        n >> 7 == n / 128,
        n as u8 == n % 256,
        (n >> 8) as u8 == (n / 256) % 256,
        (n >> 16) as u8 == (n / 65536) % 256,
        n as u32 == n % 0x1_0000_0000,
        (n >> 32) as u32 == n / 0x1_0000_0000,
{
}

/// A byte's low seven bits and its high bit.
pub proof fn lemma_u8_parts(b: u8)
    by (bit_vector)
    ensures
        b & 0x7F == b % 128,
        (b & 0x80 == 0) == (b < 128),
        b < 128 ==> b | 0x80 == b + 128,
{
}

/// Bit `i` of a byte is 0 or 1.
pub proof fn lemma_u8_bit(b: u8, i: u8)
    by (bit_vector)
    ensures
        (b >> i) & 1 <= 1,
        0u8 & (0xFFu8 >> i) == 0,
{
}

/// Adding a seven-bit group above the bits already set.
pub proof fn lemma_or_shift_low(n: u64, d: u64, shift: u64)
    by (bit_vector)
    requires
        n < (1u64 << shift),
        d < 128,
        shift <= 56,
    ensures
        n | (d << shift) == n + (d << shift),
{
}

/// The tenth group keeps only its lowest bit.
pub proof fn lemma_or_shift_top(n: u64, d: u64)
    by (bit_vector)
    requires
        n < 0x8000_0000_0000_0000,
    ensures
        n | (d << 63u64) == (n as int + (d % 2) * 0x8000_0000_0000_0000) as u64,
{
}

/// A 32-bit value's bytes, its low twelve bits and its high part.
pub proof fn lemma_u32_parts(v: u32)
    by (bit_vector)
    ensures
        v as u8 == v % 256,
        (v >> 8) as u8 == (v / 256) % 256,
        (v >> 16) as u8 == (v / 0x1_0000) % 256,
        (v >> 24) as u8 == v / 0x100_0000,
        v >> 8 == v / 256,
        v & 4095 == v % 4096,
        v >> 12 == v / 4096,
{
}

/// A 16-bit value's bytes.
pub proof fn lemma_u16_parts(v: u16)
    by (bit_vector)
    ensures
        v as u8 == v % 256,
        (v >> 8) as u8 == v / 256,
{
}

/// Two bytes joined into a 16-bit value.
pub proof fn lemma_u16_join(b0: u16, b1: u16)
    by (bit_vector)
    requires
        b0 < 256,
        b1 < 256,
    ensures
        b0 | (b1 << 8) == b0 + 256 * b1,
{
}

/// Four bytes joined into a 32-bit value.
pub proof fn lemma_u32_join(b0: u32, b1: u32, b2: u32, b3: u32)
    by (bit_vector)
    requires
        b0 < 256,
        b1 < 256,
        b2 < 256,
        b3 < 256,
    ensures
        b0 | (b1 << 8) | (b2 << 16) | (b3 << 24) == b0 + 256 * b1 + 0x1_0000 * b2 + 0x100_0000
            * b3,
{
}

/// Halves and three-byte values joined into a 64-bit value.
pub proof fn lemma_u64_join(lo: u64, hi: u64, b0: u64, b1: u64, b2: u64)
    by (bit_vector)
    requires
        lo < 0x1_0000_0000,
        hi < 0x1_0000_0000,
        b0 < 256,
        b1 < 256,
        b2 < 256,
    ensures
        lo | (hi << 32) == lo + 0x1_0000_0000 * hi,
        b0 | (b1 << 8) | (b2 << 16) == b0 + 256 * b1 + 65536 * b2,
{
}

/// Shifting a 32-bit value up by twelve bits.
pub proof fn lemma_u32_shl12(x: u32)
    by (bit_vector)
    requires
        x < 0x10_0000,
    ensures
        x << 12u32 == x * 4096,
{
}

/// Shifting a byte into a 16-bit state.
pub proof fn lemma_u32_shift_in(x: u32, b: u32)
    by (bit_vector)
    requires
        x < 0x1_0000,
        b < 256,
    ensures
        (x << 8) | b == x * 256 + b,
{
}

/// Doubling a 32-bit value held in 64 bits, with a bit shifted in.
pub proof fn lemma_double(x: u64, b: u64)
    by (bit_vector)
    requires
        x <= 0xFFFF_FFFF,
        b <= 1,
    ensures
        x << 1 == 2 * x,
        (x << 1) | 1 == 2 * x + 1,
        (x << 1) | b == 2 * x + b,
{
}

/// Setting bit `7 - i` of a byte whose low `8 - i` bits are clear.
pub proof fn lemma_pack_bit(b0: u8, bit: u8, i: u8, sh: u8, i1: u8)
    by (bit_vector)
    requires
        b0 & (0xFFu8 >> i) == 0,
        bit <= 1,
        i < 8,
        sh == 7 - i,
        i1 == i + 1,
    ensures
        (b0 | (bit << sh)) == b0 + (bit << sh),
        (b0 | (bit << sh)) & (0xFFu8 >> i1) == 0,
        b0 & (0xFFu8 >> i1) == 0,
        bit == 0 ==> bit << sh == 0,
        bit == 1 ==> bit << sh == 1u8 << sh,
{
}

/// Reading a signed value back through its unsigned form.
pub proof fn lemma_i64_u64_roundtrip(x: i64)
    by (bit_vector)
    ensures
        ((x as u64) as i64) == x,
{
}

/// Reading an unsigned value back through its signed form.
pub proof fn lemma_u64_i64_roundtrip(x: u64)
    by (bit_vector)
    ensures
        ((x as i64) as u64) == x,
{
}

/// Eight bits packed most significant first are read back one by one.
pub proof fn lemma_unpack_byte(c0: u8, c1: u8, c2: u8, c3: u8, c4: u8, c5: u8, c6: u8, c7: u8)
    by (bit_vector)
    requires
        c0 <= 1,
        c1 <= 1,
        c2 <= 1,
        c3 <= 1,
        c4 <= 1,
        c5 <= 1,
        c6 <= 1,
        c7 <= 1,
    ensures
        ({
            let v = (c0 * 128 + c1 * 64 + c2 * 32 + c3 * 16 + c4 * 8 + c5 * 4 + c6 * 2 + c7) as u8;
            &&& (v >> 7u8) & 1u8 == c0
            &&& (v >> 6u8) & 1u8 == c1
            &&& (v >> 5u8) & 1u8 == c2
            &&& (v >> 4u8) & 1u8 == c3
            &&& (v >> 3u8) & 1u8 == c4
            &&& (v >> 2u8) & 1u8 == c5
            &&& (v >> 1u8) & 1u8 == c6
            &&& (v >> 0u8) & 1u8 == c7
        }),
{
}

/// A value is its high part shifted back up, joined with its low part.
pub proof fn lemma_high_low_join(v: u64, k: u64, mask: u64)
    by (bit_vector)
    requires
        k < 64,
        mask == (1u64 << k) - 1,
    ensures
        ((v >> k) << (k as usize)) | (v & mask) == v,
{
}

} // verus!
