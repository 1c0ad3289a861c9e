//! Elias-Fano coding of a sequence whose high parts do not decrease: each
//! value split into a high part, written in unary as the gap from the
//! previous one, and a fixed number of low bits.
use crate::bic::{bit_width, lemma_bit_width};
use crate::bijection::Bijection;
use crate::bits::{
    bits_of, bits_value, bytes_bits, lemma_bits_value_bound, window, zero_bits, BitReader,
    BitWriter,
};
use crate::bytes::{from_le_u32, le_u32, push_u32_le, read_u32_le};
use vstd::arithmetic::power2::*;
use vstd::bits::*;
use vstd::prelude::*;
use vstd::std_specs::bits::u64_leading_zeros;

verus! {

/// How many low bits each value keeps: the floor of the base-two logarithm
/// of the last value over the count, or none where the last value is
/// smaller than the count.
pub open spec fn ef_low_bits(s: Seq<u64>) -> nat {
    if s.last() >= s.len() {
        (bit_width((s.last() / (s.len() as u64)) as nat) - 1) as nat
    } else {
        0
    }
}

/// The high part of a value.
pub open spec fn ef_high(v: u64, lb: nat) -> nat {
    v as nat / pow2(lb)
}

/// The high parts do not decrease.
pub open spec fn ef_highs_sorted(s: Seq<u64>, lb: nat) -> bool {
    forall|i: int, j: int| 0 <= i <= j < s.len() ==> ef_high(s[i], lb) <= ef_high(s[j], lb)
}

/// The high parts in unary: for each value, as many zeros as its high part
/// exceeds the previous one (zero before the first), then a one.
pub open spec fn ef_unary(s: Seq<u64>, lb: nat) -> Seq<bool>
    decreases s.len(),
{
    if s.len() == 0 {
        Seq::empty()
    } else {
        let prev = if s.len() > 1 {
            ef_high(s[s.len() - 2], lb)
        } else {
            0
        };
        ef_unary(s.drop_last(), lb) + zero_bits((ef_high(s.last(), lb) - prev) as nat) + seq![true]
    }
}

/// The low parts, `lb` bits each. A part that would reach past the 64
/// bits of the packing word loses its bits there: they are written as
/// zeros.
pub open spec fn ef_low_stream(s: Seq<u64>, lb: nat) -> Seq<bool>
    decreases s.len(),
{
    if s.len() == 0 {
        Seq::empty()
    } else {
        let pend = ((s.len() - 1) * lb) % 8;
        ef_low_stream(s.drop_last(), lb) + bits_of(
            (s.last() as nat % pow2(lb)) % pow2((64 - pend) as nat),
            lb,
        )
    }
}

/// `bytes` are `bits` packed eight to a byte, the last one padded with zeros.
pub open spec fn packs(bits: Seq<bool>, bytes: Seq<u8>) -> bool {
    &&& bytes.len() == (bits.len() + 7) / 8
    &&& bytes_bits(bytes) == bits + zero_bits((8 * bytes.len() - bits.len()) as nat)
}

/// The values read back from the unary high parts: counting zeros up from
/// `h`, a one gives the count; at most `n` values, fewer where the bits
/// run out.
pub open spec fn unary_decode(bits: Seq<bool>, n: nat, h: nat) -> Seq<u64>
    decreases bits.len(),
{
    if n == 0 || bits.len() == 0 {
        Seq::empty()
    } else if bits[0] {
        seq![h as u64] + unary_decode(bits.drop_first(), (n - 1) as nat, h)
    } else {
        unary_decode(bits.drop_first(), n, h + 1)
    }
}

/// The low part of value `i` as read back: the `lb` bits at its offset,
/// of which only those within the 64-bit word read from its first byte
/// count.
pub open spec fn ef_read_low(s: Seq<bool>, i: nat, lb: nat) -> u64 {
    (bits_value(window(s, (i * lb) as int, lb)) % pow2((64 - (i * lb) % 8) as nat)) as u64
}

/// What decoding gives: the count, the number of low bits and the length
/// of the high part from the header, then the high parts in unary and the
/// low parts after them; `None` where the header or a part cannot be read.
pub open spec fn ef_unframe(b: Seq<u8>) -> Option<Seq<u64>> {
    if b.len() < 9 {
        None
    } else {
        let n = from_le_u32(b, 0) as usize as nat;
        let lb = b[4] as nat;
        let hlen = from_le_u32(b, 5) as usize as int;
        if lb >= 64 || 9 + hlen > b.len() {
            None
        } else {
            let highs = unary_decode(bytes_bits(b.subrange(9, 9 + hlen)), n, 0);
            if lb == 0 {
                Some(highs)
            } else if highs.len() < n || n * lb > usize::MAX {
                None
            } else {
                let lows = bytes_bits(b.skip(9 + hlen));
                Some(
                    Seq::new(
                        n,
                        |i: int| (highs[i] << (lb as usize)) | ef_read_low(lows, i as nat, lb),
                    ),
                )
            }
        }
    }
}

/// `out` is the coding of `s`: the count, the number of low bits, the
/// length of the high part, the high parts packed as `hb`, then the low
/// parts packed as `lp` (none where no low bits are kept).
pub open spec fn ef_encoded(s: Seq<u64>, hb: Seq<u8>, lp: Seq<u8>, out: Seq<u8>) -> bool {
    let lb = ef_low_bits(s);
    &&& packs(ef_unary(s, lb), hb)
    &&& lb > 0 ==> packs(ef_low_stream(s, lb), lp)
    &&& lb == 0 ==> lp.len() == 0
    &&& out == le_u32(s.len() as u32) + seq![lb as u8] + le_u32(hb.len() as u32) + hb + lp
}

/// Elias-Fano coding.
pub struct EliasFanoBijection;

impl Bijection<Vec<u64>, Vec<u8>> for EliasFanoBijection {
    open spec fn applies_to(&self, source: Vec<u64>) -> bool {
        source@.len() > 0 ==> ef_highs_sorted(source@, ef_low_bits(source@))
    }

    open spec fn reverts(&self, source: Vec<u8>) -> bool {
        source@.len() == 0 || ef_unframe(source@) is Some
    }

    fn apply(&self, source: Vec<u64>) -> (result: Vec<u8>)
        ensures
            source@.len() == 0 ==> result@.len() == 0,
            source@.len() > 0 ==> exists|hb: Seq<u8>, lp: Seq<u8>|
                ef_encoded(source@, hb, lp, result@),
    {
        if source.len() == 0 {
            return Vec::new();
        }
        let n = source.len() as u64;
        let max_val = source[source.len() - 1];
        let low_bits: usize = if max_val >= n {
            let q = max_val / n;
            assert(q >= 1) by (nonlinear_arith)
                requires
                    max_val >= n,
                    n > 0,
                    q == max_val / n,
            ;
            proof {
                lemma_bit_width(q);
            }
            (63 - q.leading_zeros()) as usize
        } else {
            0
        };
        assert(low_bits == ef_low_bits(source@));
        let high_bits = write_highs(&source, low_bits);
        let mut result: Vec<u8> = Vec::new();
        push_u32_le(&mut result, source.len() as u32);
        result.push(low_bits as u8);
        push_u32_le(&mut result, high_bits.len() as u32);
        let ghost hb = high_bits@;
        let mut high_bits = high_bits;
        result.append(&mut high_bits);
        let ghost before = result@;
        if low_bits > 0 {
            let mut packed_low = write_lows(&source, low_bits);
            let ghost lp = packed_low@;
            result.append(&mut packed_low);
            assert(result@ == le_u32(source@.len() as u32) + seq![low_bits as u8] + le_u32(
                hb.len() as u32,
            ) + hb + lp);
            assert(ef_encoded(source@, hb, lp, result@));
        } else {
            assert(result@ == le_u32(source@.len() as u32) + seq![low_bits as u8] + le_u32(
                hb.len() as u32,
            ) + hb + Seq::<u8>::empty());
            assert(ef_encoded(source@, hb, Seq::<u8>::empty(), result@));
        }
        result
    }

    fn revert(&self, source: Vec<u8>) -> (out: Vec<u64>)
        ensures
            source@.len() == 0 ==> out@.len() == 0,
            source@.len() > 0 ==> ef_unframe(source@) == Some(out@),
    {
        if source.len() == 0 {
            return Vec::new();
        }
        let bytes = source.as_slice();
        let n = read_u32_le(bytes, 0) as usize;
        let low_bits = bytes[4] as usize;
        let high_bits_len = read_u32_le(bytes, 5) as usize;
        let high_bits = vstd::slice::slice_subrange(bytes, 9, 9 + high_bits_len);
        let packed_low = vstd::slice::slice_subrange(bytes, 9 + high_bits_len, bytes.len());
        assert(packed_low@ == source@.skip(9 + high_bits_len));
        let mut values = read_highs(high_bits, n);
        proof {
            lemma_unary_decode_len(bytes_bits(high_bits@), n as nat, 0);
        }
        if low_bits > 0 {
            let ghost highs = values@;
            let mut reader = BitReader::new(packed_low);
            let ghost lows = reader.stream();
            let mut low_bit_offset: usize = 0;
            let mut i: usize = 0;
            while i < n
                invariant
                    0 < low_bits < 64,
                    n * low_bits <= usize::MAX,
                    i <= n,
                    highs.len() >= n,
                    values@.len() == highs.len(),
                    low_bit_offset == i * low_bits,
                    reader.wf(),
                    reader.stream() == lows,
                    reader.pos() == vstd::math::min(low_bit_offset as int, lows.len() as int),
                    forall|j: int| 0 <= j < i ==> #[trigger] values@[j] == (highs[j] << low_bits) | ef_read_low(
                        lows,
                        j as nat,
                        low_bits as nat,
                    ),
                    forall|j: int| i <= j < highs.len() ==> #[trigger] values@[j] == highs[j],
                decreases n - i,
            {
                assert(i * low_bits + low_bits == (i + 1) * low_bits) by (nonlinear_arith);
                assert((i + 1) * low_bits <= n * low_bits) by (nonlinear_arith)
                    requires
                        i + 1 <= n,
                ;
                let low = read_low(&mut reader, low_bit_offset, low_bits);
                assert(low == ef_read_low(lows, i as nat, low_bits as nat));
                let v = (values[i] << low_bits) | low;
                values.set(i, v);
                low_bit_offset = low_bit_offset + low_bits;
                i += 1;
            }
            proof {
                let expected = ef_unframe(source@).unwrap();
                assert(values@.len() == n);
                assert(values@ =~= expected);
            }
        }
        values
    }
}

pub proof fn lemma_unary_decode_len(bits: Seq<bool>, n: nat, h: nat)
    ensures
        unary_decode(bits, n, h).len() <= n,
    decreases bits.len(),
{
    if n > 0 && bits.len() > 0 {
        if bits[0] {
            lemma_unary_decode_len(bits.drop_first(), (n - 1) as nat, h);
        } else {
            lemma_unary_decode_len(bits.drop_first(), n, h + 1);
        }
    }
}

/// Reads up to `n` values from the unary high parts.
fn read_highs(high_bits: &[u8], n: usize) -> (values: Vec<u64>)
    requires
        high_bits@.len() <= u32::MAX,
    ensures
        values@ == unary_decode(bytes_bits(high_bits@), n as nat, 0),
{
    let mut reader = BitReader::new(high_bits);
    let ghost s = reader.stream();
    proof {
        crate::bits::lemma_bytes_bits_len(high_bits@);
    }
    let mut values: Vec<u64> = Vec::new();
    let mut current_high: u64 = 0;
    let mut byte_idx: usize = 0;
    let mut bit_in_byte: usize = 0;
    assert(s.skip(0) == s);
    while values.len() < n
        invariant
            reader.wf(),
            reader.stream() == s,
            s.len() == 8 * high_bits@.len(),
            high_bits@.len() <= u32::MAX,
            bit_in_byte < 8,
            byte_idx <= high_bits@.len(),
            byte_idx == high_bits@.len() ==> bit_in_byte == 0,
            reader.pos() == 8 * byte_idx + bit_in_byte,
            values@.len() <= n,
            current_high <= 8 * byte_idx + bit_in_byte,
            values@ + unary_decode(
                s.skip(8 * byte_idx + bit_in_byte),
                (n - values@.len()) as nat,
                current_high as nat,
            ) == unary_decode(s, n as nat, 0),
        ensures
            values@.len() <= n,
            values@.len() < n ==> 8 * byte_idx + bit_in_byte == s.len(),
            values@ + unary_decode(
                s.skip(8 * byte_idx + bit_in_byte),
                (n - values@.len()) as nat,
                current_high as nat,
            ) == unary_decode(s, n as nat, 0),
        decreases s.len() - (8 * byte_idx + bit_in_byte), n - values@.len(),
    {
        if byte_idx >= high_bits.len() {
            break;
        }
        let ghost p = 8 * byte_idx + bit_in_byte;
        let b = reader.read_bits(1);
        let ghost rest = s.skip(p);
        proof {
            assert(window(s, p, 1) =~= seq![rest[0]]);
            assert(seq![rest[0]].drop_first() =~= Seq::<bool>::empty());
            assert(bits_value(Seq::<bool>::empty()) == 0);
            assert(bits_value(seq![rest[0]]) == if rest[0] { 1nat } else { 0nat });
            assert(rest.drop_first() =~= s.skip(p + 1));
        }
        if b == 1 {
            values.push(current_high);
        } else {
            current_high = current_high + 1;
        }
        bit_in_byte = bit_in_byte + 1;
        if bit_in_byte == 8 {
            bit_in_byte = 0;
            byte_idx = byte_idx + 1;
        }
    }
    proof {
        if values@.len() < n {
            assert(s.skip(8 * byte_idx + bit_in_byte) =~= Seq::<bool>::empty());
        }
        assert(values@ + Seq::<u64>::empty() == values@);
    }
    values
}

/// Reads the low part at bit `offset`: its `low_bits` bits, of which those
/// past the 64-bit word that starts at the offset's byte read as zeros.
fn read_low(reader: &mut BitReader, offset: usize, low_bits: usize) -> (low: u64)
    requires
        0 < low_bits < 64,
        old(reader).wf(),
        old(reader).pos() == vstd::math::min(offset as int, old(reader).stream().len() as int),
        offset + low_bits <= usize::MAX,
    ensures
        final(reader).wf(),
        final(reader).stream() == old(reader).stream(),
        final(reader).pos() == vstd::math::min(offset + low_bits, old(reader).stream().len() as int),
        low as nat == bits_value(window(old(reader).stream(), offset as int, low_bits as nat)) % pow2(
            (64 - offset % 8) as nat,
        ),
{
    let ghost s = reader.stream();
    proof {
        reader.lemma_pos_within();
        if offset > s.len() {
            assert(window(s, s.len() as int, low_bits as nat) =~= window(s, offset as int, low_bits as nat));
        }
    }
    let v = reader.read_bits(low_bits);
    let bit_start = offset % 8;
    proof {
        lemma_bits_value_bound(window(s, offset as int, low_bits as nat));
        lemma_pow2_pos(low_bits as nat);
    }
    if low_bits + bit_start > 64 {
        proof {
            lemma_u64_pow2_no_overflow((64 - bit_start) as nat);
            lemma_u64_shl_is_mul(1, (64 - bit_start) as u64);
        }
        v % (1u64 << ((64 - bit_start) as u64))
    } else {
        proof {
            if low_bits < 64 - bit_start {
                lemma_pow2_strictly_increases(low_bits as nat, (64 - bit_start) as nat);
            }
            vstd::arithmetic::div_mod::lemma_small_mod(v as nat, pow2((64 - bit_start) as nat));
        }
        v
    }
}

/// The high parts in unary, packed.
fn write_highs(source: &Vec<u64>, low_bits: usize) -> (hb: Vec<u8>)
    requires
        low_bits < 64,
        ef_highs_sorted(source@, low_bits as nat),
    ensures
        packs(ef_unary(source@, low_bits as nat), hb@),
{
    let mut writer = BitWriter::new();
    let mut prev_high: u64 = 0;
    let mut i: usize = 0;
    assert(source@.take(0) =~= Seq::<u64>::empty());
    while i < source.len()
        invariant
            low_bits < 64,
            ef_highs_sorted(source@, low_bits as nat),
            i <= source@.len(),
            writer.wf(),
            writer.bits() == ef_unary(source@.take(i as int), low_bits as nat),
            prev_high == if i == 0 { 0 } else { ef_high(source@[i - 1], low_bits as nat) },
        decreases source@.len() - i,
    {
        let val = source[i];
        proof {
            lemma_u64_shr_is_div(val, low_bits as u64);
        }
        let high = val >> (low_bits as u64);
        proof {
            if i > 0 {
                assert(ef_high(source@[i - 1], low_bits as nat) <= ef_high(source@[i as int], low_bits as nat));
            }
        }
        let zeros = high - prev_high;
        let ghost b0 = writer.bits();
        let mut z: u64 = 0;
        while z < zeros
            invariant
                z <= zeros,
                writer.wf(),
                writer.bits() == b0 + zero_bits(z as nat),
            decreases zeros - z,
        {
            writer.write_bit(false);
            z += 1;
            assert(writer.bits() =~= b0 + zero_bits(z as nat));
        }
        writer.write_bit(true);
        proof {
            let t = source@.take(i + 1);
            assert(t.drop_last() == source@.take(i as int));
            if i > 0 {
                assert(t[t.len() - 2] == source@[i - 1]);
            }
            assert(writer.bits() =~= ef_unary(t, low_bits as nat));
        }
        prev_high = high;
        i += 1;
    }
    assert(source@.take(source@.len() as int) == source@);
    writer.finish()
}

/// The low parts, packed.
fn write_lows(source: &Vec<u64>, low_bits: usize) -> (lp: Vec<u8>)
    requires
        0 < low_bits < 64,
    ensures
        packs(ef_low_stream(source@, low_bits as nat), lp@),
{
    let mut writer = BitWriter::new();
    proof {
        lemma_u64_pow2_no_overflow(low_bits as nat);
        lemma_u64_shl_is_mul(1, low_bits as u64);
    }
    let low_mask: u64 = (1u64 << (low_bits as u64)) - 1;
    proof {
        assert(low_mask == low_bits_mask(low_bits as nat));
    }
    let mut i: usize = 0;
    assert(source@.take(0) =~= Seq::<u64>::empty());
    while i < source.len()
        invariant
            0 < low_bits < 64,
            low_mask == low_bits_mask(low_bits as nat),
            i <= source@.len(),
            writer.wf(),
            writer.bits() == ef_low_stream(source@.take(i as int), low_bits as nat),
            writer.bits().len() == i * low_bits,
        decreases source@.len() - i,
    {
        let val = source[i];
        let low = val & low_mask;
        proof {
            lemma_u64_low_bits_mask_is_mod(val, low_bits as nat);
            lemma_u64_pow2_no_overflow(low_bits as nat);
        }
        let pend = writer.pending();
        let kept = if low_bits + pend > 64 {
            proof {
                lemma_u64_pow2_no_overflow((64 - pend) as nat);
                lemma_u64_shl_is_mul(1, (64 - pend) as u64);
            }
            low % (1u64 << ((64 - pend) as u64))
        } else {
            proof {
                lemma_pow2_pos(low_bits as nat);
                if low_bits < 64 - pend {
                    lemma_pow2_strictly_increases(low_bits as nat, (64 - pend) as nat);
                }
                vstd::arithmetic::div_mod::lemma_small_mod(low as nat, pow2((64 - pend) as nat));
            }
            low
        };
        writer.write_bits(kept, low_bits);
        proof {
            let t = source@.take(i + 1);
            assert(t.drop_last() == source@.take(i as int));
            assert((i * low_bits) % 8 == pend);
            crate::bits::lemma_bits_of_len(kept as nat, low_bits as nat);
            assert(writer.bits() =~= ef_low_stream(t, low_bits as nat));
            assert(writer.bits().len() == (i + 1) * low_bits) by (nonlinear_arith)
                requires
                    writer.bits().len() == i * low_bits + low_bits,
            ;
        }
        i += 1;
    }
    assert(source@.take(source@.len() as int) == source@);
    writer.finish()
}

// ---------------------------------------------------------------------------
// Reading back what was written
// ---------------------------------------------------------------------------
/// The high parts of the values.
pub open spec fn ef_highs(s: Seq<u64>, lb: nat) -> Seq<u64> {
    Seq::new(s.len(), |i: int| ef_high(s[i], lb) as u64)
}

/// A run of zeros then a one reads as one value, the zeros counted.
proof fn lemma_unary_block(d: nat, rest: Seq<bool>, n: nat, h: nat)
    requires
        n >= 1,
    ensures
        unary_decode(zero_bits(d) + seq![true] + rest, n, h) == seq![(h + d) as u64] + unary_decode(
            rest,
            (n - 1) as nat,
            h + d,
        ),
    decreases d,
{
    let b = zero_bits(d) + seq![true] + rest;
    if d == 0 {
        assert(b =~= seq![true] + rest);
        assert(b.drop_first() =~= rest);
    } else {
        assert(b.drop_first() =~= zero_bits((d - 1) as nat) + seq![true] + rest);
        lemma_unary_block((d - 1) as nat, rest, n, h + 1);
    }
}

/// The unary high parts read back, before whatever follows them.
proof fn lemma_unary_prefix(s: Seq<u64>, lb: nat, tail: Seq<bool>, n: nat)
    requires
        ef_highs_sorted(s, lb),
        n >= s.len(),
    ensures
        unary_decode(ef_unary(s, lb) + tail, n, 0) == ef_highs(s, lb) + unary_decode(
            tail,
            (n - s.len()) as nat,
            if s.len() > 0 { ef_high(s.last(), lb) } else { 0 },
        ),
    decreases s.len(),
{
    if s.len() == 0 {
        assert(ef_unary(s, lb) + tail =~= tail);
        assert(ef_highs(s, lb) =~= Seq::<u64>::empty());
    } else {
        let t = s.drop_last();
        let prev = if s.len() > 1 { ef_high(s[s.len() - 2], lb) } else { 0 };
        let d = (ef_high(s.last(), lb) - prev) as nat;
        assert(ef_highs_sorted(t, lb)) by {
            assert forall|i: int, j: int| 0 <= i <= j < t.len() implies ef_high(t[i], lb) <= ef_high(t[j], lb) by {
                assert(t[i] == s[i] && t[j] == s[j]);
            }
        }
        if s.len() > 1 {
            assert(t.last() == s[s.len() - 2]);
            assert(prev <= ef_high(s.last(), lb));
        }
        let block = zero_bits(d) + seq![true];
        assert(ef_unary(s, lb) + tail =~= ef_unary(t, lb) + (block + tail));
        lemma_unary_prefix(t, lb, block + tail, n);
        assert(block + tail =~= zero_bits(d) + seq![true] + tail);
        lemma_unary_block(d, tail, (n - t.len()) as nat, prev);
        assert(prev + d == ef_high(s.last(), lb));
        assert(ef_highs(t, lb) + seq![ef_high(s.last(), lb) as u64] =~= ef_highs(s, lb));
    }
}

/// Zeros read as no values when none are wanted.
proof fn lemma_unary_none(tail: Seq<bool>, h: nat)
    ensures
        unary_decode(tail, 0, h) == Seq::<u64>::empty(),
{
}

/// The low stream: `lb` bits for each value, the low part of value `i` at
/// `i * lb`.
proof fn lemma_low_stream(s: Seq<u64>, lb: nat)
    requires
        lb <= 57,
    ensures
        ef_low_stream(s, lb).len() == s.len() * lb,
        forall|i: int, k: int|
            0 <= i < s.len() && 0 <= k < lb ==> ef_low_stream(s, lb)[i * lb + k] == #[trigger] bits_of(
                s[i] as nat % pow2(lb),
                lb,
            )[k],
    decreases s.len(),
{
    if s.len() > 0 {
        let t = s.drop_last();
        lemma_low_stream(t, lb);
        let j = s.len() - 1;
        let pend = ((s.len() - 1) * lb) % 8;
        let x = s.last() as nat % pow2(lb);
        lemma_pow2_pos(lb);
        lemma_pow2_pos((64 - pend) as nat);
        if lb < 64 - pend {
            lemma_pow2_strictly_increases(lb, (64 - pend) as nat);
        }
        vstd::arithmetic::div_mod::lemma_small_mod(x, pow2((64 - pend) as nat));
        crate::bits::lemma_bits_of_len(x, lb);
        let st = ef_low_stream(s, lb);
        assert(st == ef_low_stream(t, lb) + bits_of(x, lb));
        assert(t.len() * lb + lb == s.len() * lb) by (nonlinear_arith)
            requires t.len() + 1 == s.len();
        assert forall|i: int, k: int| 0 <= i < s.len() && 0 <= k < lb implies st[i * lb + k] == #[trigger] bits_of(
            s[i] as nat % pow2(lb),
            lb,
        )[k] by {
            if i < j {
                assert(t[i] == s[i]);
                assert(i * lb + k < t.len() * lb) by (nonlinear_arith)
                    requires i < t.len(), 0 <= k < lb, i >= 0;
            } else {
                assert(i * lb == t.len() * lb);
            }
        }
    }
}

/// The unary high parts hold one bit per value and one per step up of the
/// high parts: as many as the last high part, plus the count.
proof fn lemma_unary_len(s: Seq<u64>, lb: nat)
    requires
        ef_highs_sorted(s, lb),
    ensures
        s.len() > 0 ==> ef_unary(s, lb).len() == ef_high(s.last(), lb) + s.len(),
        s.len() == 0 ==> ef_unary(s, lb).len() == 0,
    decreases s.len(),
{
    if s.len() == 1 {
        assert(s.drop_last() =~= Seq::<u64>::empty());
        assert(ef_unary(s.drop_last(), lb).len() == 0);
    } else if s.len() > 1 {
        let t = s.drop_last();
        assert forall|i: int, j: int| 0 <= i <= j < t.len() implies ef_high(t[i], lb) <= ef_high(t[j], lb) by {
            assert(t[i] == s[i] && t[j] == s[j]);
        }
        lemma_unary_len(t, lb);
        assert(t.last() == s[s.len() - 2]);
        assert(ef_high(s[s.len() - 2], lb) <= ef_high(s.last(), lb));
    }
}

/// Values that do not decrease, fewer than 2^32 of them, whose last over
/// their count is below 2^57, decode from what the Elias-Fano coder wrote
/// for them, where the lengths fit a `usize`.
pub proof fn law_ef_plain_roundtrip(s: Seq<u64>, out: Seq<u8>)
    requires
        0 < s.len() <= u32::MAX,
        forall|i: int, j: int| 0 <= i <= j < s.len() ==> s[i] <= s[j],
        (s.last() as int) / (s.len() as int) < 0x200_0000_0000_0000,
        s.len() * 57 <= usize::MAX,
        out.len() <= usize::MAX,
        exists|hb: Seq<u8>, lp: Seq<u8>| ef_encoded(s, hb, lp, out),
    ensures
        ef_unframe(out) == Some(s),
{
    let (hb, lp) = choose|hb: Seq<u8>, lp: Seq<u8>| ef_encoded(s, hb, lp, out);
    let n = s.len();
    let last = s.last();
    let lb = ef_low_bits(s);
    lemma_pow2_pos(lb);
    assert forall|i: int, j: int| 0 <= i <= j < s.len() implies ef_high(s[i], lb) <= ef_high(s[j], lb) by {
        vstd::arithmetic::div_mod::lemma_div_is_ordered(s[i] as int, s[j] as int, pow2(lb) as int);
    }
    // the high part of the last value is below twice the count
    if last >= n {
        let q = (last / (n as u64)) as u64;
        lemma_bit_width(q);
        assert(q >= 1) by (nonlinear_arith)
            requires
                last >= n,
                n > 0,
                q == last / (n as u64),
        ;
        let bw = bit_width(q as nat);
        assert(lb == bw - 1);
        assert(q as int == (last as int) / (n as int));
        if bw >= 58 {
            if bw > 58 {
                lemma_pow2_strictly_increases(57, (bw - 1) as nat);
            }
            lemma2_to64_rest();
            assert(false);
        }
        lemma_pow2_unfold(bw);
        assert(pow2(bw) == 2 * pow2(lb));
        let p = pow2(lb) as int;
        assert(last < n * (q + 1)) by (nonlinear_arith)
            requires
                n > 0,
                q == last / (n as u64),
        ;
        assert(n * (q + 1) <= n * (2 * p)) by (nonlinear_arith)
            requires
                n > 0,
                q < 2 * p,
        ;
        assert((last as int) / p < 2 * n) by (nonlinear_arith)
            requires
                p > 0,
                last < n * (2 * p),
        ;
    } else {
        assert(lb == 0);
        assert(pow2(0) == 1) by {
            lemma2_to64();
        }
    }
    assert(ef_high(last, lb) < 2 * n);
    lemma_unary_len(s, lb);
    assert(hb.len() <= u32::MAX);
    assert(s.len() * ef_low_bits(s) <= usize::MAX) by (nonlinear_arith)
        requires
            ef_low_bits(s) <= 57,
            s.len() * 57 <= usize::MAX,
    ;
    assert(out.len() == 9 + hb.len() + lp.len());
    law_ef_roundtrip(s, hb, lp, out);
}

/// Values whose Elias-Fano coding is `out` decode from it, where the low
/// parts have at most 57 bits, so that none reaches past its packing word.
#[verifier::spinoff_prover]
#[verifier::rlimit(40)]
pub proof fn law_ef_roundtrip(s: Seq<u64>, hb: Seq<u8>, lp: Seq<u8>, out: Seq<u8>)
    requires
        0 < s.len() <= u32::MAX,
        hb.len() <= u32::MAX,
        ef_highs_sorted(s, ef_low_bits(s)),
        ef_low_bits(s) <= 57,
        s.len() * ef_low_bits(s) <= usize::MAX,
        9 + hb.len() <= usize::MAX,
        ef_encoded(s, hb, lp, out),
    ensures
        ef_unframe(out) == Some(s),
{
    let lb = ef_low_bits(s);
    let n = s.len();
    let head = le_u32(n as u32) + seq![lb as u8] + le_u32(hb.len() as u32);
    assert(out =~= Seq::<u8>::empty() + le_u32(n as u32) + (seq![lb as u8] + le_u32(hb.len() as u32) + hb + lp));
    crate::bytes::lemma_le_u32_roundtrip(n as u32, Seq::empty(), seq![lb as u8] + le_u32(hb.len() as u32) + hb + lp);
    assert(out =~= (le_u32(n as u32) + seq![lb as u8]) + le_u32(hb.len() as u32) + (hb + lp));
    crate::bytes::lemma_le_u32_roundtrip(hb.len() as u32, le_u32(n as u32) + seq![lb as u8], hb + lp);
    assert(out[4] == lb as u8);
    assert(out.subrange(9, 9 + hb.len() as int) =~= hb);
    assert(out.skip(9 + hb.len() as int) =~= lp);
    // the high parts
    let u = ef_unary(s, lb);
    let pad = (8 * hb.len() - u.len()) as nat;
    assert(bytes_bits(hb) == u + zero_bits(pad));
    lemma_unary_prefix(s, lb, zero_bits(pad), n);
    lemma_unary_none(zero_bits(pad), ef_high(s.last(), lb));
    let highs = unary_decode(bytes_bits(hb), n, 0);
    assert(highs =~= ef_highs(s, lb));
    if lb == 0 {
        assert forall|i: int| 0 <= i < n implies highs[i] == s[i] by {
            assert(pow2(0) == 1) by {
                lemma2_to64();
            }
        }
        assert(highs =~= s);
    } else {
        // the low parts
        lemma_low_stream(s, lb);
        let st = ef_low_stream(s, lb);
        let lows = bytes_bits(lp);
        let lpad = (8 * lp.len() - st.len()) as nat;
        assert(lows == st + zero_bits(lpad));
        lemma_u64_pow2_no_overflow(lb);
        lemma_u64_shl_is_mul(1, lb as u64);
        let mask: u64 = ((1u64 << (lb as u64)) - 1) as u64;
        assert(mask == low_bits_mask(lb) as u64);
        let r = Seq::new(n, |i: int| (highs[i] << (lb as usize)) | ef_read_low(lows, i as nat, lb));
        assert forall|i: int| 0 <= i < n implies r[i] == s[i] by {
            let v = s[i];
            let off = i * lb;
            assert(off + lb <= n * lb) by (nonlinear_arith)
                requires 0 <= i < n, lb >= 0, off == i * lb;
            let w = window(lows, off, lb);
            let x = v as nat % pow2(lb);
            crate::bits::lemma_bits_of_len(x, lb);
            assert(w =~= bits_of(x, lb)) by {
                assert forall|k: int| 0 <= k < lb implies w[k] == bits_of(x, lb)[k] by {
                    assert(lows[off + k] == st[off + k]);
                    assert(st[i * lb + k] == bits_of(s[i] as nat % pow2(lb), lb)[k]);
                }
            }
            crate::bits::lemma_bits_value_of(x, lb);
            lemma_pow2_pos(lb);
            vstd::arithmetic::div_mod::lemma_small_mod(x, pow2(lb));
            let pend = (off % 8) as nat;
            lemma_pow2_pos((64 - pend) as nat);
            if lb < 64 - pend {
                lemma_pow2_strictly_increases(lb, (64 - pend) as nat);
            }
            vstd::arithmetic::div_mod::lemma_small_mod(x, pow2((64 - pend) as nat));
            assert(ef_read_low(lows, i as nat, lb) == x);
            lemma_u64_low_bits_mask_is_mod(v, lb);
            assert(v & mask == x);
            lemma_u64_shr_is_div(v, lb as u64);
            assert(highs[i] == v >> (lb as u64));
            crate::bitops::lemma_high_low_join(v, lb as u64, mask);
        }
        assert(r =~= s);
    }
}

} // verus!
