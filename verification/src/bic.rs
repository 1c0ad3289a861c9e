//! Binary interpolative coding of strictly increasing sequences: the middle
//! element is written in as few bits as the range left for it allows, then
//! each half within the narrowed range.
use crate::bijection::Bijection;
use crate::bits::{
    bits_of, bits_value, bytes_bits, lemma_bits_of_len, lemma_bits_value_of, stream_bit, window,
    zero_bits, BitReader, BitWriter,
};
use crate::sorting::strictly_increasing;
use vstd::arithmetic::power2::*;
use vstd::prelude::*;
use vstd::std_specs::bits::u64_leading_zeros;

verus! {

/// The number of bits needed to write `x`.
pub open spec fn bit_width(x: nat) -> nat
    decreases x,
{
    if x == 0 {
        0
    } else {
        1 + bit_width(x / 2)
    }
}

pub proof fn lemma_bit_width(x: u64)
    ensures
        64 - u64_leading_zeros(x) == bit_width(x as nat),
        bit_width(x as nat) <= 64,
        x < pow2(bit_width(x as nat)),
        x > 0 ==> pow2((bit_width(x as nat) - 1) as nat) <= x,
    decreases x,
{
    reveal(u64_leading_zeros);
    lemma2_to64();
    if x > 0 {
        lemma_bit_width(x / 2);
        lemma_pow2_unfold(bit_width(x as nat));
        if x / 2 > 0 {
            lemma_pow2_unfold(bit_width((x / 2) as nat));
        }
        if bit_width(x as nat) > 64 {
            lemma_pow2_strictly_increases(64, (bit_width(x as nat) - 1) as nat);
            lemma2_to64_rest();
            assert(false);
        }
    }
}

/// The offset of the middle element, read back from the bits written for it.
proof fn lemma_bic_head(s: Seq<bool>, p: int, d: nat, range: int)
    requires
        0 <= p,
        1 < range <= u64::MAX,
        d < range,
        p + bit_width((range - 1) as nat) <= s.len(),
        s.subrange(p, p + bit_width((range - 1) as nat)) == bits_of(d, bit_width((range - 1) as nat)),
    ensures
        bits_value(window(s, p, bit_width((range - 1) as nat))) == d,
{
    let w = bit_width((range - 1) as nat);
    lemma_bits_of_len(d, w);
    lemma_window_within(s, p, bits_of(d, w));
    lemma_bits_value_of(d, w);
    lemma_bit_width((range - 1) as u64);
    lemma_pow2_pos(w);
    vstd::arithmetic::div_mod::lemma_small_mod(d, pow2(w));
}

/// The values fit the coder's range: strictly increasing, within
/// `[lo, hi]`, with room to count the candidates for each middle element.
pub open spec fn bic_fits(v: Seq<u64>, lo: int, hi: int) -> bool {
    &&& strictly_increasing(v)
    &&& forall|i: int| 0 <= i < v.len() ==> lo <= #[trigger] v[i] <= hi
    &&& 0 <= lo
    &&& hi <= u64::MAX
    &&& v.len() > 0 ==> hi - lo - v.len() + 2 <= u64::MAX
}

/// The bits that code `v` within `[lo, hi]`: the middle element as an
/// offset from its smallest possible value, in the bits its range needs
/// (none where it has one candidate), then the lower half, then the upper.
pub open spec fn bic_bits(v: Seq<u64>, lo: int, hi: int) -> Seq<bool>
    decreases v.len(),
{
    if v.len() == 0 {
        Seq::empty()
    } else {
        let n = v.len() as int;
        let mid = n / 2;
        let m = v[mid] as int;
        let m_lo = lo + mid;
        let m_hi = hi - (n - 1 - mid);
        let range = m_hi - m_lo + 1;
        let head = if range > 1 {
            bits_of((m - m_lo) as nat, bit_width((range - 1) as nat))
        } else {
            Seq::empty()
        };
        head + bic_bits(v.take(mid), lo, m - 1) + bic_bits(v.skip(mid + 1), m + 1, hi)
    }
}

/// Decoding `n` values within `[lo, hi]` from position `p` of a stream:
/// the values and the position after them, or `None` where a step would
/// leave 64 bits.
pub open spec fn bic_decoded(s: Seq<bool>, p: int, n: nat, lo: int, hi: int) -> Option<(Seq<u64>, int)>
    decreases n,
{
    if n == 0 {
        Some((Seq::empty(), p))
    } else {
        let mid = n / 2;
        let m_lo = lo + mid;
        let m_hi = hi - (n - 1 - mid);
        let range = m_hi - m_lo + 1;
        if m_lo > u64::MAX || m_hi < 0 || m_hi < m_lo || range > u64::MAX {
            None
        } else {
            let w = if range > 1 { bit_width((range - 1) as nat) } else { 0 };
            let m = m_lo + bits_value(window(s, p, w));
            let p1 = vstd::math::min(p + w, s.len() as int);
            if m > u64::MAX || (mid + 1 < n && m + 1 > u64::MAX) {
                None
            } else {
                match bic_decoded(s, p1, mid as nat, lo, m - 1) {
                    None => None,
                    Some((left, p2)) => match bic_decoded(
                        s,
                        p2,
                        (n - 1 - mid) as nat,
                        m + 1,
                        hi,
                    ) {
                        None => None,
                        Some((right, p3)) => Some((left + seq![m as u64] + right, p3)),
                    },
                }
            }
        }
    }
}

pub proof fn lemma_window_within(s: Seq<bool>, p: int, t: Seq<bool>)
    requires
        0 <= p,
        p + t.len() <= s.len(),
        s.subrange(p, p + t.len()) == t,
    ensures
        window(s, p, t.len()) == t,
{
    assert forall|k: int| 0 <= k < t.len() implies window(s, p, t.len())[k] == t[k] by {
        assert(s.subrange(p, p + t.len())[k] == s[p + k]);
    }
    assert(window(s, p, t.len()) =~= t);
}

/// The middle element of a sequence that fits `[lo, hi]` lies within its
/// candidates, and each half fits the range that the middle element leaves.
pub proof fn lemma_bic_split(v: Seq<u64>, lo: int, hi: int)
    requires
        bic_fits(v, lo, hi),
        v.len() > 0,
    ensures
        ({
            let n = v.len() as int;
            let mid = n / 2;
            let m = v[mid] as int;
            let m_lo = lo + mid;
            let m_hi = hi - (n - 1 - mid);
            &&& m_lo <= m <= m_hi
            &&& m_hi - m_lo + 1 <= u64::MAX
            &&& bic_fits(v.take(mid), lo, m - 1)
            &&& bic_fits(v.skip(mid + 1), m + 1, hi)
            &&& mid > 0 ==> m >= 1
            &&& mid + 1 < n ==> m < u64::MAX
        }),
{
    let n = v.len() as int;
    let mid = n / 2;
    let m = v[mid] as int;
    let left = v.take(mid);
    let right = v.skip(mid + 1);
    lemma_strict_spread(v, lo, hi, mid);
    assert(bic_fits(left, lo, m - 1)) by {
        assert forall|i: int| 0 <= i < left.len() implies lo <= #[trigger] left[i] <= m - 1 by {
            assert(left[i] == v[i]);
            assert(v[i] < v[mid]);
        }
    }
    assert(bic_fits(right, m + 1, hi)) by {
        assert forall|i: int| 0 <= i < right.len() implies m + 1 <= #[trigger] right[i] <= hi by {
            assert(right[i] == v[mid + 1 + i]);
            assert(v[mid] < v[mid + 1 + i]);
        }
    }
    if mid + 1 < n {
        assert(v[mid] < v[mid + 1]);
    }
}

/// Decoding reads back what coding wrote, wherever it sits in a stream.
#[verifier::rlimit(40)]
pub proof fn lemma_bic_decode_encode(v: Seq<u64>, lo: int, hi: int, s: Seq<bool>, p: int)
    requires
        bic_fits(v, lo, hi),
        0 <= p,
        p + bic_bits(v, lo, hi).len() <= s.len(),
        s.subrange(p, p + bic_bits(v, lo, hi).len()) == bic_bits(v, lo, hi),
    ensures
        bic_decoded(s, p, v.len(), lo, hi) == Some((v, p + bic_bits(v, lo, hi).len())),
    decreases v.len(),
{
    if v.len() == 0 {
        assert(v =~= Seq::<u64>::empty());
    } else {
        let n = v.len() as int;
        let mid = n / 2;
        let m = v[mid] as int;
        let m_lo = lo + mid;
        let m_hi = hi - (n - 1 - mid);
        let range = m_hi - m_lo + 1;
        let left = v.take(mid);
        let right = v.skip(mid + 1);
        lemma_bic_split(v, lo, hi);
        let w: int = if range > 1 { bit_width((range - 1) as nat) as int } else { 0 };
        let head = if range > 1 {
            bits_of((m - m_lo) as nat, bit_width((range - 1) as nat))
        } else {
            Seq::empty()
        };
        lemma_bits_of_len((m - m_lo) as nat, bit_width((range - 1) as nat));
        assert(head.len() == w);
        let lb = bic_bits(left, lo, m - 1);
        let rb = bic_bits(right, m + 1, hi);
        let all = bic_bits(v, lo, hi);
        assert(all == head + lb + rb);
        assert(s.subrange(p, p + w) == head) by {
            assert(s.subrange(p, p + w) =~= all.subrange(0, w));
        }
        if range > 1 {
            lemma_bic_head(s, p, (m - m_lo) as nat, range);
        } else {
            assert(window(s, p, 0) =~= Seq::<bool>::empty());
        }
        assert(bits_value(window(s, p, w as nat)) == m - m_lo);
        assert(s.subrange(p + w, p + w + lb.len()) == lb) by {
            assert(s.subrange(p + w, p + w + lb.len()) =~= all.subrange(w, w + lb.len() as int));
        }
        assert(s.subrange(p + w + lb.len(), p + w + lb.len() + rb.len()) == rb) by {
            assert(s.subrange(p + w + lb.len(), p + w + lb.len() + rb.len()) =~= all.subrange(
                w + lb.len() as int,
                all.len() as int,
            ));
        }
        lemma_bic_decode_encode(left, lo, m - 1, s, p + w);
        lemma_bic_decode_encode(right, m + 1, hi, s, p + w + lb.len());
        assert(left + seq![v[mid]] + right =~= v);
    }
}

/// In a strictly increasing sequence elements `a` and `b` lie at least
/// `b - a` apart.
pub proof fn lemma_strict_gap(v: Seq<u64>, a: int, b: int)
    requires
        strictly_increasing(v),
        0 <= a <= b < v.len(),
    ensures
        v[b] - v[a] >= b - a,
    decreases b - a,
{
    if a < b {
        lemma_strict_gap(v, a, b - 1);
        assert(v[b - 1] < v[b]);
    }
}

/// Element `i` of a sequence that fits `[lo, hi]` leaves room for the
/// elements below and above it.
pub proof fn lemma_strict_spread(v: Seq<u64>, lo: int, hi: int, i: int)
    requires
        bic_fits(v, lo, hi),
        0 <= i < v.len(),
    ensures
        lo + i <= v[i] <= hi - (v.len() - 1 - i),
{
    lemma_strict_gap(v, 0, i);
    lemma_strict_gap(v, i, v.len() - 1);
    assert(lo <= v[0]);
    assert(v[v.len() - 1] <= hi);
}


/// Writes `values[start..end]` within `[lo, hi]`.
fn bic_encode(values: &[u64], start: usize, end: usize, lo: u64, hi: u64, writer: &mut BitWriter)
    requires
        old(writer).wf(),
        start <= end <= values@.len(),
        bic_fits(values@.subrange(start as int, end as int), lo as int, hi as int),
    ensures
        final(writer).wf(),
        final(writer).bits() == old(writer).bits() + bic_bits(
            values@.subrange(start as int, end as int),
            lo as int,
            hi as int,
        ),
    decreases end - start,
{
    let ghost v = values@.subrange(start as int, end as int);
    let n = end - start;
    if n == 0 {
        assert(old(writer).bits() + bic_bits(v, lo as int, hi as int) =~= old(writer).bits());
        return;
    }
    proof {
        lemma_bic_split(v, lo as int, hi as int);
    }
    let mid = n / 2;
    let m = values[start + mid];
    assert(m == v[mid as int]);
    let m_lo = lo + mid as u64;
    let m_hi = hi - (n - 1 - mid) as u64;
    let range = m_hi - m_lo + 1;
    let ghost b0 = writer.bits();
    if range > 1 {
        let lz = (range - 1).leading_zeros();
        proof {
            lemma_bit_width((range - 1) as u64);
        }
        let bits = 64 - lz;
        writer.write_bits(m - m_lo, bits as usize);
    } else {
        assert(b0 + Seq::<bool>::empty() =~= b0);
    }
    let ghost b1 = writer.bits();
    assert(v.take(mid as int) == values@.subrange(start as int, (start + mid) as int));
    assert(v.skip(mid + 1) == values@.subrange((start + mid + 1) as int, end as int));
    if mid > 0 {
        bic_encode(values, start, start + mid, lo, m - 1, writer);
    } else {
        assert(bic_bits(v.take(0), lo as int, m - 1) =~= Seq::<bool>::empty());
        assert(b1 + Seq::<bool>::empty() =~= b1);
    }
    let ghost b2 = writer.bits();
    if mid + 1 < n {
        bic_encode(values, start + mid + 1, end, m + 1, hi, writer);
    } else {
        assert(v.skip(mid + 1) =~= Seq::<u64>::empty());
        assert(bic_bits(v.skip(mid + 1), m + 1, hi as int) =~= Seq::<bool>::empty());
        assert(b2 + Seq::<bool>::empty() =~= b2);
    }
    assert(writer.bits() =~= old(writer).bits() + bic_bits(v, lo as int, hi as int));
}

/// Reads `n` values within `[lo, hi]` and appends them to `out`; `false`
/// where a step would leave 64 bits.
fn bic_decode(n: usize, lo: u64, hi: u64, reader: &mut BitReader, out: &mut Vec<u64>) -> (ok: bool)
    requires
        old(reader).wf(),
    ensures
        final(reader).wf(),
        final(reader).stream() == old(reader).stream(),
        ok == bic_decoded(old(reader).stream(), old(reader).pos(), n as nat, lo as int, hi as int) is Some,
        ok ==> ({
            let (vals, p) = bic_decoded(
                old(reader).stream(),
                old(reader).pos(),
                n as nat,
                lo as int,
                hi as int,
            ).unwrap();
            &&& final(out)@ == old(out)@ + vals
            &&& final(reader).pos() == p
        }),
    decreases n,
{
    let ghost s = reader.stream();
    let ghost p0 = reader.pos();
    proof {
        reader.lemma_pos_within();
    }
    if n == 0 {
        assert(old(out)@ + Seq::<u64>::empty() =~= old(out)@);
        return true;
    }
    let mid = n / 2;
    if lo > u64::MAX - mid as u64 {
        return false;
    }
    let m_lo = lo + mid as u64;
    if hi < (n - 1 - mid) as u64 {
        return false;
    }
    let m_hi = hi - (n - 1 - mid) as u64;
    if m_hi < m_lo || m_hi - m_lo == u64::MAX {
        return false;
    }
    let range = m_hi - m_lo + 1;
    let ghost w: nat = if range > 1 { bit_width((range - 1) as nat) } else { 0 };
    let m = if range > 1 {
        let lz = (range - 1).leading_zeros();
        proof {
            lemma_bit_width((range - 1) as u64);
        }
        let bits = 64 - lz;
        let d = reader.read_bits(bits as usize);
        if d > u64::MAX - m_lo {
            return false;
        }
        m_lo + d
    } else {
        assert(window(s, p0, 0) =~= Seq::<bool>::empty());
        m_lo
    };
    if mid + 1 < n && m == u64::MAX {
        return false;
    }
    let ghost p1 = reader.pos();
    assert(p1 == vstd::math::min(p0 + w, s.len() as int));
    assert(m == m_lo + bits_value(window(s, p0, w)));
    let ghost left = bic_decoded(s, p1, mid as nat, lo as int, m - 1);
    let ghost out0 = out@;
    if mid > 0 {
        if !bic_decode(mid, lo, m - 1, reader, out) {
            return false;
        }
    } else {
        assert(out@ =~= out0 + left.unwrap().0);
    }
    let ghost p2 = reader.pos();
    assert(p2 == left.unwrap().1);
    out.push(m);
    let ghost right = bic_decoded(s, p2, (n - 1 - mid) as nat, m + 1, hi as int);
    let ghost out1 = out@;
    if mid + 1 < n {
        if !bic_decode(n - 1 - mid, m + 1, hi, reader, out) {
            return false;
        }
    } else {
        assert(out@ =~= out1 + right.unwrap().0);
    }
    proof {
        let (vals, p) = bic_decoded(s, p0, n as nat, lo as int, hi as int).unwrap();
        assert(vals == left.unwrap().0 + seq![m] + right.unwrap().0);
        assert(out@ =~= old(out)@ + vals);
    }
    true
}

/// The bits that frame a sequence: its length in 32 bits, its last value
/// in 64, then the values coded between zero and that last value.
pub open spec fn bic_stream(v: Seq<u64>) -> Seq<bool> {
    bits_of(v.len(), 32) + bits_of(v.last() as nat, 64) + bic_bits(v, 0, v.last() as int)
}

/// What decoding a framed byte sequence gives, or `None` where a step
/// would leave 64 bits.
pub open spec fn bic_unframe(b: Seq<u8>) -> Option<Seq<u64>> {
    let s = bytes_bits(b);
    let n = bits_value(window(s, 0, 32));
    let p1 = vstd::math::min(32, s.len() as int);
    let max = bits_value(window(s, p1, 64));
    let p2 = vstd::math::min(p1 + 64, s.len() as int);
    match bic_decoded(s, p2, n, 0, max as int) {
        Some((v, _)) => Some(v),
        None => None,
    }
}

/// What a sequence is written as: nothing for nothing, else its framed
/// bits packed into bytes, the last one padded with zeros.
pub open spec fn bic_output(source: Seq<u64>, result: Seq<u8>) -> bool {
    &&& source.len() == 0 ==> result.len() == 0
    &&& source.len() > 0 ==> {
        &&& result.len() == (bic_stream(source).len() + 7) / 8
        &&& bytes_bits(result) == bic_stream(source) + zero_bits(
            (8 * result.len() - bic_stream(source).len()) as nat,
        )
    }
}

/// Binary interpolative coding of a strictly increasing sequence.
pub struct BicBijection;

impl Bijection<Vec<u64>, Vec<u8>> for BicBijection {
    open spec fn applies_to(&self, source: Vec<u64>) -> bool {
        source@.len() > 0 ==> bic_fits(source@, 0, source@.last() as int)
    }

    open spec fn reverts(&self, source: Vec<u8>) -> bool {
        source@.len() == 0 || bic_unframe(source@) is Some
    }

    fn apply(&self, source: Vec<u64>) -> (result: Vec<u8>)
        ensures
            bic_output(source@, result@),
    {
        if source.len() == 0 {
            return Vec::new();
        }
        let max_val = source[source.len() - 1];
        let mut writer = BitWriter::new();
        writer.write_bits(source.len() as u64, 32);
        writer.write_bits(max_val, 64);
        assert(source@.subrange(0, source@.len() as int) == source@);
        bic_encode(source.as_slice(), 0, source.len(), 0, max_val, &mut writer);
        assert(writer.bits() =~= bic_stream(source@));
        writer.finish()
    }

    fn revert(&self, source: Vec<u8>) -> (out: Vec<u64>)
        ensures
            source@.len() == 0 ==> out@.len() == 0,
            source@.len() > 0 ==> bic_unframe(source@) == Some(out@),
    {
        match self.try_revert(source) {
            Some(out) => out,
            None => Vec::new(),
        }
    }
}

impl BicBijection {
    /// Codes the sequence, or gives `None` where it is not strictly
    /// increasing or is the one value `u64::MAX`.
    pub fn try_apply(&self, source: Vec<u64>) -> (out: Option<Vec<u8>>)
        ensures
            out is Some <==> self.applies_to(source),
            out matches Some(r) ==> bic_output(source@, r@),
    {
        if source.len() == 0 {
            return Some(Vec::new());
        }
        let mut i: usize = 1;
        while i < source.len()
            invariant
                1 <= i <= source@.len(),
                forall|a: int, b: int| 0 <= a < b < i ==> source@[a] < source@[b],
            decreases source@.len() - i,
        {
            if source[i - 1] >= source[i] {
                return None;
            }
            proof {
                assert forall|a: int, b: int| 0 <= a < b < i + 1 implies source@[a] < source@[b] by {
                    if b == i && a < i - 1 {
                        assert(source@[a] < source@[i - 1]);
                    }
                }
            }
            i += 1;
        }
        if source.len() == 1 && source[0] == u64::MAX {
            return None;
        }
        proof {
            let v = source@;
            assert forall|k: int| 0 <= k < v.len() implies 0 <= #[trigger] v[k] <= v.last() as int by {
                if k < v.len() - 1 {
                    assert(v[k] < v[v.len() - 1]);
                }
            }
        }
        Some(self.apply(source))
    }

    /// Decodes a sequence, or gives `None` where a step would leave 64 bits;
    /// nothing for nothing.
    pub fn try_revert(&self, source: Vec<u8>) -> (out: Option<Vec<u64>>)
        ensures
            match out {
                Some(v) => if source@.len() == 0 {
                    v@.len() == 0
                } else {
                    bic_unframe(source@) == Some(v@)
                },
                None => source@.len() > 0 && bic_unframe(source@) is None,
            },
    {
        if source.len() == 0 {
            return Some(Vec::new());
        }
        let mut reader = BitReader::new(source.as_slice());
        let ghost s = reader.stream();
        let n = reader.read_bits(32);
        proof {
            crate::bits::lemma_bits_value_bound(window(s, 0, 32));
            lemma2_to64();
        }
        let max_val = reader.read_bits(64);
        let mut result: Vec<u64> = Vec::new();
        if !bic_decode(n as usize, 0, max_val, &mut reader, &mut result) {
            return None;
        }
        assert(result@ =~= Seq::<u64>::empty() + result@);
        Some(result)
    }
}

/// What `apply` writes for a sequence that it takes reads back as that
/// sequence; nothing is written for nothing.
pub proof fn law_bic_apply_roundtrip(v: Seq<u64>, out: Seq<u8>)
    requires
        v.len() < 0x1_0000_0000,
        v.len() > 0 ==> bic_fits(v, 0, v.last() as int),
        bic_output(v, out),
    ensures
        v.len() == 0 ==> out.len() == 0,
        v.len() > 0 ==> bic_unframe(out) == Some(v),
{
    if v.len() > 0 {
        law_bic_roundtrip(v, out, (8 * out.len() - bic_stream(v).len()) as nat);
    }
}

/// Decoding what coding wrote gives the sequence back, whatever zero bits
/// pad the last byte.
pub proof fn law_bic_roundtrip(v: Seq<u64>, b: Seq<u8>, pad: nat)
    requires
        0 < v.len() < 0x1_0000_0000,
        bic_fits(v, 0, v.last() as int),
        bytes_bits(b) == bic_stream(v) + zero_bits(pad),
    ensures
        bic_unframe(b) == Some(v),
{
    let s = bytes_bits(b);
    let h1 = bits_of(v.len(), 32);
    let h2 = bits_of(v.last() as nat, 64);
    let body = bic_bits(v, 0, v.last() as int);
    lemma_bits_of_len(v.len(), 32);
    lemma_bits_of_len(v.last() as nat, 64);
    assert(s.subrange(0, 32) == h1);
    assert(s.subrange(32, 96) == h2);
    assert(s.subrange(96, 96 + body.len() as int) == body);
    lemma_window_within(s, 0, h1);
    lemma_window_within(s, 32, h2);
    lemma_bits_value_of(v.len(), 32);
    lemma_bits_value_of(v.last() as nat, 64);
    lemma2_to64();
    lemma2_to64_rest();
    vstd::arithmetic::div_mod::lemma_small_mod(v.len(), pow2(32));
    vstd::arithmetic::div_mod::lemma_small_mod(v.last() as nat, pow2(64));
    lemma_bic_decode_encode(v, 0, v.last() as int, s, 96);
}

} // verus!
