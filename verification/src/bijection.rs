//! Reversible transforms between representations, and the simple ones:
//! variable-length integers, three-byte integers, deltas and zigzag.
use crate::vint::{
    lemma_vint_bytes_read, lemma_vint_digits_bound, lemma_vint_digits_extend, lemma_vint_end_facts,
    lemma_vint_end_prefix, lemma_vint_end_unique, vint_bytes, vint_digits, vint_encode_all, vint_end,
    vint_readable_at, vint_value, write_vint,
};
use crate::bitops::{lemma_or_shift_low, lemma_or_shift_top, lemma_u64_join, lemma_u64_parts, lemma_u8_parts};
use vstd::prelude::*;

verus! {

/// A transform with its inverse. `apply` is defined on the inputs that
/// `applies_to` admits and `revert` on those that `reverts` admits.
pub trait Bijection<A, B> {
    spec fn applies_to(&self, source: A) -> bool;

    spec fn reverts(&self, source: B) -> bool;

    fn apply(&self, source: A) -> (out: B)
        requires
            self.applies_to(source),
    ;

    fn revert(&self, source: B) -> (out: A)
        requires
            self.reverts(source),
    ;
}

// ---------------------------------------------------------------------------
// Variable-length integers over a whole sequence
// ---------------------------------------------------------------------------
/// The numbers that a stream of groups spells; an unfinished last group is
/// dropped.
pub open spec fn vint_decode_all(s: Seq<u8>) -> Seq<u64>
    decreases s.len(),
{
    match vint_end(s, 0) {
        Some(e) => {
            proof {
                lemma_vint_end_facts(s, 0);
            }
            seq![vint_value(s, 0, e + 1)] + vint_decode_all(s.skip(e + 1))
        },
        None => Seq::empty(),
    }
}

/// Every group of the stream, the unfinished last one included, is at most
/// ten bytes long.
pub open spec fn vint_well_grouped(s: Seq<u8>) -> bool
    decreases s.len(),
{
    match vint_end(s, 0) {
        Some(e) => {
            proof {
                lemma_vint_end_facts(s, 0);
            }
            e < 10 && vint_well_grouped(s.skip(e + 1))
        },
        None => s.len() <= 10,
    }
}

/// A sequence that is empty or whose last byte ends a group.
pub open spec fn vint_closed(s: Seq<u8>) -> bool {
    s.len() == 0 || s.last() < 128
}

pub proof fn lemma_vint_digits_prefix(a: Seq<u8>, b: Seq<u8>, i: int, j: int)
    requires
        0 <= i,
        j <= a.len(),
    ensures
        vint_digits(a + b, i, j) == vint_digits(a, i, j),
    decreases j - i,
{
    if i < j {
        lemma_vint_digits_prefix(a, b, i + 1, j);
    }
}

pub proof fn lemma_vint_digits_skip(s: Seq<u8>, k: int, i: int, j: int)
    requires
        0 <= k <= s.len(),
        0 <= i,
        j <= s.len() - k,
    ensures
        vint_digits(s.skip(k), i, j) == vint_digits(s, i + k, j + k),
    decreases j - i,
{
    if i < j {
        lemma_vint_digits_skip(s, k, i + 1, j);
    }
}

pub proof fn lemma_vint_end_skip(s: Seq<u8>, k: int, i: int)
    requires
        0 <= k <= s.len(),
        0 <= i,
    ensures
        vint_end(s.skip(k), i) == match vint_end(s, i + k) {
            Some(e) => Some(e - k),
            None => None::<int>,
        },
    decreases s.len() - k - i,
{
    if i < s.len() - k && s[i + k] >= 128 {
        lemma_vint_end_skip(s, k, i + 1);
    }
}

/// Decoding a closed prefix, then the rest.
pub proof fn lemma_vint_decode_concat(a: Seq<u8>, b: Seq<u8>)
    requires
        vint_closed(a),
    ensures
        vint_decode_all(a + b) == vint_decode_all(a) + vint_decode_all(b),
        vint_well_grouped(a) && vint_well_grouped(b) ==> vint_well_grouped(a + b),
    decreases a.len(),
{
    if a.len() == 0 {
        assert(a + b == b);
    } else {
        lemma_vint_end_facts(a, 0);
        if vint_end(a, 0) is None {
            assert(a[a.len() - 1] >= 128);
        }
        let e = vint_end(a, 0).unwrap();
        lemma_vint_end_prefix(a, b, 0);
        lemma_vint_digits_prefix(a, b, 0, e + 1);
        assert((a + b).skip(e + 1) == a.skip(e + 1) + b);
        lemma_vint_decode_concat(a.skip(e + 1), b);
    }
}

pub proof fn lemma_vint_decode_bytes(n: u64)
    ensures
        vint_decode_all(vint_bytes(n)) == seq![n],
        vint_well_grouped(vint_bytes(n)),
        vint_closed(vint_bytes(n)),
        vint_readable_at(vint_bytes(n), 0),
{
    let s = vint_bytes(n);
    lemma_vint_bytes_read(n, Seq::empty());
    assert(s + Seq::<u8>::empty() == s);
    lemma_vint_end_facts(s, 0);
    let e = s.len() - 1;
    assert(s.skip(e + 1) == Seq::<u8>::empty());
    assert(vint_end(Seq::<u8>::empty(), 0) is None);
    assert(vint_decode_all(Seq::<u8>::empty()) == Seq::<u64>::empty());
    assert(vint_well_grouped(Seq::<u8>::empty()));
    assert(vint_end(s, 0) == Some(e));
    assert(vint_digits(s, 0, e + 1) == n as nat);
    assert(vint_value(s, 0, e + 1) == n);
    assert(vint_decode_all(s) == seq![vint_value(s, 0, e + 1)] + vint_decode_all(s.skip(e + 1)));
}

/// Everything that the writer produces reads back.
pub proof fn lemma_vint_roundtrip(s: Seq<u64>)
    ensures
        vint_decode_all(vint_encode_all(s)) == s,
        vint_well_grouped(vint_encode_all(s)),
        vint_closed(vint_encode_all(s)),
    decreases s.len(),
{
    if s.len() > 0 {
        lemma_vint_roundtrip(s.drop_last());
        lemma_vint_decode_bytes(s.last());
        lemma_vint_decode_concat(vint_encode_all(s.drop_last()), vint_bytes(s.last()));
        assert(s.drop_last() + seq![s.last()] == s);
    } else {
        assert(vint_end(Seq::<u8>::empty(), 0) is None);
    }
}

/// A stream of variable-length integers.
pub struct VIntBijection;

impl Bijection<Vec<u64>, Vec<u8>> for VIntBijection {
    open spec fn applies_to(&self, source: Vec<u64>) -> bool {
        true
    }

    open spec fn reverts(&self, source: Vec<u8>) -> bool {
        vint_well_grouped(source@)
    }

    fn apply(&self, numbers: Vec<u64>) -> (buf: Vec<u8>)
        ensures
            buf@ == vint_encode_all(numbers@),
    {
        let mut buf = Vec::new();
        let mut i: usize = 0;
        while i < numbers.len()
            invariant
                i <= numbers.len(),
                buf@ == vint_encode_all(numbers@.take(i as int)),
            decreases numbers.len() - i,
        {
            write_vint(numbers[i], &mut buf);
            assert(numbers@.take(i + 1).drop_last() == numbers@.take(i as int));
            i += 1;
        }
        assert(numbers@.take(i as int) == numbers@);
        buf
    }

    fn revert(&self, bytes: Vec<u8>) -> (numbers: Vec<u64>)
        ensures
            numbers@ == vint_decode_all(bytes@),
    {
        match try_decode_vints(bytes.as_slice()) {
            Some(numbers) => numbers,
            None => Vec::new(),
        }
    }
}

/// Decodes a stream of groups, or gives `None` where a group runs past ten
/// bytes.
#[verifier::spinoff_prover]
#[verifier::rlimit(40)]
pub fn try_decode_vints(bytes: &[u8]) -> (r: Option<Vec<u64>>)
    ensures
        match r {
            Some(numbers) => vint_well_grouped(bytes@) && numbers@ == vint_decode_all(bytes@),
            None => !vint_well_grouped(bytes@),
        },
{
    let ghost s = bytes@;
    let mut numbers: Vec<u64> = Vec::new();
    let mut n: u64 = 0;
    let mut shift: u64 = 0;
    let mut i: usize = 0;
    let ghost mut g: int = 0;
    assert(s.skip(0) == s);
    assert(s.take(0) + s.skip(0) == s);
    while i < bytes.len()
        invariant
            s == bytes@,
            0 <= g <= i <= s.len(),
            vint_closed(s.take(g)),
            s.take(g) + s.skip(g) == s,
            vint_decode_all(s) == numbers@ + vint_decode_all(s.skip(g)),
            vint_well_grouped(s) <==> vint_well_grouped(s.skip(g)),
            forall|k: int| g <= k < i ==> s[k] >= 128,
            i - g <= 10,
            shift == 7 * (i - g),
            n == vint_value(s, g, i as int),
            i - g <= 9 ==> n as nat == vint_digits(s, g, i as int),
        decreases s.len() - i,
    {
        let ghost t = s.skip(g);
        proof {
            lemma_vint_end_facts(t, 0);
            lemma_vint_end_skip(s, g, 0);
            lemma_vint_end_facts(s, g);
        }
        if shift == 70 {
            // the group runs past ten bytes
            proof {
                if vint_end(t, 0) is Some {
                    assert(vint_end(t, 0).unwrap() >= 10);
                }
            }
            return None;
        }
        let byte = bytes[i];
        let d = (byte & 0x7F) as u64;
        proof {
            lemma_u8_parts(byte);
        }
        proof {
            lemma_vint_digits_extend(s, g, i as int);
            lemma_vint_digits_bound(s, g, i as int);
            vstd::bits::lemma_u64_pow2_no_overflow(shift as nat);
        }
        let ghost old_n = n;
        if shift < 63 {
            proof {
                vstd::arithmetic::power2::lemma_pow2_adds(shift as nat, 7);
                vstd::arithmetic::power2::lemma2_to64();
                assert(d * vstd::arithmetic::power2::pow2(shift as nat) < 128
                    * vstd::arithmetic::power2::pow2(shift as nat)) by (nonlinear_arith)
                    requires
                        d < 128,
                        vstd::arithmetic::power2::pow2(shift as nat) > 0,
                ;
                vstd::bits::lemma_u64_pow2_no_overflow(63);
                if shift + 7 < 63 {
                    vstd::arithmetic::power2::lemma_pow2_strictly_increases(
                        (shift + 7) as nat,
                        63,
                    );
                }
                vstd::bits::lemma_u64_shl_is_mul(d, shift);
                vstd::bits::lemma_u64_shl_is_mul(1, shift);
            }
            assert(n < (1u64 << shift));
            proof {
                lemma_or_shift_low(n, d, shift);
            }
            n = n | (d << shift);
        } else {
            proof {
                vstd::arithmetic::power2::lemma2_to64_rest();
            }
            proof {
                lemma_or_shift_top(n, d);
            }
            n = n | (d << shift);
            assert((old_n as int + d * 0x8000_0000_0000_0000) % 0x1_0000_0000_0000_0000
                == old_n as int + (d % 2) * 0x8000_0000_0000_0000) by (nonlinear_arith)
                requires
                    0 <= old_n < 0x8000_0000_0000_0000,
                    0 <= d < 128,
            ;
        }
        if byte & 0x80 == 0 {
            let ghost e = i as int;
            proof {
                lemma_vint_end_unique(s, g, e);
                assert(vint_end(t, 0) == Some(e - g));
                lemma_vint_digits_skip(s, g, 0, e - g + 1);
                assert(vint_value(t, 0, e - g + 1) == n);
                assert(t.skip(e - g + 1) == s.skip(e + 1));
                assert(s.take(e + 1).last() == s[e]);
                assert(s.take(e + 1) + s.skip(e + 1) == s);
                assert(vint_well_grouped(t) == vint_well_grouped(t.skip(e - g + 1)));
            }
            numbers.push(n);
            n = 0;
            shift = 0;
            proof {
                g = e + 1;
            }
        } else {
            shift += 7;
        }
        i += 1;
    }
    proof {
        let t = s.skip(g);
        lemma_vint_end_facts(s, g);
        lemma_vint_end_skip(s, g, 0);
        assert(vint_end(t, 0) is None);
        assert(vint_well_grouped(t));
    }
    Some(numbers)
}

/// A last group that is not finished (every byte with the high bit set)
/// is dropped: decoding gives what the groups before it give.
pub proof fn law_vint_unfinished_dropped(s: Seq<u8>, t: Seq<u8>)
    requires
        vint_closed(s),
        forall|i: int| 0 <= i < t.len() ==> t[i] >= 128,
    ensures
        vint_decode_all(s + t) == vint_decode_all(s),
{
    lemma_vint_decode_concat(s, t);
    lemma_vint_end_facts(t, 0);
    if t.len() > 0 {
        assert(vint_end(t, 0) is None);
    }
    assert(vint_decode_all(t) =~= Seq::<u64>::empty());
    assert(vint_decode_all(s) + Seq::<u64>::empty() =~= vint_decode_all(s));
}

/// Encoding a sequence and decoding it again gives the sequence back.
pub proof fn law_vint_roundtrip(s: Seq<u64>)
    ensures
        vint_well_grouped(vint_encode_all(s)),
        vint_decode_all(vint_encode_all(s)) == s,
{
    lemma_vint_roundtrip(s);
}

} // verus!

verus! {

// ---------------------------------------------------------------------------
// Three-byte integers
// ---------------------------------------------------------------------------
/// Byte `k` (0, 1 or 2) of the little-endian three-byte form of `n`.
pub open spec fn u24_byte(n: u64, k: int) -> u8 {
    if k == 0 {
        (n % 256) as u8
    } else if k == 1 {
        ((n / 256) % 256) as u8
    } else {
        ((n / 65536) % 256) as u8
    }
}

pub open spec fn u24_encode_all(s: Seq<u64>) -> Seq<u8> {
    Seq::new(3 * s.len(), |k: int| u24_byte(s[k / 3], k % 3))
}

pub open spec fn u24_decode_all(b: Seq<u8>) -> Seq<u64> {
    Seq::new(
        b.len() / 3,
        |i: int| (b[3 * i] as int + 256 * b[3 * i + 1] as int + 65536 * b[3 * i + 2] as int) as u64,
    )
}

/// Numbers below 2^24 stored as three little-endian bytes each.
pub struct U24Bijection;

impl Bijection<Vec<u64>, Vec<u8>> for U24Bijection {
    open spec fn applies_to(&self, source: Vec<u64>) -> bool {
        forall|i: int| 0 <= i < source@.len() ==> source@[i] < 0x100_0000
    }

    open spec fn reverts(&self, source: Vec<u8>) -> bool {
        source@.len() % 3 == 0
    }

    fn apply(&self, numbers: Vec<u64>) -> (buf: Vec<u8>)
        ensures
            buf@ == u24_encode_all(numbers@),
    {
        let mut buf: Vec<u8> = Vec::new();
        let mut i: usize = 0;
        while i < numbers.len()
            invariant
                i <= numbers.len(),
                buf@.len() == 3 * i,
                forall|k: int| 0 <= k < 3 * i ==> buf@[k] == u24_byte(numbers@[k / 3], k % 3),
            decreases numbers.len() - i,
        {
            let num = numbers[i];
            proof {
                lemma_u64_parts(num);
            }
            buf.push(num as u8);
            buf.push((num >> 8) as u8);
            buf.push((num >> 16) as u8);
            i += 1;
        }
        assert(buf@ == u24_encode_all(numbers@));
        buf
    }

    fn revert(&self, bytes: Vec<u8>) -> (numbers: Vec<u64>)
        ensures
            numbers@ == u24_decode_all(bytes@),
    {
        let mut numbers: Vec<u64> = Vec::new();
        let blen = bytes.len();
        let count = blen / 3;
        let mut i: usize = 0;
        let mut j: usize = 0;
        while i < count
            invariant
                count == bytes@.len() / 3,
                bytes@.len() % 3 == 0,
                i <= count,
                j == 3 * i,
                j <= bytes@.len(),
                blen == bytes@.len(),
                numbers@ == u24_decode_all(bytes@).take(i as int),
            decreases count - i,
        {
            assert(j + 3 <= bytes@.len());
            let b0 = bytes[j] as u64;
            let b1 = bytes[j + 1] as u64;
            let b2 = bytes[j + 2] as u64;
            proof {
                lemma_u64_join(0, 0, b0, b1, b2);
            }
            let n = b0 | (b1 << 8) | (b2 << 16);
            numbers.push(n);
            assert(numbers@ == u24_decode_all(bytes@).take(i + 1));
            i += 1;
            j += 3;
        }
        assert(u24_decode_all(bytes@).take(count as int) == u24_decode_all(bytes@));
        numbers
    }
}

/// Three-byte integers read back what was written.
pub proof fn law_u24_roundtrip(s: Seq<u64>)
    requires
        forall|i: int| 0 <= i < s.len() ==> s[i] < 0x100_0000,
    ensures
        u24_encode_all(s).len() % 3 == 0,
        u24_decode_all(u24_encode_all(s)) == s,
{
    let b = u24_encode_all(s);
    assert forall|i: int| 0 <= i < s.len() implies u24_decode_all(b)[i] == s[i] by {
        let n = s[i];
        assert((3 * i) / 3 == i && (3 * i) % 3 == 0);
        assert((3 * i + 1) / 3 == i && (3 * i + 1) % 3 == 1);
        assert((3 * i + 2) / 3 == i && (3 * i + 2) % 3 == 2);
        assert(n < 0x100_0000 ==> n % 256 + 256 * ((n / 256) % 256) + 65536 * ((n / 65536) % 256)
            == n) by (nonlinear_arith);
    }
    assert(u24_decode_all(b) == s);
}

/// Three bytes read as a number below 2^24 give those bytes back.
proof fn lemma_u24_parts(b0: u8, b1: u8, b2: u8)
    ensures
        ({
            let n = b0 as int + 256 * b1 as int + 65536 * b2 as int;
            &&& 0 <= n < 0x100_0000
            &&& n % 256 == b0
            &&& (n / 256) % 256 == b1
            &&& (n / 65536) % 256 == b2
        }),
{
    let n = b0 as int + 256 * b1 as int + 65536 * b2 as int;
    vstd::arithmetic::div_mod::lemma_fundamental_div_mod_converse(n, 256, b1 as int + 256 * b2 as int, b0 as int);
    vstd::arithmetic::div_mod::lemma_fundamental_div_mod_converse(n / 256, 256, b2 as int, b1 as int);
    vstd::arithmetic::div_mod::lemma_fundamental_div_mod_converse(
        n,
        65536,
        b2 as int,
        b0 as int + 256 * b1 as int,
    );
    vstd::arithmetic::div_mod::lemma_fundamental_div_mod_converse(b2 as int, 256, 0, b2 as int);
}

/// Three-byte integers written back from what was read give the bytes
/// again: every whole group of three bytes is the form of a number below
/// 2^24.
pub proof fn law_u24_decode_roundtrip(b: Seq<u8>)
    requires
        b.len() % 3 == 0,
    ensures
        forall|i: int| 0 <= i < u24_decode_all(b).len() ==> #[trigger] u24_decode_all(b)[i] < 0x100_0000,
        u24_encode_all(u24_decode_all(b)) == b,
{
    let s = u24_decode_all(b);
    assert forall|i: int| 0 <= i < s.len() implies #[trigger] s[i] < 0x100_0000 by {
        lemma_u24_parts(b[3 * i], b[3 * i + 1], b[3 * i + 2]);
    }
    let e = u24_encode_all(s);
    assert(e.len() == b.len());
    assert forall|k: int| 0 <= k < b.len() implies e[k] == b[k] by {
        let i = k / 3;
        let r = k % 3;
        assert(k == 3 * i + r);
        lemma_u24_parts(b[3 * i], b[3 * i + 1], b[3 * i + 2]);
    }
    assert(e =~= b);
}

// ---------------------------------------------------------------------------
// Deltas
// ---------------------------------------------------------------------------
/// `s[i]` minus the element before it (zero before the first).
pub open spec fn delta_at(s: Seq<int>, i: int) -> int {
    if i == 0 {
        s[0]
    } else {
        s[i] - s[i - 1]
    }
}

/// The sum of the first `i` elements.
pub open spec fn prefix_sum(s: Seq<int>, i: int) -> int
    decreases i,
{
    if i <= 0 {
        0
    } else {
        prefix_sum(s, i - 1) + s[i - 1]
    }
}

pub open spec fn i64s(s: Seq<i64>) -> Seq<int> {
    s.map_values(|x: i64| x as int)
}

pub open spec fn u64s(s: Seq<u64>) -> Seq<int> {
    s.map_values(|x: u64| x as int)
}

pub open spec fn fits_i64(x: int) -> bool {
    i64::MIN <= x <= i64::MAX
}

/// The differences between neighbours, the first element kept as it is.
pub struct DeltaBijection;

impl Bijection<Vec<i64>, Vec<i64>> for DeltaBijection {
    open spec fn applies_to(&self, source: Vec<i64>) -> bool {
        forall|i: int| 0 <= i < source@.len() ==> fits_i64(#[trigger] delta_at(i64s(source@), i))
    }

    open spec fn reverts(&self, source: Vec<i64>) -> bool {
        forall|i: int| 0 < i <= source@.len() ==> fits_i64(#[trigger] prefix_sum(i64s(source@), i))
    }

    fn apply(&self, source: Vec<i64>) -> (deltas: Vec<i64>)
        ensures
            deltas@.len() == source@.len(),
            forall|i: int| 0 <= i < source@.len() ==> deltas@[i] == delta_at(i64s(source@), i),
    {
        let ghost s = i64s(source@);
        if source.len() == 0 {
            return Vec::new();
        }
        let mut deltas: Vec<i64> = Vec::new();
        let mut prev: i64 = 0;
        let mut i: usize = 0;
        while i < source.len()
            invariant
                s == i64s(source@),
                self.applies_to(source),
                i <= source.len(),
                deltas@.len() == i,
                prev == if i == 0 { 0 } else { source@[i - 1] as int },
                forall|k: int| 0 <= k < i ==> deltas@[k] == delta_at(s, k),
            decreases source.len() - i,
        {
            let val = source[i];
            assert(fits_i64(delta_at(s, i as int)));
            deltas.push(val - prev);
            prev = val;
            i += 1;
        }
        deltas
    }

    fn revert(&self, source: Vec<i64>) -> (original: Vec<i64>)
        ensures
            original@.len() == source@.len(),
            forall|i: int|
                0 <= i < source@.len() ==> original@[i] == prefix_sum(i64s(source@), i + 1),
    {
        let ghost s = i64s(source@);
        let mut original: Vec<i64> = Vec::new();
        let mut prev: i64 = 0;
        let mut i: usize = 0;
        while i < source.len()
            invariant
                s == i64s(source@),
                self.reverts(source),
                i <= source.len(),
                original@.len() == i,
                prev == prefix_sum(s, i as int),
                forall|k: int| 0 <= k < i ==> original@[k] == prefix_sum(s, k + 1),
            decreases source.len() - i,
        {
            assert(fits_i64(prefix_sum(s, i + 1)));
            let val = prev + source[i];
            original.push(val);
            prev = val;
            i += 1;
        }
        original
    }
}

/// Summing the differences gives back the prefix.
pub proof fn lemma_prefix_sum_of_deltas(s: Seq<int>, i: int)
    requires
        0 <= i <= s.len(),
    ensures
        prefix_sum(Seq::new(s.len(), |k: int| delta_at(s, k)), i) == if i == 0 {
            0
        } else {
            s[i - 1]
        },
    decreases i,
{
    if i > 0 {
        lemma_prefix_sum_of_deltas(s, i - 1);
    }
}

/// Reverting the deltas of a sequence gives the sequence back.
pub proof fn law_delta_roundtrip(s: Seq<i64>)
    requires
        forall|i: int| 0 <= i < s.len() ==> fits_i64(#[trigger] delta_at(i64s(s), i)),
    ensures
        ({
            let d = Seq::new(s.len(), |k: int| delta_at(i64s(s), k) as i64);
            &&& forall|i: int| 0 < i <= d.len() ==> fits_i64(#[trigger] prefix_sum(i64s(d), i))
            &&& forall|i: int| 0 <= i < s.len() ==> prefix_sum(i64s(d), i + 1) == s[i]
        }),
{
    let d = Seq::new(s.len(), |k: int| delta_at(i64s(s), k) as i64);
    let t = i64s(s);
    assert(i64s(d) == Seq::new(t.len(), |k: int| delta_at(t, k)));
    assert forall|i: int| 0 < i <= d.len() implies fits_i64(#[trigger] prefix_sum(i64s(d), i)) by {
        lemma_prefix_sum_of_deltas(t, i);
    }
    assert forall|i: int| 0 <= i < s.len() implies prefix_sum(i64s(d), i + 1) == s[i] by {
        lemma_prefix_sum_of_deltas(t, i + 1);
    }
}

} // verus!

verus! {

/// The differences between neighbours of a non-decreasing sequence, as
/// unsigned numbers.
pub struct PositiveDeltaBijection;

impl Bijection<Vec<i64>, Vec<u64>> for PositiveDeltaBijection {
    open spec fn applies_to(&self, source: Vec<i64>) -> bool {
        forall|i: int|
            0 <= i < source@.len() ==> 0 <= #[trigger] delta_at(i64s(source@), i) <= i64::MAX
    }

    open spec fn reverts(&self, source: Vec<u64>) -> bool {
        forall|i: int|
            0 < i <= source@.len() ==> fits_i64(#[trigger] prefix_sum(as_signed(source@), i))
    }

    fn apply(&self, source: Vec<i64>) -> (deltas: Vec<u64>)
        ensures
            deltas@.len() == source@.len(),
            forall|i: int| 0 <= i < source@.len() ==> deltas@[i] == delta_at(i64s(source@), i),
    {
        let ghost s = i64s(source@);
        if source.len() == 0 {
            return Vec::new();
        }
        let mut deltas: Vec<u64> = Vec::new();
        let mut prev: i64 = 0;
        let mut i: usize = 0;
        while i < source.len()
            invariant
                s == i64s(source@),
                self.applies_to(source),
                i <= source.len(),
                deltas@.len() == i,
                prev == if i == 0 { 0 } else { source@[i - 1] as int },
                forall|k: int| 0 <= k < i ==> deltas@[k] == delta_at(s, k),
            decreases source.len() - i,
        {
            let val = source[i];
            assert(0 <= delta_at(s, i as int) <= i64::MAX);
            let delta = val - prev;
            deltas.push(delta as u64);
            prev = val;
            i += 1;
        }
        deltas
    }

    fn revert(&self, source: Vec<u64>) -> (original: Vec<i64>)
        ensures
            original@.len() == source@.len(),
            forall|i: int|
                0 <= i < source@.len() ==> original@[i] == prefix_sum(as_signed(source@), i + 1),
    {
        let ghost s = as_signed(source@);
        let mut original: Vec<i64> = Vec::new();
        let mut prev: i64 = 0;
        let mut i: usize = 0;
        while i < source.len()
            invariant
                s == as_signed(source@),
                self.reverts(source),
                i <= source.len(),
                original@.len() == i,
                prev == prefix_sum(s, i as int),
                forall|k: int| 0 <= k < i ==> original@[k] == prefix_sum(s, k + 1),
            decreases source.len() - i,
        {
            assert(fits_i64(prefix_sum(s, i + 1)));
            let val = prev + (source[i] as i64);
            original.push(val);
            prev = val;
            i += 1;
        }
        original
    }
}

impl PositiveDeltaBijection {
    /// Takes the differences, or gives `None` where the values decrease or
    /// a difference leaves 63 bits.
    pub fn try_apply(&self, source: Vec<i64>) -> (out: Option<Vec<u64>>)
        ensures
            out is Some <==> self.applies_to(source),
            out matches Some(deltas) ==> {
                &&& deltas@.len() == source@.len()
                &&& forall|i: int| 0 <= i < source@.len() ==> deltas@[i] == delta_at(i64s(source@), i)
            },
    {
        let ghost s = i64s(source@);
        let mut i: usize = 0;
        while i < source.len()
            invariant
                s == i64s(source@),
                i <= source.len(),
                forall|k: int| 0 <= k < i ==> 0 <= #[trigger] delta_at(s, k) <= i64::MAX,
            decreases source.len() - i,
        {
            let cur = source[i];
            if i == 0 {
                if cur < 0 {
                    assert(delta_at(s, 0) < 0);
                    return None;
                }
            } else {
                let prev = source[i - 1];
                if cur < prev || (prev < 0 && cur > i64::MAX + prev) {
                    assert(!(0 <= delta_at(s, i as int) <= i64::MAX));
                    return None;
                }
            }
            i += 1;
        }
        Some(self.apply(source))
    }

    /// Sums the differences, or gives `None` where a sum leaves 64 bits.
    pub fn try_revert(&self, source: Vec<u64>) -> (out: Option<Vec<i64>>)
        ensures
            match out {
                Some(v) => {
                    &&& self.reverts(source)
                    &&& v@.len() == source@.len()
                    &&& forall|i: int|
                        0 <= i < source@.len() ==> v@[i] == prefix_sum(as_signed(source@), i + 1)
                },
                None => !self.reverts(source),
            },
    {
        let ghost s = as_signed(source@);
        let mut original: Vec<i64> = Vec::new();
        let mut prev: i64 = 0;
        let mut i: usize = 0;
        while i < source.len()
            invariant
                s == as_signed(source@),
                i <= source.len(),
                original@.len() == i,
                prev == prefix_sum(s, i as int),
                forall|k: int| 0 < k <= i ==> fits_i64(#[trigger] prefix_sum(s, k)),
                forall|k: int| 0 <= k < i ==> original@[k] == prefix_sum(s, k + 1),
            decreases source.len() - i,
        {
            let val = match prev.checked_add(source[i] as i64) {
                Some(v) => v,
                None => {
                    assert(!fits_i64(prefix_sum(s, i + 1)));
                    return None;
                },
            };
            original.push(val);
            prev = val;
            i += 1;
        }
        Some(original)
    }
}

/// Unsigned numbers read as two's-complement signed ones.
pub open spec fn as_signed(s: Seq<u64>) -> Seq<int> {
    s.map_values(|x: u64| (x as i64) as int)
}

/// Reverting the unsigned deltas of a non-decreasing sequence gives it back.
pub proof fn law_positive_delta_roundtrip(s: Seq<i64>)
    requires
        forall|i: int| 0 <= i < s.len() ==> 0 <= #[trigger] delta_at(i64s(s), i) <= i64::MAX,
    ensures
        ({
            let d = Seq::new(s.len(), |k: int| delta_at(i64s(s), k) as u64);
            &&& forall|i: int| 0 < i <= d.len() ==> fits_i64(#[trigger] prefix_sum(as_signed(d), i))
            &&& forall|i: int| 0 <= i < s.len() ==> prefix_sum(as_signed(d), i + 1) == s[i]
        }),
{
    let d = Seq::new(s.len(), |k: int| delta_at(i64s(s), k) as u64);
    let t = i64s(s);
    assert forall|k: int| 0 <= k < d.len() implies (d[k] as i64) as int == delta_at(t, k) by {
        let x = d[k];
        assert(x <= i64::MAX);
    }
    assert(as_signed(d) == Seq::new(t.len(), |k: int| delta_at(t, k)));
    assert forall|i: int| 0 < i <= d.len() implies fits_i64(#[trigger] prefix_sum(as_signed(d), i)) by {
        lemma_prefix_sum_of_deltas(t, i);
    }
    assert forall|i: int| 0 <= i < s.len() implies prefix_sum(as_signed(d), i + 1) == s[i] by {
        lemma_prefix_sum_of_deltas(t, i + 1);
    }
}

/// The differences between neighbours of a non-decreasing unsigned sequence.
pub struct U64DeltaBijection;

impl Bijection<Vec<u64>, Vec<u64>> for U64DeltaBijection {
    open spec fn applies_to(&self, source: Vec<u64>) -> bool {
        forall|i: int| 0 <= i < source@.len() ==> 0 <= #[trigger] delta_at(u64s(source@), i)
    }

    open spec fn reverts(&self, source: Vec<u64>) -> bool {
        forall|i: int| 0 < i <= source@.len() ==> #[trigger] prefix_sum(u64s(source@), i) <= u64::MAX
    }

    fn apply(&self, source: Vec<u64>) -> (deltas: Vec<u64>)
        ensures
            deltas@.len() == source@.len(),
            forall|i: int| 0 <= i < source@.len() ==> deltas@[i] == delta_at(u64s(source@), i),
    {
        let ghost s = u64s(source@);
        if source.len() == 0 {
            return Vec::new();
        }
        let mut deltas: Vec<u64> = Vec::new();
        let mut prev: u64 = 0;
        let mut i: usize = 0;
        while i < source.len()
            invariant
                s == u64s(source@),
                self.applies_to(source),
                i <= source.len(),
                deltas@.len() == i,
                prev == if i == 0 { 0 } else { source@[i - 1] as int },
                forall|k: int| 0 <= k < i ==> deltas@[k] == delta_at(s, k),
            decreases source.len() - i,
        {
            let val = source[i];
            assert(0 <= delta_at(s, i as int));
            deltas.push(val - prev);
            prev = val;
            i += 1;
        }
        deltas
    }

    fn revert(&self, source: Vec<u64>) -> (original: Vec<u64>)
        ensures
            original@.len() == source@.len(),
            forall|i: int|
                0 <= i < source@.len() ==> original@[i] == prefix_sum(u64s(source@), i + 1),
    {
        let ghost s = u64s(source@);
        let mut original: Vec<u64> = Vec::new();
        let mut prev: u64 = 0;
        let mut i: usize = 0;
        while i < source.len()
            invariant
                s == u64s(source@),
                self.reverts(source),
                i <= source.len(),
                original@.len() == i,
                prev == prefix_sum(s, i as int),
                forall|k: int| 0 <= k < i ==> original@[k] == prefix_sum(s, k + 1),
            decreases source.len() - i,
        {
            assert(prefix_sum(s, i + 1) <= u64::MAX);
            let val = prev + source[i];
            original.push(val);
            prev = val;
            i += 1;
        }
        original
    }
}

/// Reverting the deltas of a non-decreasing unsigned sequence gives it back.
pub proof fn law_u64_delta_roundtrip(s: Seq<u64>)
    requires
        forall|i: int| 0 <= i < s.len() ==> 0 <= #[trigger] delta_at(u64s(s), i),
    ensures
        ({
            let d = Seq::new(s.len(), |k: int| delta_at(u64s(s), k) as u64);
            &&& forall|i: int| 0 < i <= d.len() ==> #[trigger] prefix_sum(u64s(d), i) <= u64::MAX
            &&& forall|i: int| 0 <= i < s.len() ==> prefix_sum(u64s(d), i + 1) == s[i]
        }),
{
    let d = Seq::new(s.len(), |k: int| delta_at(u64s(s), k) as u64);
    let t = u64s(s);
    assert forall|k: int| 0 <= k < d.len() implies delta_at(t, k) <= u64::MAX by {
        if k > 0 {
            assert(t[k] == s[k] as int);
        }
    }
    assert(u64s(d) == Seq::new(t.len(), |k: int| delta_at(t, k)));
    assert forall|i: int| 0 < i <= d.len() implies #[trigger] prefix_sum(u64s(d), i) <= u64::MAX by {
        lemma_prefix_sum_of_deltas(t, i);
    }
    assert forall|i: int| 0 <= i < s.len() implies prefix_sum(u64s(d), i + 1) == s[i] by {
        lemma_prefix_sum_of_deltas(t, i + 1);
    }
}

// ---------------------------------------------------------------------------
// Zigzag
// ---------------------------------------------------------------------------
/// Small magnitudes to small numbers: 0, -1, 1, -2, 2, ... to 0, 1, 2, 3, 4, ...
pub open spec fn zigzag(n: i64) -> u64 {
    if n >= 0 {
        (2 * n) as u64
    } else {
        (-2 * n - 1) as u64
    }
}

pub open spec fn unzigzag(u: u64) -> i64 {
    if u % 2 == 0 {
        (u / 2) as i64
    } else {
        (-((u / 2) as int) - 1) as i64
    }
}

/// Signed numbers interleaved into unsigned ones.
pub struct ZigZagBijection;

impl Bijection<Vec<i64>, Vec<u64>> for ZigZagBijection {
    open spec fn applies_to(&self, source: Vec<i64>) -> bool {
        true
    }

    open spec fn reverts(&self, source: Vec<u64>) -> bool {
        true
    }

    fn apply(&self, source: Vec<i64>) -> (zigzags: Vec<u64>)
        ensures
            zigzags@ == source@.map_values(|n: i64| zigzag(n)),
    {
        let mut zigzags: Vec<u64> = Vec::new();
        let mut i: usize = 0;
        while i < source.len()
            invariant
                i <= source.len(),
                zigzags@ == source@.take(i as int).map_values(|n: i64| zigzag(n)),
            decreases source.len() - i,
        {
            let n = source[i];
            let encoded = ((n << 1) ^ (n >> 63)) as u64;
            proof {
                lemma_zigzag_bits(n, 0);
            }
            zigzags.push(encoded);
            assert(source@.take(i + 1) == source@.take(i as int).push(n));
            i += 1;
        }
        assert(source@.take(i as int) == source@);
        zigzags
    }

    fn revert(&self, source: Vec<u64>) -> (original: Vec<i64>)
        ensures
            original@ == source@.map_values(|u: u64| unzigzag(u)),
    {
        let mut original: Vec<i64> = Vec::new();
        let mut i: usize = 0;
        while i < source.len()
            invariant
                i <= source.len(),
                original@ == source@.take(i as int).map_values(|u: u64| unzigzag(u)),
            decreases source.len() - i,
        {
            let n = source[i];
            proof {
                lemma_zigzag_bits(0, n);
            }
            let decoded = ((n >> 1) as i64) ^ -((n & 1) as i64);
            original.push(decoded);
            assert(source@.take(i + 1) == source@.take(i as int).push(n));
            i += 1;
        }
        assert(source@.take(i as int) == source@);
        original
    }
}

/// Zigzag encoding is undone by its reverse.
pub proof fn law_zigzag_roundtrip(n: i64)
    ensures
        unzigzag(zigzag(n)) == n,
{
    lemma_zigzag_bits(n, 0);
}

proof fn lemma_zigzag_bits(n: i64, u: u64)
    by (bit_vector)
    ensures
        ((n << 1) ^ (n >> 63)) as u64 == zigzag(n),
        u & 1 <= 1,
        ((u >> 1) as i64) ^ ((-((u & 1) as i64)) as i64) == unzigzag(u),
        unzigzag(zigzag(n)) == n,
{
}

} // verus!
