//! Variable-length integers: seven bits per byte, least significant group
//! first, the high bit of a byte set when another byte follows.
use vstd::arithmetic::power2::*;
use vstd::bits::*;
use crate::bitops::{lemma_or_shift_low, lemma_or_shift_top, lemma_u64_parts, lemma_u8_parts};
use vstd::prelude::*;

verus! {

/// The bytes that encode `n`.
pub open spec fn vint_bytes(n: u64) -> Seq<u8>
    decreases n,
{
    if n < 128 {
        seq![n as u8]
    } else {
        seq![(n % 128 + 128) as u8] + vint_bytes(n / 128)
    }
}

/// The encodings of all the numbers of `s`, one after the other.
pub open spec fn vint_encode_all(s: Seq<u64>) -> Seq<u8>
    decreases s.len(),
{
    if s.len() == 0 {
        Seq::empty()
    } else {
        vint_encode_all(s.drop_last()) + vint_bytes(s.last())
    }
}

/// The index of the first byte at or after `i` whose high bit is clear.
pub open spec fn vint_end(s: Seq<u8>, i: int) -> Option<int>
    decreases s.len() - i,
{
    if i < 0 || i >= s.len() {
        None
    } else if s[i] < 128 {
        Some(i)
    } else {
        vint_end(s, i + 1)
    }
}

/// The number that the low seven bits of `s[i..j]` spell, least significant
/// group first, with no bound.
pub open spec fn vint_digits(s: Seq<u8>, i: int, j: int) -> nat
    decreases j - i,
{
    if j <= i {
        0
    } else {
        (s[i] % 128) as nat + 128 * vint_digits(s, i + 1, j)
    }
}

/// The value that a reader builds in 64 bits from the group `s[i..j]`.
pub open spec fn vint_value(s: Seq<u8>, i: int, j: int) -> u64 {
    (vint_digits(s, i, j) % 0x1_0000_0000_0000_0000) as u64
}

/// A group starts at `i`, ends within the sequence, and is no longer than
/// ten bytes (a reader shifts by at most 63 bits).
pub open spec fn vint_readable_at(s: Seq<u8>, i: int) -> bool {
    match vint_end(s, i) {
        Some(e) => e - i < 10,
        None => false,
    }
}

pub proof fn lemma_vint_end_facts(s: Seq<u8>, i: int)
    ensures
        vint_end(s, i) matches Some(e) ==> i <= e < s.len() && s[e] < 128 && forall|k: int|
            i <= k < e ==> s[k] >= 128,
        vint_end(s, i) is None && 0 <= i ==> forall|k: int| i <= k < s.len() ==> s[k] >= 128,
    decreases s.len() - i,
{
    if 0 <= i < s.len() && s[i] >= 128 {
        lemma_vint_end_facts(s, i + 1);
    }
}

pub proof fn lemma_vint_end_unique(s: Seq<u8>, i: int, e: int)
    requires
        0 <= i <= e < s.len(),
        s[e] < 128,
        forall|k: int| i <= k < e ==> s[k] >= 128,
    ensures
        vint_end(s, i) == Some(e),
    decreases e - i,
{
    if i < e {
        lemma_vint_end_unique(s, i + 1, e);
    }
}

/// The end of a group depends only on the bytes from its start on.
pub proof fn lemma_vint_end_prefix(s: Seq<u8>, t: Seq<u8>, i: int)
    requires
        vint_end(s, i) is Some,
    ensures
        vint_end(s + t, i) == vint_end(s, i),
    decreases s.len() - i,
{
    if s[i] >= 128 {
        lemma_vint_end_prefix(s, t, i + 1);
    }
}

/// Appending a group's next digit.
#[verifier::spinoff_prover]
pub proof fn lemma_vint_digits_extend(s: Seq<u8>, i: int, j: int)
    requires
        i <= j < s.len(),
    ensures
        vint_digits(s, i, j + 1) == vint_digits(s, i, j) + (s[j] % 128) as nat * pow2(
            (7 * (j - i)) as nat,
        ),
    decreases j - i,
{
    if i == j {
        lemma_pow2_0();
        assert(vint_digits(s, i + 1, j + 1) == 0);
        assert(vint_digits(s, i, j) == 0);
        assert((s[j] % 128) as nat * pow2(0) == (s[j] % 128) as nat);
    } else {
        lemma_vint_digits_extend(s, i + 1, j);
        lemma_pow2_adds(7, (7 * (j - i - 1)) as nat);
        lemma2_to64();
        let q = pow2((7 * (j - i - 1)) as nat);
        let d = (s[j] % 128) as nat;
        let a = vint_digits(s, i + 1, j);
        assert(pow2((7 * (j - i)) as nat) == 128 * q);
        assert(vint_digits(s, i, j + 1) == (s[i] % 128) as nat + 128 * vint_digits(s, i + 1, j + 1));
        assert(vint_digits(s, i, j) == (s[i] % 128) as nat + 128 * a);
        assert(vint_digits(s, i + 1, j + 1) == a + d * q);
        assert(128 * (a + d * q) == 128 * a + d * (128 * q)) by (nonlinear_arith);
        assert(vint_digits(s, i, j + 1) == vint_digits(s, i, j) + d * pow2((7 * (j - i)) as nat));
    }
}

pub proof fn lemma_pow2_0()
    ensures
        pow2(0) == 1,
{
    lemma2_to64();
}

pub proof fn lemma_vint_digits_bound(s: Seq<u8>, i: int, j: int)
    requires
        i <= j,
    ensures
        vint_digits(s, i, j) < pow2((7 * (j - i)) as nat),
    decreases j - i,
{
    if i == j {
        lemma_pow2_0();
    } else {
        lemma_vint_digits_bound(s, i + 1, j);
        lemma_pow2_adds(7, (7 * (j - i - 1)) as nat);
        lemma2_to64();
        let p = pow2((7 * (j - i - 1)) as nat);
        let d = vint_digits(s, i + 1, j);
        assert((s[i] % 128) as nat + 128 * d < 128 * p) by (nonlinear_arith)
            requires
                d < p,
                (s[i] % 128) < 128,
        ;
    }
}

/// What a writer produces, read back from the start of a longer sequence.
pub proof fn lemma_vint_bytes_read(n: u64, t: Seq<u8>)
    ensures
        vint_bytes(n).len() <= 10,
        vint_end(vint_bytes(n) + t, 0) == Some(vint_bytes(n).len() - 1),
        vint_digits(vint_bytes(n) + t, 0, vint_bytes(n).len() as int) == n,
    decreases n,
{
    let s = vint_bytes(n) + t;
    if n < 128 {
        assert(s[0] == n as u8);
        assert(vint_digits(s, 1, 1) == 0);
    } else {
        let m = n / 128;
        lemma_vint_bytes_read(m, t);
        let r = vint_bytes(m) + t;
        assert(s == seq![(n % 128 + 128) as u8] + r);
        assert(s.drop_first() == r);
        lemma_vint_end_shift(s, 1);
        assert forall|k: int| 0 <= k < vint_bytes(m).len() implies vint_digits_shift_ok(
            s,
            r,
            k,
        ) by {
            assert(s[k + 1] == r[k]);
        }
        lemma_vint_digits_shift(s, r, 0, vint_bytes(m).len() as int);
        if m >= 128 {
            lemma_vint_bytes_len_big(m);
        }
        lemma_vint_bytes_len_bound(n);
    }
}

spec fn vint_digits_shift_ok(s: Seq<u8>, r: Seq<u8>, k: int) -> bool {
    s[k + 1] == r[k]
}

proof fn lemma_vint_digits_shift(s: Seq<u8>, r: Seq<u8>, i: int, j: int)
    requires
        0 <= i <= j,
        forall|k: int| i <= k < j ==> vint_digits_shift_ok(s, r, k),
    ensures
        vint_digits(s, i + 1, j + 1) == vint_digits(r, i, j),
    decreases j - i,
{
    if i < j {
        assert(vint_digits_shift_ok(s, r, i));
        lemma_vint_digits_shift(s, r, i + 1, j);
    }
}

proof fn lemma_vint_end_shift(s: Seq<u8>, i: int)
    requires
        1 <= i <= s.len(),
    ensures
        vint_end(s, i) == match vint_end(s.drop_first(), i - 1) {
            Some(e) => Some(e + 1),
            None => None::<int>,
        },
    decreases s.len() - i,
{
    if i < s.len() {
        assert(s[i] == s.drop_first()[i - 1]);
        if s[i] >= 128 {
            lemma_vint_end_shift(s, i + 1);
        }
    }
}

proof fn lemma_vint_bytes_len_big(n: u64)
    requires
        n >= 128,
    ensures
        vint_bytes(n).len() == 1 + vint_bytes(n / 128).len(),
{
}

proof fn lemma_vint_bytes_len_bound(n: u64)
    ensures
        vint_bytes(n).len() <= 10,
        vint_bytes(n).len() >= 1,
        n >= 128 ==> vint_bytes(n)[0] >= 128,
        n < 128 ==> vint_bytes(n)[0] < 128,
    decreases n,
{
    if n >= 128 {
        lemma_vint_bytes_len_bound(n / 128);
        // n / 128 < 2^57, so at most nine more bytes follow
        lemma2_to64_rest();
        assert(n / 128 < 0x8000_0000_0000_0000);
        lemma_vint_bytes_len_level(n / 128, 9);
    }
}

/// A number takes at most `k` bytes, for `k` at least one, exactly when it
/// is below 2^(7k): its length is one byte per started group of seven bits,
/// and one byte for zero.
pub proof fn law_vint_length(n: u64, k: nat)
    requires
        k >= 1,
    ensures
        vint_bytes(n).len() <= k <==> (n as nat) < pow2(7 * k),
    decreases n,
{
    lemma_pow2_adds(7, (7 * k - 7) as nat);
    lemma2_to64();
    if n < 128 {
        lemma_pow2_pos((7 * k - 7) as nat);
        assert(pow2(7) * pow2((7 * k - 7) as nat) >= 128) by (nonlinear_arith)
            requires pow2(7) == 128, pow2((7 * k - 7) as nat) >= 1;
        assert((7 + (7 * k - 7)) as nat == 7 * k);
    } else {
        lemma_vint_bytes_len_big(n);
        let m = n / 128;
        assert((7 + (7 * k - 7)) as nat == 7 * k);
        if k == 1 {
            lemma_vint_bytes_len_bound(m);
            assert(pow2(7 * k) == 128);
        } else {
            law_vint_length(m, (k - 1) as nat);
            assert((7 * (k - 1)) as nat == (7 * k - 7) as nat);
            let p = pow2((7 * k - 7) as nat);
            assert((m as nat) < p <==> (n as nat) < 128 * p) by (nonlinear_arith)
                requires m == n / 128, n >= 0, p >= 0;
        }
    }
}

/// Writing `n` after any bytes keeps them, takes the least number `k >= 1`
/// of bytes with `n < 2^(7k)` (one per started group of seven bits, one
/// for zero), and reads back as `n`, the reader ending after the last of
/// those bytes.
pub proof fn law_vint_write_read(pre: Seq<u8>, n: u64)
    ensures
        (pre + vint_bytes(n)).take(pre.len() as int) == pre,
        vint_bytes(n).len() >= 1,
        forall|k: nat| k >= 1 ==> (vint_bytes(n).len() <= k <==> (n as nat) < #[trigger] pow2(7 * k)),
        vint_end(pre + vint_bytes(n), pre.len() as int) == Some((pre + vint_bytes(n)).len() - 1),
        vint_value(pre + vint_bytes(n), pre.len() as int, (pre + vint_bytes(n)).len() as int) == n,
{
    lemma_vint_bytes_at(pre, n, Seq::empty());
    assert(pre + vint_bytes(n) + Seq::<u8>::empty() =~= pre + vint_bytes(n));
    assert((pre + vint_bytes(n)).take(pre.len() as int) =~= pre);
    lemma_vint_bytes_len_bound(n);
    assert forall|k: nat| k >= 1 implies (vint_bytes(n).len() <= k <==> (n as nat) < #[trigger] pow2(7 * k)) by {
        law_vint_length(n, k);
    }
}

proof fn lemma_vint_bytes_len_level(n: u64, k: nat)
    requires
        (n as nat) < pow2(7 * k),
    ensures
        vint_bytes(n).len() <= if k == 0 { 1 } else { k },
    decreases n,
{
    if n >= 128 {
        assert(k >= 2) by {
            if k <= 1 {
                if k == 0 {
                    lemma_pow2_0();
                } else {
                    lemma2_to64();
                }
            }
        }
        lemma_pow2_adds(7, (7 * (k - 1)) as nat);
        lemma2_to64();
        let p = pow2((7 * (k - 1)) as nat);
        assert((n / 128) < p) by (nonlinear_arith)
            requires
                n < 128 * p,
        ;
        lemma_vint_bytes_len_level(n / 128, (k - 1) as nat);
    }
}

/// Appends the encoding of `n` to `buf`.
pub fn write_vint(n: u64, buf: &mut Vec<u8>)
    ensures
        final(buf)@ == old(buf)@ + vint_bytes(n),
{
    let ghost n0 = n;
    let mut n = n;
    loop
        invariant_except_break
            buf@ + vint_bytes(n) == old(buf)@ + vint_bytes(n0),
        ensures
            buf@ == old(buf)@ + vint_bytes(n0),
        decreases n,
    {
        let ghost before = buf@;
        let ghost m = n;
        proof {
            lemma_u64_parts(m);
        }
        let mut byte = (n & 0x7F) as u8;
        n >>= 7;
        if n != 0 {
            proof {
                lemma_u8_parts(byte);
            }
            byte |= 0x80;
        }
        buf.push(byte);
        if n == 0 {
            assert(buf@ == before + vint_bytes(m));
            break;
        }
        assert(vint_bytes(m) == seq![byte] + vint_bytes(n));
        assert(buf@ + vint_bytes(n) == before + vint_bytes(m));
    }
}

/// Reads one group starting at `*offset` and moves `*offset` past it.
pub fn read_vint(bytes: &[u8], offset: &mut usize) -> (n: u64)
    requires
        vint_readable_at(bytes@, *old(offset) as int),
    ensures
        vint_end(bytes@, *old(offset) as int) == Some(*final(offset) - 1),
        n == vint_value(bytes@, *old(offset) as int, *final(offset) as int),
{
    let ghost s = bytes@;
    let ghost start = *offset as int;
    proof {
        lemma_vint_end_facts(s, start);
    }
    let ghost e = vint_end(s, start).unwrap();
    let mut n: u64 = 0;
    let mut shift: u64 = 0;
    loop
        invariant_except_break
            start <= *offset <= e,
            e - start < 10,
            e < s.len(),
            s == bytes@,
            s[e] < 128,
            forall|k: int| start <= k < e ==> s[k] >= 128,
            shift == 7 * (*offset - start),
            n as nat == vint_digits(s, start, *offset as int),
        ensures
            *offset == e + 1,
            n == vint_value(s, start, e + 1),
        decreases e - *offset,
    {
        let byte = bytes[*offset];
        let ghost i = *offset as int;
        *offset += 1;
        let d = (byte & 0x7F) as u64;
        proof {
            lemma_u8_parts(byte);
        }
        proof {
            lemma_vint_digits_extend(s, start, i);
            lemma_vint_digits_bound(s, start, i);
            lemma_u64_pow2_no_overflow(shift as nat);
        }
        if shift < 63 {
            assert(shift <= 56);
            proof {
                lemma_pow2_adds(shift as nat, 7);
                lemma2_to64();
                assert(d * pow2(shift as nat) < 128 * pow2(shift as nat)) by (nonlinear_arith)
                    requires d < 128, pow2(shift as nat) > 0;
                lemma_u64_pow2_no_overflow(63);
                if shift + 7 < 63 {
                    lemma_pow2_strictly_increases((shift + 7) as nat, 63);
                }
                lemma_u64_shl_is_mul(d, shift);
                lemma_u64_shl_is_mul(1, shift);
            }
            let ghost t = d << shift;
            assert(n < (1u64 << shift));
            proof {
                lemma_or_shift_low(n, d, shift);
            }
            n = n | (d << shift);
        } else {
            assert(shift == 63);
            assert(i == e);
            proof {
                lemma2_to64_rest();
            }
            let ghost old_n = n;
            proof {
                lemma_or_shift_top(n, d);
            }
            n = n | (d << shift);
            assert((old_n as int + d * 0x8000_0000_0000_0000) % 0x1_0000_0000_0000_0000
                == old_n as int + (d % 2) * 0x8000_0000_0000_0000) by (nonlinear_arith)
                requires 0 <= old_n < 0x8000_0000_0000_0000, 0 <= d < 128;
        }
        if byte & 0x80 == 0 {
            assert(i == e);
            break;
        }
        shift += 7;
    }
    proof {
        lemma_vint_end_unique(s, start, e);
    }
    n
}


/// A part framed by its length: the group at `off` gives the length, the
/// part follows it; the part and the position after it.
pub open spec fn vint_part(s: Seq<u8>, off: int) -> Option<(Seq<u8>, int)> {
    if vint_readable_at(s, off) {
        let e = vint_end(s, off).unwrap();
        let len = vint_value(s, off, e + 1) as usize as int;
        if e + 1 + len <= s.len() {
            Some((s.subrange(e + 1, e + 1 + len), e + 1 + len))
        } else {
            None
        }
    } else {
        None
    }
}

/// Where a group ends does not depend on the bytes before `k`.
pub proof fn lemma_vint_end_skip(s: Seq<u8>, k: int, i: int)
    requires
        0 <= k <= i,
        k <= s.len(),
    ensures
        vint_end(s, i) == match vint_end(s.skip(k), i - k) {
            Some(e) => Some(e + k),
            None => None::<int>,
        },
    decreases s.len() - i,
{
    if i < s.len() {
        assert(s.skip(k)[i - k] == s[i]);
        if s[i] >= 128 {
            lemma_vint_end_skip(s, k, i + 1);
        }
    }
}

/// What a group spells does not depend on the bytes before `k`.
pub proof fn lemma_vint_digits_skip(s: Seq<u8>, k: int, i: int, j: int)
    requires
        0 <= k <= i,
        j <= s.len(),
    ensures
        vint_digits(s, i, j) == vint_digits(s.skip(k), i - k, j - k),
    decreases j - i,
{
    if i < j {
        assert(s.skip(k)[i - k] == s[i]);
        lemma_vint_digits_skip(s, k, i + 1, j);
    }
}

/// A written group, read back after any prefix.
pub proof fn lemma_vint_bytes_at(pre: Seq<u8>, n: u64, t: Seq<u8>)
    ensures
        vint_readable_at(pre + vint_bytes(n) + t, pre.len() as int),
        vint_end(pre + vint_bytes(n) + t, pre.len() as int) == Some(
            pre.len() + vint_bytes(n).len() - 1,
        ),
        vint_value(pre + vint_bytes(n) + t, pre.len() as int, (pre.len() + vint_bytes(n).len()) as int) == n,
{
    let s = pre + vint_bytes(n) + t;
    let k = pre.len() as int;
    lemma_vint_bytes_read(n, t);
    lemma_vint_bytes_len_bound(n);
    assert(s.skip(k) =~= vint_bytes(n) + t);
    lemma_vint_end_skip(s, k, k);
    lemma_vint_digits_skip(s, k, k, k + vint_bytes(n).len());
    assert(vint_digits(s, k, k + vint_bytes(n).len()) == n);
}

/// A part written after its length, read back after any prefix.
pub proof fn lemma_vint_part_at(pre: Seq<u8>, p: Seq<u8>, rest: Seq<u8>)
    requires
        p.len() <= usize::MAX,
    ensures
        vint_part(pre + vint_bytes(p.len() as u64) + p + rest, pre.len() as int) == Some(
            (p, (pre.len() + vint_bytes(p.len() as u64).len() + p.len()) as int),
        ),
{
    let vb = vint_bytes(p.len() as u64);
    let s = pre + vb + p + rest;
    assert(s =~= pre + vb + (p + rest));
    lemma_vint_bytes_at(pre, p.len() as u64, p + rest);
    let o = (pre.len() + vb.len()) as int;
    assert(s.subrange(o, o + p.len()) =~= p);
}

/// Reads a part framed by its length and moves `*offset` past it.
pub fn read_part(bytes: &[u8], offset: &mut usize) -> (part: Vec<u8>)
    requires
        vint_part(bytes@, *old(offset) as int) is Some,
    ensures
        vint_part(bytes@, *old(offset) as int) == Some((part@, *final(offset) as int)),
{
    let ghost start = *offset as int;
    let ghost e = vint_end(bytes@, start).unwrap();
    assert(e + 1 + (vint_value(bytes@, start, e + 1) as usize as int) <= bytes@.len());
    let n = read_vint(bytes, offset);
    assert(e == *offset - 1);
    assert(n == vint_value(bytes@, start, e + 1));
    let len = n as usize;
    assert(*offset + len <= bytes@.len());
    let total = bytes.len();
    let from = *offset;
    let to = from + len;
    let part = vstd::slice::slice_to_vec(vstd::slice::slice_subrange(bytes, from, to));
    *offset = to;
    part
}

/// Whether a group starts at `off` and ends within ten bytes.
pub fn vint_readable(bytes: &[u8], off: usize) -> (b: bool)
    ensures
        b == vint_readable_at(bytes@, off as int),
{
    let mut k = off;
    while k < bytes.len() && k - off < 10 && bytes[k] >= 128
        invariant
            off <= k,
            k <= bytes@.len() || k == off,
            k - off <= 10,
            forall|j: int| off <= j < k ==> bytes@[j] >= 128,
        decreases bytes@.len() - k,
    {
        k += 1;
    }
    proof {
        lemma_vint_end_facts(bytes@, off as int);
    }
    if k < bytes.len() && k - off < 10 {
        proof {
            lemma_vint_end_unique(bytes@, off as int, k as int);
        }
        true
    } else {
        false
    }
}

/// Reads a part framed by its length, or gives `None` where the length
/// cannot be read or the part runs past the end.
pub fn try_read_part(bytes: &[u8], offset: &mut usize) -> (part: Option<Vec<u8>>)
    ensures
        match part {
            Some(p) => vint_part(bytes@, *old(offset) as int) == Some((p@, *final(offset) as int)),
            None => vint_part(bytes@, *old(offset) as int) is None,
        },
{
    if !vint_readable(bytes, *offset) {
        return None;
    }
    let ghost start = *offset as int;
    let ghost e = vint_end(bytes@, start).unwrap();
    proof {
        lemma_vint_end_facts(bytes@, start);
    }
    let mut o = *offset;
    let n = read_vint(bytes, &mut o);
    let len = n as usize;
    if len > bytes.len() - o {
        return None;
    }
    let to = o + len;
    let p = vstd::slice::slice_to_vec(vstd::slice::slice_subrange(bytes, o, to));
    *offset = to;
    Some(p)
}

/// `k` groups read one after the other from `off`: their values and the
/// position after them.
pub open spec fn vint_read_n(s: Seq<u8>, off: int, k: nat) -> Option<(Seq<u64>, int)>
    decreases k,
{
    if k == 0 {
        Some((Seq::empty(), off))
    } else {
        match vint_read_n(s, off, (k - 1) as nat) {
            Some((vs, o)) => if vint_readable_at(s, o) {
                let e = vint_end(s, o).unwrap();
                Some((vs.push(vint_value(s, o, e + 1)), e + 1))
            } else {
                None
            },
            None => None,
        }
    }
}

/// Reads `k` groups, appending their values to `out`; `false` where one of
/// them cannot be read.
pub fn try_read_vints(bytes: &[u8], offset: &mut usize, k: usize, out: &mut Vec<u64>) -> (ok: bool)
    ensures
        ok == vint_read_n(bytes@, *old(offset) as int, k as nat) is Some,
        ok ==> ({
            let (vs, o) = vint_read_n(bytes@, *old(offset) as int, k as nat).unwrap();
            &&& final(out)@ == old(out)@ + vs
            &&& *final(offset) == o
        }),
{
    let ghost start = *offset as int;
    let mut i: usize = 0;
    assert(old(out)@ + Seq::<u64>::empty() == old(out)@);
    while i < k
        invariant
            i <= k,
            start == *old(offset) as int,
            vint_read_n(bytes@, start, i as nat) is Some,
            ({
                let (vs, o) = vint_read_n(bytes@, start, i as nat).unwrap();
                &&& out@ == old(out)@ + vs
                &&& *offset == o
            }),
        decreases k - i,
    {
        if !vint_readable(bytes, *offset) {
            proof {
                assert(vint_read_n(bytes@, start, (i + 1) as nat) is None);
                if vint_read_n(bytes@, start, k as nat) is Some {
                    lemma_vint_read_n_prefix(bytes@, start, (i + 1) as nat, k as nat);
                }
            }
            return false;
        }
        let v = read_vint(bytes, offset);
        out.push(v);
        i += 1;
        proof {
            let (vs, o) = vint_read_n(bytes@, start, i as nat).unwrap();
            assert(out@ =~= old(out)@ + vs);
        }
    }
    true
}

/// Reading fewer groups succeeds where reading more does.
pub proof fn lemma_vint_read_n_prefix(s: Seq<u8>, off: int, j: nat, k: nat)
    requires
        j <= k,
        vint_read_n(s, off, k) is Some,
    ensures
        vint_read_n(s, off, j) is Some,
    decreases k - j,
{
    if j < k {
        lemma_vint_read_n_prefix(s, off, (j + 1) as nat, k);
    }
}


/// Reading `k` groups gives `k` values, and moves forward.
pub proof fn lemma_vint_read_n_len(s: Seq<u8>, off: int, k: nat)
    requires
        vint_read_n(s, off, k) is Some,
    ensures
        vint_read_n(s, off, k).unwrap().0.len() == k,
    decreases k,
{
    if k > 0 {
        lemma_vint_read_n_prefix(s, off, (k - 1) as nat, k);
        lemma_vint_read_n_len(s, off, (k - 1) as nat);
    }
}

/// Groups written one after the other are read back, after any prefix.
pub proof fn lemma_vint_read_encoded(pre: Seq<u8>, vs: Seq<u64>, t: Seq<u8>)
    ensures
        vint_read_n(pre + vint_encode_all(vs) + t, pre.len() as int, vs.len()) == Some(
            (vs, (pre.len() + vint_encode_all(vs).len()) as int),
        ),
    decreases vs.len(),
{
    let s = pre + vint_encode_all(vs) + t;
    if vs.len() == 0 {
        assert(vs =~= Seq::<u64>::empty());
    } else {
        let init = vs.drop_last();
        let last = vs.last();
        let e0 = vint_encode_all(init);
        assert(vint_encode_all(vs) == e0 + vint_bytes(last));
        assert(s =~= pre + e0 + (vint_bytes(last) + t));
        lemma_vint_read_encoded(pre, init, vint_bytes(last) + t);
        assert(s =~= (pre + e0) + vint_bytes(last) + t);
        lemma_vint_bytes_at(pre + e0, last, t);
        assert(init.push(last) =~= vs);
    }
}

} // verus!
