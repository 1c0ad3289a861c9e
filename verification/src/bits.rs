//! Streams of bits packed into bytes, least significant bit first.
use vstd::arithmetic::div_mod::*;
use vstd::arithmetic::power2::*;
use vstd::bits::*;
use vstd::prelude::*;

verus! {

/// The low `n` bits of `v`, least significant first.
pub open spec fn bits_of(v: nat, n: nat) -> Seq<bool>
    decreases n,
{
    if n == 0 {
        Seq::empty()
    } else {
        seq![v % 2 == 1] + bits_of(v / 2, (n - 1) as nat)
    }
}

/// The number that a sequence of bits spells, least significant first.
pub open spec fn bits_value(s: Seq<bool>) -> nat
    decreases s.len(),
{
    if s.len() == 0 {
        0
    } else {
        (if s[0] {
            1nat
        } else {
            0nat
        }) + 2 * bits_value(s.drop_first())
    }
}

/// `n` zero bits.
pub open spec fn zero_bits(n: nat) -> Seq<bool> {
    Seq::new(n, |i: int| false)
}

/// The bits of a byte sequence, each byte least significant bit first.
pub open spec fn bytes_bits(bs: Seq<u8>) -> Seq<bool>
    decreases bs.len(),
{
    if bs.len() == 0 {
        Seq::empty()
    } else {
        bytes_bits(bs.drop_last()) + bits_of(bs.last() as nat, 8)
    }
}

/// The bit at position `p` of a stream, with zeros past its end.
pub open spec fn stream_bit(s: Seq<bool>, p: int) -> bool {
    0 <= p < s.len() && s[p]
}

/// The `n` bits of a stream from position `p`, with zeros past its end.
pub open spec fn window(s: Seq<bool>, p: int, n: nat) -> Seq<bool> {
    Seq::new(n, |k: int| stream_bit(s, p + k))
}

pub proof fn lemma_bits_of_len(v: nat, n: nat)
    ensures
        bits_of(v, n).len() == n,
    decreases n,
{
    if n > 0 {
        lemma_bits_of_len(v / 2, (n - 1) as nat);
    }
}

/// Appending a bit adds it at the top.
pub proof fn lemma_bits_value_push(s: Seq<bool>, b: bool)
    ensures
        bits_value(s.push(b)) == bits_value(s) + if b {
            pow2(s.len())
        } else {
            0
        },
    decreases s.len(),
{
    if s.len() == 0 {
        assert(s.push(b).drop_first() == Seq::<bool>::empty());
        assert(bits_value(Seq::<bool>::empty()) == 0);
        assert(s.push(b)[0] == b);
        lemma2_to64();
    } else {
        assert(s.push(b).drop_first() == s.drop_first().push(b));
        assert(s.push(b)[0] == s[0]);
        lemma_bits_value_push(s.drop_first(), b);
        lemma_pow2_unfold(s.len());
        let r = s.drop_first();
        assert(r.len() == s.len() - 1);
        assert(bits_value(s.push(b)) == (if s[0] { 1nat } else { 0nat }) + 2 * bits_value(r.push(b)));
        assert(bits_value(s) == (if s[0] { 1nat } else { 0nat }) + 2 * bits_value(r));
    }
}

pub proof fn lemma_bits_value_bound(s: Seq<bool>)
    ensures
        bits_value(s) < pow2(s.len()),
    decreases s.len(),
{
    if s.len() == 0 {
        lemma2_to64();
    } else {
        lemma_bits_value_bound(s.drop_first());
        lemma_pow2_unfold(s.len());
    }
}

/// Zero bits at the top change nothing.
pub proof fn lemma_bits_value_zeros(s: Seq<bool>, n: nat)
    ensures
        bits_value(s + zero_bits(n)) == bits_value(s),
    decreases n,
{
    if n > 0 {
        lemma_bits_value_zeros(s, (n - 1) as nat);
        assert(s + zero_bits(n) == (s + zero_bits((n - 1) as nat)).push(false));
        lemma_bits_value_push(s + zero_bits((n - 1) as nat), false);
    } else {
        assert(s + zero_bits(0) == s);
    }
}

/// The low bits of a number spell it modulo a power of two.
pub proof fn lemma_bits_value_of(v: nat, n: nat)
    ensures
        bits_value(bits_of(v, n)) == v % pow2(n),
    decreases n,
{
    lemma_bits_of_len(v, n);
    if n == 0 {
        lemma2_to64();
    } else {
        lemma_bits_value_of(v / 2, (n - 1) as nat);
        let s = bits_of(v, n);
        assert(s[0] == (v % 2 == 1));
        assert(s.drop_first() == bits_of(v / 2, (n - 1) as nat));
        lemma_pow2_pos((n - 1) as nat);
        lemma_pow2_unfold(n);
        lemma_mod_breakdown(v as int, 2, pow2((n - 1) as nat) as int);
    }
}

/// Bits past the top of a number are zero.
pub proof fn lemma_bits_of_high_zero(v: nat, n: nat, m: nat)
    requires
        v < pow2(n),
        n <= m,
    ensures
        bits_of(v, m) == bits_of(v, n) + zero_bits((m - n) as nat),
    decreases n,
{
    lemma_bits_of_len(v, m);
    lemma_bits_of_len(v, n);
    if n == 0 {
        lemma2_to64();
        lemma_bits_of_zero(m);
        assert(bits_of(v, 0) + zero_bits(m) =~= zero_bits(m));
    } else {
        lemma_pow2_unfold(n);
        lemma_bits_of_high_zero(v / 2, (n - 1) as nat, (m - 1) as nat);
        assert(bits_of(v, m) =~= bits_of(v, n) + zero_bits((m - n) as nat));
    }
}

pub proof fn lemma_bits_of_zero(m: nat)
    ensures
        bits_of(0, m) == zero_bits(m),
    decreases m,
{
    lemma_bits_of_len(0, m);
    if m > 0 {
        lemma_bits_of_zero((m - 1) as nat);
        assert(bits_of(0, m) =~= zero_bits(m));
    }
}

/// Setting the bit just above a number appends it.
pub proof fn lemma_bits_of_set_top(c: nat, n: nat, b: bool)
    requires
        c < pow2(n),
    ensures
        bits_of(c + if b { pow2(n) } else { 0 }, n + 1) == bits_of(c, n).push(b),
    decreases n,
{
    let t = c + if b { pow2(n) } else { 0 };
    lemma_bits_of_len(t, n + 1);
    lemma_bits_of_len(c, n);
    if n == 0 {
        lemma2_to64();
        assert(bits_of(t, 1) =~= bits_of(c, 0).push(b));
    } else {
        lemma_pow2_unfold(n);
        let q = pow2((n - 1) as nat);
        assert(t % 2 == c % 2);
        assert(t / 2 == c / 2 + if b { q } else { 0 });
        lemma_bits_of_set_top(c / 2, (n - 1) as nat, b);
        assert(bits_of(t, n + 1) =~= bits_of(c, n).push(b));
    }
}

/// Bit `j` of the low bits of `v`.
pub proof fn lemma_bits_of_index(v: nat, n: nat, j: nat)
    requires
        j < n,
    ensures
        bits_of(v, n).len() == n,
        bits_of(v, n)[j as int] == ((v / pow2(j)) % 2 == 1),
    decreases j,
{
    lemma_bits_of_len(v, n);
    if j == 0 {
        lemma2_to64();
    } else {
        lemma_bits_of_index(v / 2, (n - 1) as nat, (j - 1) as nat);
        lemma_pow2_unfold(j);
        lemma_pow2_pos((j - 1) as nat);
        lemma_div_denominator(v as int, 2, pow2((j - 1) as nat) as int);
    }
}

/// Where the bits of byte `i` sit in the stream.
pub proof fn lemma_bytes_bits_index(bs: Seq<u8>, i: int, j: int)
    requires
        0 <= i < bs.len(),
        0 <= j < 8,
    ensures
        bytes_bits(bs).len() == 8 * bs.len(),
        bytes_bits(bs)[8 * i + j] == bits_of(bs[i] as nat, 8)[j],
    decreases bs.len(),
{
    lemma_bytes_bits_len(bs);
    lemma_bits_of_len(bs.last() as nat, 8);
    if i < bs.len() - 1 {
        lemma_bytes_bits_index(bs.drop_last(), i, j);
    }
}

pub proof fn lemma_bytes_bits_len(bs: Seq<u8>)
    ensures
        bytes_bits(bs).len() == 8 * bs.len(),
    decreases bs.len(),
{
    if bs.len() > 0 {
        lemma_bytes_bits_len(bs.drop_last());
        lemma_bits_of_len(bs.last() as nat, 8);
    }
}

/// A bit stream being written: whole bytes, and up to seven pending bits.
pub struct BitWriter {
    bytes: Vec<u8>,
    current: u64,
    bits_in_current: usize,
}

impl BitWriter {
    /// The bits written so far.
    pub closed spec fn bits(&self) -> Seq<bool> {
        bytes_bits(self.bytes@) + bits_of(self.current as nat, self.bits_in_current as nat)
    }

    pub closed spec fn wf(&self) -> bool {
        &&& self.bits_in_current < 8
        &&& self.current < pow2(self.bits_in_current as nat)
    }

    pub fn new() -> (w: Self)
        ensures
            w.wf(),
            w.bits() == Seq::<bool>::empty(),
    {
        let w = BitWriter { bytes: Vec::new(), current: 0, bits_in_current: 0 };
        proof {
            lemma2_to64();
            assert(w.bits() =~= Seq::<bool>::empty());
        }
        w
    }

    /// Appends one bit.
    pub fn write_bit(&mut self, bit: bool)
        requires
            old(self).wf(),
        ensures
            final(self).wf(),
            final(self).bits() == old(self).bits().push(bit),
    {
        let ghost c0 = self.current as nat;
        let ghost n0 = self.bits_in_current as nat;
        proof {
            lemma_u64_pow2_no_overflow(n0);
            lemma_pow2_strictly_increases(n0, 8);
            lemma2_to64();
            lemma_bits_of_set_top(c0, n0, bit);
            lemma_u64_shl_is_mul(1, n0 as u64);
            lemma_pow2_unfold(n0 + 1);
        }
        if bit {
            self.current = self.current + (1u64 << (self.bits_in_current as u64));
        }
        self.bits_in_current = self.bits_in_current + 1;
        if self.bits_in_current == 8 {
            let ghost before = self.bytes@;
            self.bytes.push(self.current as u8);
            proof {
                assert(self.bytes@.drop_last() == before);
            }
            self.current = 0;
            self.bits_in_current = 0;
            proof {
                assert(bits_of(0, 0) =~= Seq::<bool>::empty());
            }
        }
        proof {
            assert(self.bits() =~= old(self).bits().push(bit));
        }
    }

    /// How many bits wait in the last, unfinished byte.
    pub fn pending(&self) -> (k: usize)
        requires
            self.wf(),
        ensures
            k == self.bits().len() % 8,
            k < 8,
    {
        proof {
            lemma_bytes_bits_len(self.bytes@);
            lemma_bits_of_len(self.current as nat, self.bits_in_current as nat);
        }
        self.bits_in_current
    }

    /// Appends the low `num_bits` bits of `value`, least significant first.
    pub fn write_bits(&mut self, value: u64, num_bits: usize)
        requires
            old(self).wf(),
            num_bits <= 64,
        ensures
            final(self).wf(),
            final(self).bits() == old(self).bits() + bits_of(value as nat, num_bits as nat),
    {
        if num_bits == 0 {
            assert(old(self).bits() + bits_of(value as nat, 0) =~= old(self).bits());
            return;
        }
        let mut v = value;
        let mut k: usize = 0;
        while k < num_bits
            invariant
                self.wf(),
                k <= num_bits,
                self.bits() + bits_of(v as nat, (num_bits - k) as nat) == old(self).bits() + bits_of(
                    value as nat,
                    num_bits as nat,
                ),
            decreases num_bits - k,
        {
            let ghost before = self.bits();
            let ghost rest = bits_of(v as nat, (num_bits - k) as nat);
            assert(rest == seq![v % 2 == 1] + bits_of((v / 2) as nat, (num_bits - k - 1) as nat));
            self.write_bit(v % 2 == 1);
            v = v / 2;
            k += 1;
            assert(before + rest == self.bits() + bits_of(v as nat, (num_bits - k) as nat));
        }
        assert(bits_of(v as nat, 0) =~= Seq::<bool>::empty());
        assert(self.bits() + bits_of(v as nat, 0) =~= self.bits());
    }

    /// The bytes, the last one padded with zero bits.
    pub fn finish(self) -> (bytes: Vec<u8>)
        requires
            self.wf(),
        ensures
            bytes@.len() == (self.bits().len() + 7) / 8,
            bytes_bits(bytes@) == self.bits() + zero_bits((8 * bytes@.len() - self.bits().len()) as nat),
    {
        let mut bytes = self.bytes;
        let ghost before = bytes@;
        proof {
            lemma_bytes_bits_len(before);
            lemma_bits_of_len(self.current as nat, self.bits_in_current as nat);
        }
        if self.bits_in_current > 0 {
            bytes.push(self.current as u8);
            proof {
                assert(bytes@.drop_last() == before);
                lemma_pow2_strictly_increases(self.bits_in_current as nat, 8);
                lemma2_to64();
                lemma_bits_of_high_zero(self.current as nat, self.bits_in_current as nat, 8);
                assert(bytes_bits(bytes@) =~= self.bits() + zero_bits((8 - self.bits_in_current) as nat));
            }
        } else {
            proof {
                assert(bits_of(self.current as nat, 0) =~= Seq::<bool>::empty());
                assert(self.bits() + zero_bits(0) =~= bytes_bits(before));
            }
        }
        bytes
    }
}

/// A reader over the bits of a byte slice.
pub struct BitReader<'a> {
    bytes: &'a [u8],
    byte_pos: usize,
    bit_pos: usize,
}

impl<'a> BitReader<'a> {
    /// The stream being read.
    pub closed spec fn stream(&self) -> Seq<bool> {
        bytes_bits(self.bytes@)
    }

    /// How many bits have been read.
    pub closed spec fn pos(&self) -> int {
        8 * self.byte_pos + self.bit_pos
    }

    pub closed spec fn wf(&self) -> bool {
        &&& self.bit_pos < 8
        &&& self.byte_pos <= self.bytes@.len()
        &&& self.byte_pos == self.bytes@.len() ==> self.bit_pos == 0
    }

    /// A reader never stands past the end of its stream.
    pub proof fn lemma_pos_within(&self)
        requires
            self.wf(),
        ensures
            0 <= self.pos() <= self.stream().len(),
    {
        lemma_bytes_bits_len(self.bytes@);
    }

    pub fn new(bytes: &'a [u8]) -> (r: Self)
        ensures
            r.wf(),
            r.stream() == bytes_bits(bytes@),
            r.pos() == 0,
    {
        BitReader { bytes, byte_pos: 0, bit_pos: 0 }
    }

    /// Reads `num_bits` bits as a number, least significant first; past the
    /// end of the bytes the bits read as zeros and the position stays at
    /// the end.
    pub fn read_bits(&mut self, num_bits: usize) -> (value: u64)
        requires
            old(self).wf(),
            num_bits <= 64,
        ensures
            final(self).wf(),
            final(self).stream() == old(self).stream(),
            final(self).pos() == vstd::math::min(
                old(self).pos() + num_bits,
                old(self).stream().len() as int,
            ),
            value == bits_value(window(old(self).stream(), old(self).pos(), num_bits as nat)),
    {
        let ghost s = self.stream();
        let ghost p0 = self.pos();
        proof {
            lemma_bytes_bits_len(self.bytes@);
            lemma2_to64();
        }
        let mut result: u64 = 0;
        let mut p: u64 = 1;
        let mut k: usize = 0;
        assert(window(s, p0, 0) =~= Seq::<bool>::empty());
        while k < num_bits
            invariant_except_break
                self.wf(),
                self.stream() == s,
                s.len() == 8 * self.bytes@.len(),
                k <= num_bits <= 64,
                self.pos() == p0 + k,
                p0 + k <= s.len(),
                k < num_bits ==> p as nat == pow2(k as nat),
                result as nat == bits_value(window(s, p0, k as nat)),
            ensures
                self.wf(),
                self.stream() == s,
                k <= num_bits,
                self.pos() == p0 + k,
                p0 + k <= s.len(),
                result as nat == bits_value(window(s, p0, k as nat)),
                k == num_bits || self.pos() == s.len(),
            decreases num_bits - k,
        {
            if self.byte_pos >= self.bytes.len() {
                break;
            }
            let byte = self.bytes[self.byte_pos];
            let bit = (byte >> (self.bit_pos as u8)) % 2 == 1;
            proof {
                lemma_u8_shr_is_div(byte, self.bit_pos as u8);
                lemma_bits_of_index(byte as nat, 8, self.bit_pos as nat);
                lemma_bytes_bits_index(self.bytes@, self.byte_pos as int, self.bit_pos as int);
                assert(stream_bit(s, p0 + k) == bit);
                assert(window(s, p0, (k + 1) as nat) == window(s, p0, k as nat).push(bit));
                lemma_bits_value_push(window(s, p0, k as nat), bit);
                lemma_bits_value_bound(window(s, p0, k as nat));
                lemma_u64_pow2_no_overflow(k as nat);
                lemma_pow2_unfold((k + 1) as nat);
                if k + 1 < 64 {
                    lemma_u64_pow2_no_overflow((k + 1) as nat);
                }
                lemma_pow2_strictly_increases(k as nat, 64);
                lemma2_to64_rest();
            }
            if bit {
                result = result + p;
            }
            self.bit_pos = self.bit_pos + 1;
            if self.bit_pos == 8 {
                self.bit_pos = 0;
                self.byte_pos = self.byte_pos + 1;
            }
            k += 1;
            if k < num_bits {
                p = p * 2;
            }
        }
        proof {
            if k < num_bits {
                assert(window(s, p0, num_bits as nat) =~= window(s, p0, k as nat) + zero_bits(
                    (num_bits - k) as nat,
                ));
                lemma_bits_value_zeros(window(s, p0, k as nat), (num_bits - k) as nat);
            }
        }
        result
    }
}

} // verus!
