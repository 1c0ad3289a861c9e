//! Range asymmetric numeral systems (rANS) with a static frequency table
//! scaled to 4096, for bytes and for 64-bit values mapped to dense ranks.
use crate::bijection::{Bijection, VIntBijection, law_vint_roundtrip, try_decode_vints, vint_decode_all, vint_well_grouped};
use crate::compress::{ZStdBijection, ZSTD_LEVEL, zstd_decoded, zstd_encoded, zstd_output};
use crate::sorting::{is_dictionary_of, position_of, sorted_distinct, strictly_increasing};
use crate::vint::{lemma_vint_bytes_read, read_vint, try_read_part, vint_bytes, vint_encode_all, vint_end, vint_part, vint_readable_at, vint_value, write_vint};
use crate::bytes::{from_le_u16, from_le_u32, le_u16, le_u32, push_u16_le, push_u32_le, read_u16_le, read_u32_le};
use crate::bitops::{lemma_u32_parts, lemma_u32_shift_in, lemma_u32_shl12};
use vstd::prelude::*;

verus! {

pub const SCALE_BITS: u32 = 12;

pub const SCALE: u32 = 4096;

pub const STATE_LOWER_BOUND: u32 = 0x1_0000;

// ---------------------------------------------------------------------------
// The frequency table
// ---------------------------------------------------------------------------
/// How many times `sym` occurs in `s`.
pub open spec fn occurrences(s: Seq<u16>, sym: int) -> nat
    decreases s.len(),
{
    if s.len() == 0 {
        0
    } else {
        occurrences(s.drop_last(), sym) + if s.last() == sym {
            1nat
        } else {
            0nat
        }
    }
}

/// A symbol's share of the scale: its count scaled to 4096, at least one
/// for a symbol that occurs.
pub open spec fn scaled_freq(count: int, total: int) -> int {
    if count == 0 {
        0
    } else if count * 4096 / total == 0 {
        1
    } else {
        count * 4096 / total
    }
}

pub open spec fn scaled_freqs(counts: Seq<u32>, total: int) -> Seq<int> {
    Seq::new(counts.len(), |i: int| scaled_freq(counts[i] as int, total))
}

/// The first index of the largest value among `r[0..k]`, with that value;
/// `(0, 0)` where all are zero.
pub open spec fn first_max(r: Seq<int>, k: int) -> (int, int)
    decreases k,
{
    if k <= 0 {
        (0, 0)
    } else {
        let (m, v) = first_max(r, k - 1);
        if r[k - 1] > v {
            (k - 1, r[k - 1])
        } else {
            (m, v)
        }
    }
}

pub open spec fn sum_int(r: Seq<int>, k: int) -> int
    decreases k,
{
    if k <= 0 {
        0
    } else {
        sum_int(r, k - 1) + r[k - 1]
    }
}

/// The normalized table: the scaled counts, with the most frequent symbol
/// taking up the difference to 4096 (kept in 16 bits).
pub open spec fn ans_table(counts: Seq<u32>, total: int) -> Seq<u16> {
    let r = scaled_freqs(counts, total);
    let m = first_max(r, r.len() as int).0;
    let sum = sum_int(r, r.len() as int);
    let base = Seq::new(r.len(), |i: int| r[i] as u16);
    if sum == 4096 {
        base
    } else {
        base.update(m, (r[m] + 4096 - sum) as u16)
    }
}

/// Where each symbol's slots start: the sum of the frequencies before it.
pub open spec fn cum_freq(table: Seq<u16>, k: int) -> int
    decreases k,
{
    if k <= 0 {
        0
    } else {
        cum_freq(table, k - 1) + table[k - 1]
    }
}

// ---------------------------------------------------------------------------
// The coder
// ---------------------------------------------------------------------------
/// Renormalization before encoding a symbol: low bytes go out while the
/// state is at least `bound`.
pub open spec fn renorm(x: u32, bound: u32) -> (u32, Seq<u8>)
    decreases x,
{
    if bound > 0 && x >= bound {
        let (y, out) = renorm(x / 256, bound);
        (y, seq![(x % 256) as u8] + out)
    } else {
        (x, Seq::empty())
    }
}

/// Encoding `syms` in the given order from the initial state: the final
/// state and the bytes emitted, in emission order.
pub open spec fn ans_encode_run(table: Seq<u16>, syms: Seq<u16>) -> (u32, Seq<u8>)
    decreases syms.len(),
{
    if syms.len() == 0 {
        (STATE_LOWER_BOUND, Seq::empty())
    } else {
        let (x, out) = ans_encode_run(table, syms.drop_last());
        let s = syms.last() as int;
        let f = table[s] as int;
        let (y, more) = renorm(x, (f * 4096) as u32);
        ((((y as int) / f) * 4096 + (y as int) % f + cum_freq(table, s)) as u32, out + more)
    }
}

/// The table, then the symbol count, then the final state, then the
/// emitted bytes in reverse order.
pub open spec fn ans_frame(table: Seq<u16>, len: int, syms: Seq<u16>) -> Seq<u8> {
    let (x, out) = ans_encode_run(table, syms.reverse());
    table_bytes(table) + le_u32(len as u32) + le_u32(x) + out.reverse()
}

pub open spec fn table_bytes(table: Seq<u16>) -> Seq<u8>
    decreases table.len(),
{
    if table.len() == 0 {
        Seq::empty()
    } else {
        table_bytes(table.drop_last()) + le_u16(table.last())
    }
}

/// The symbol that the decoder's slot map holds at `slot` after the first
/// `k` symbols were laid out; zero where none was.
pub open spec fn slot_owner(table: Seq<u16>, k: int, slot: int) -> int
    decreases k,
{
    if k <= 0 {
        0
    } else if cum_freq(table, k - 1) <= slot < cum_freq(table, k) {
        k - 1
    } else {
        slot_owner(table, k - 1, slot)
    }
}

/// The entry of the 16-bit slot map.
pub open spec fn slot_symbol(table: Seq<u16>, slot: int) -> int {
    (slot_owner(table, table.len() as int, slot) as u16) as int
}

/// Reading bytes into the state while it is below the lower bound and the
/// stream lasts.
pub open spec fn refill(x: int, stream: Seq<u8>, ptr: int) -> (int, int)
    decreases stream.len() - ptr,
{
    if x >= STATE_LOWER_BOUND || ptr < 0 || ptr >= stream.len() {
        (x, ptr)
    } else {
        refill(x * 256 + stream[ptr], stream, ptr + 1)
    }
}

/// Decoding `left` symbols; `None` where a state step leaves 32 bits or
/// a symbol falls outside the table.
pub open spec fn ans_decode_run(table: Seq<u16>, x: int, stream: Seq<u8>, ptr: int, left: nat) -> Option<
    Seq<u16>,
>
    decreases left,
{
    if left == 0 {
        Some(Seq::empty())
    } else {
        let slot = x % 4096;
        let s = slot_symbol(table, slot);
        let a = if 0 <= s < table.len() {
            table[s] * (x / 4096) + slot
        } else {
            -1
        };
        let y = a - cum_freq(table, s);
        if a < 0 || a > u32::MAX || y < 0 {
            None
        } else {
            let (x2, p2) = refill(y, stream, ptr);
            match ans_decode_run(table, x2, stream, p2, (left - 1) as nat) {
                Some(rest) => Some(seq![s as u16] + rest),
                None => None,
            }
        }
    }
}

/// Counts how often each of the symbols `0..n` occurs, or gives `None`
/// where one occurs more than `u32::MAX` times.
fn try_count_symbols(symbols: &Vec<u16>, n: usize) -> (counts: Option<Vec<u32>>)
    requires
        forall|i: int| 0 <= i < symbols@.len() ==> symbols@[i] < n,
    ensures
        match counts {
            Some(c) => {
                &&& c@.len() == n
                &&& forall|k: int| 0 <= k < n ==> c@[k] == occurrences(symbols@, k)
                &&& forall|k: int| 0 <= k < n ==> occurrences(symbols@, k) <= u32::MAX
            },
            None => exists|k: int| 0 <= k < n && occurrences(symbols@, k) > u32::MAX,
        },
{
    let mut counts: Vec<u32> = vec![0u32; n];
    let mut i: usize = 0;
    while i < symbols.len()
        invariant
            i <= symbols@.len(),
            counts@.len() == n,
            forall|j: int| 0 <= j < symbols@.len() ==> symbols@[j] < n,
            forall|k: int| 0 <= k < n ==> counts@[k] == occurrences(symbols@.take(i as int), k),
        decreases symbols@.len() - i,
    {
        let b = symbols[i] as usize;
        proof {
            assert(symbols@.take(i + 1).drop_last() == symbols@.take(i as int));
            lemma_occurrences_prefix(symbols@, i + 1, b as int);
        }
        if counts[b] == u32::MAX {
            assert(occurrences(symbols@, b as int) > u32::MAX);
            return None;
        }
        counts.set(b, counts[b] + 1);
        i += 1;
    }
    assert(symbols@.take(symbols@.len() as int) == symbols@);
    assert forall|k: int| 0 <= k < n implies occurrences(symbols@, k) <= u32::MAX by {
        assert(counts@[k] == occurrences(symbols@, k));
    }
    Some(counts)
}

/// Whether every symbol has a share of the table.
fn symbols_covered(symbols: &Vec<u16>, table: &Vec<u16>) -> (b: bool)
    requires
        forall|i: int| 0 <= i < symbols@.len() ==> symbols@[i] < table@.len(),
    ensures
        b == forall|i: int| 0 <= i < symbols@.len() ==> table@[symbols@[i] as int] != 0,
{
    let mut i: usize = 0;
    while i < symbols.len()
        invariant
            i <= symbols@.len(),
            forall|j: int| 0 <= j < symbols@.len() ==> symbols@[j] < table@.len(),
            forall|j: int| 0 <= j < i ==> table@[symbols@[j] as int] != 0,
        decreases symbols@.len() - i,
    {
        if table[symbols[i] as usize] == 0 {
            return false;
        }
        i += 1;
    }
    true
}

proof fn lemma_occurrences_prefix(s: Seq<u16>, i: int, k: int)
    requires
        0 <= i <= s.len(),
    ensures
        occurrences(s.take(i), k) <= occurrences(s, k),
    decreases s.len() - i,
{
    if i < s.len() {
        lemma_occurrences_prefix(s, i + 1, k);
        assert(s.take(i + 1).drop_last() == s.take(i));
    } else {
        assert(s.take(i) == s);
    }
}

/// Scales the counts to 4096 as the table does.
fn normalize_counts(counts: &Vec<u32>, total: u64) -> (table: Vec<u16>)
    requires
        total > 0,
        counts@.len() > 0,
        counts@.len() <= 0x1_0000,
        forall|k: int| 0 <= k < counts@.len() ==> counts@[k] <= total,
    ensures
        table@ == ans_table(counts@, total as int),
{
    let n = counts.len();
    let ghost r = scaled_freqs(counts@, total as int);
    let mut table: Vec<u16> = Vec::new();
    let mut sum: u32 = 0;
    let mut max_symbol: usize = 0;
    let mut max_count: u32 = 0;
    let mut i: usize = 0;
    while i < n
        invariant
            n == counts@.len(),
            n <= 0x1_0000,
            total > 0,
            r == scaled_freqs(counts@, total as int),
            forall|k: int| 0 <= k < counts@.len() ==> counts@[k] <= total,
            i <= n,
            table@ == Seq::new(i as nat, |k: int| r[k] as u16),
            sum == sum_int(r, i as int),
            sum <= 4096 * i,
            (max_symbol as int, max_count as int) == first_max(r, i as int),
        decreases n - i,
    {
        let count = counts[i];
        proof {
            lemma_scaled_freq_bound(count as int, total as int);
        }
        if count > 0 {
            let mut c = (count as u64 * SCALE as u64 / total) as u32;
            if c == 0 {
                c = 1;
            }
            table.push(c as u16);
            sum += c;
            if c > max_count {
                max_count = c;
                max_symbol = i;
            }
        } else {
            table.push(0);
        }
        i += 1;
    }
    proof {
        lemma_first_max_in_range(r, n as int);
        assert forall|k: int| 0 <= k < n implies 0 <= #[trigger] r[k] <= 4096 by {
            lemma_scaled_freq_bound(counts@[k] as int, total as int);
        }
    }
    if sum != SCALE {
        let diff = SCALE as i32 - sum as i32;
        let val = table[max_symbol] as i32 + diff;
        assert(val == r[max_symbol as int] + 4096 - sum);
        table.set(max_symbol, val as u16);
    }
    table
}

proof fn lemma_scaled_freq_bound(count: int, total: int)
    requires
        0 <= count <= total,
        total > 0,
    ensures
        0 <= scaled_freq(count, total) <= 4096,
        count > 0 ==> scaled_freq(count, total) >= 1,
{
    assert(count * 4096 / total <= 4096) by (nonlinear_arith)
        requires
            0 <= count <= total,
            total > 0,
    ;
    assert(count * 4096 / total >= 0) by (nonlinear_arith)
        requires
            0 <= count,
            total > 0,
    ;
}

proof fn lemma_first_max_in_range(r: Seq<int>, k: int)
    requires
        k >= 1,
    ensures
        0 <= first_max(r, k).0 < k,
    decreases k,
{
    if k > 1 {
        lemma_first_max_in_range(r, k - 1);
    }
    let (m, v) = first_max(r, k - 1);
    assert(first_max(r, k) == if r[k - 1] > v { (k - 1, r[k - 1]) } else { (m, v) });
    if k == 1 {
        assert(first_max(r, 0) == (0int, 0int));
    }
}

/// Where each symbol's slots start.
fn start_offsets(table: &Vec<u16>) -> (starts: Vec<u32>)
    requires
        table@.len() <= 0x1_0000,
    ensures
        starts@.len() == table@.len(),
        forall|k: int| 0 <= k < table@.len() ==> starts@[k] == cum_freq(table@, k),
{
    let mut starts: Vec<u32> = Vec::new();
    let mut current: u32 = 0;
    let mut i: usize = 0;
    while i < table.len()
        invariant
            table@.len() <= 0x1_0000,
            i <= table@.len(),
            starts@.len() == i,
            current == cum_freq(table@, i as int),
            current <= 0xffff * i,
            forall|k: int| 0 <= k < i ==> starts@[k] == cum_freq(table@, k),
        decreases table@.len() - i,
    {
        starts.push(current);
        current += table[i] as u32;
        i += 1;
    }
    starts
}

/// Runs the coder over `symbols` from the last to the first.
fn rans_encode(symbols: &Vec<u16>, table: &Vec<u16>, starts: &Vec<u32>) -> (res: (u32, Vec<u8>))
    requires
        table@.len() <= 0x1_0000,
        starts@.len() == table@.len(),
        forall|k: int| 0 <= k < table@.len() ==> starts@[k] == cum_freq(table@, k),
        forall|i: int| 0 <= i < symbols@.len() ==> symbols@[i] < table@.len() && table@[symbols@[i] as int] > 0,
        cum_freq(table@, table@.len() as int) <= 0x1001_0000,
    ensures
        res.0 == ans_encode_run(table@, symbols@.reverse()).0,
        res.1@ == ans_encode_run(table@, symbols@.reverse()).1,
{
    let mut stream: Vec<u8> = Vec::new();
    let mut x: u32 = STATE_LOWER_BOUND;
    let mut i: usize = symbols.len();
    while i > 0
        invariant
            i <= symbols@.len(),
            table@.len() <= 0x1_0000,
            starts@.len() == table@.len(),
            forall|k: int| 0 <= k < table@.len() ==> starts@[k] == cum_freq(table@, k),
            forall|j: int| 0 <= j < symbols@.len() ==> symbols@[j] < table@.len() && table@[symbols@[j] as int] > 0,
            cum_freq(table@, table@.len() as int) <= 0x1001_0000,
            (x, stream@) == ans_encode_run(table@, symbols@.subrange(i as int, symbols@.len() as int).reverse()),
        decreases i,
    {
        i -= 1;
        let s = symbols[i] as usize;
        let freq = table[s] as u32;
        let start = starts[s];
        let ghost syms = symbols@.subrange(i as int, symbols@.len() as int).reverse();
        proof {
            assert(syms.drop_last() == symbols@.subrange(i + 1, symbols@.len() as int).reverse());
            assert(syms.last() == symbols@[i as int]);
            lemma_cum_freq_bound(table@, s as int);
        }
        let bound = freq << (16 + 8 - SCALE_BITS);
        proof {
            lemma_u32_shl12(freq);
        }
        let ghost x0 = x;
        let ghost out0 = stream@;
        while x >= bound
            invariant
                bound == freq * 4096,
                freq > 0,
                out0.len() <= stream@.len(),
                stream@.subrange(0, out0.len() as int) == out0,
                renorm(x0, bound) == (renorm(x, bound).0, stream@.subrange(out0.len() as int, stream@.len() as int) + renorm(x, bound).1),
            decreases x,
        {
            let ghost xs = x;
            let ghost before = stream@;
            proof {
                lemma_u32_parts(xs);
            }
            stream.push(x as u8);
            x >>= 8;
            proof {
                assert(stream@.subrange(out0.len() as int, stream@.len() as int)
                    == before.subrange(out0.len() as int, before.len() as int).push((xs % 256) as u8));
                assert(stream@.subrange(0, out0.len() as int) == before.subrange(0, out0.len() as int));
            }
        }
        proof {
            assert(x < freq * 4096);
            assert(x / freq < 4096) by (nonlinear_arith)
                requires
                    x < freq * 4096,
                    freq > 0,
            ;
            assert(x % freq < freq) by (nonlinear_arith)
                requires
                    freq > 0,
            ;
            assert(stream@ == out0 + stream@.subrange(out0.len() as int, stream@.len() as int));
        }
        let q = x / freq;
        proof {
            lemma_u32_shl12(q);
        }
        proof {
            lemma_cum_freq_mono(table@, s as int, table@.len() as int);
        }
        x = (q << SCALE_BITS) + (x % freq) + start;
    }
    assert(symbols@.subrange(0, symbols@.len() as int) == symbols@);
    (x, stream)
}

proof fn lemma_cum_freq_mono(table: Seq<u16>, j: int, k: int)
    requires
        0 <= j <= k <= table.len(),
    ensures
        cum_freq(table, j) <= cum_freq(table, k),
    decreases k - j,
{
    if j < k {
        lemma_cum_freq_mono(table, j, k - 1);
    }
}

proof fn lemma_cum_freq_bound(table: Seq<u16>, k: int)
    requires
        0 <= k <= table.len(),
    ensures
        0 <= cum_freq(table, k) <= 0xffff * k,
    decreases k,
{
    if k > 0 {
        lemma_cum_freq_bound(table, k - 1);
    }
}

pub proof fn lemma_ans_table_entry(counts: Seq<u32>, total: int, i: int)
    requires
        total > 0,
        0 <= i < counts.len(),
        forall|k: int| 0 <= k < counts.len() ==> counts[k] <= total,
    ensures
        ans_table(counts, total).len() == counts.len(),
        i != first_max(scaled_freqs(counts, total), counts.len() as int).0 ==> ans_table(
            counts,
            total,
        )[i] <= 4096,
{
    let r = scaled_freqs(counts, total);
    lemma_scaled_freq_bound(counts[i] as int, total);
    assert(r.len() == counts.len());
    lemma_first_max_in_range(r, r.len() as int);
}

pub proof fn lemma_cum_freq_bound_table(counts: Seq<u32>, total: int, k: int)
    requires
        total > 0,
        0 <= k <= counts.len(),
        forall|i: int| 0 <= i < counts.len() ==> counts[i] <= total,
    ensures
        cum_freq(ans_table(counts, total), k) <= 4096 * k + 0xffff,
    decreases k,
{
    lemma_cum_freq_bound_table_split(counts, total, k);
}

proof fn lemma_cum_freq_bound_table_split(counts: Seq<u32>, total: int, k: int)
    requires
        total > 0,
        0 <= k <= counts.len(),
        forall|i: int| 0 <= i < counts.len() ==> counts[i] <= total,
    ensures
        cum_freq(ans_table(counts, total), k) <= 4096 * k + if k > first_max(
            scaled_freqs(counts, total),
            counts.len() as int,
        ).0 {
            0xffffint
        } else {
            0int
        },
    decreases k,
{
    if k > 0 {
        lemma_cum_freq_bound_table_split(counts, total, k - 1);
        lemma_ans_table_entry(counts, total, k - 1);
    }
}

/// Lays out each symbol's slots: slot `i` holds the symbol whose range
/// `[cum, cum + freq)` contains `i`.
fn build_symbol_map(table: &Vec<u16>) -> (map: Vec<u16>)
    requires
        cum_freq(table@, table@.len() as int) <= 4096,
    ensures
        map@.len() == 4096,
        forall|slot: int| 0 <= slot < 4096 ==> map@[slot] as int == slot_symbol(table@, slot),
{
    let n = table.len();
    let mut map: Vec<u16> = vec![0u16; 4096];
    let mut start: u32 = 0;
    let mut s: usize = 0;
    while s < n
        invariant
            n == table@.len(),
            cum_freq(table@, n as int) <= 4096,
            s <= n,
            start == cum_freq(table@, s as int),
            map@.len() == 4096,
            forall|slot: int| 0 <= slot < 4096 ==> map@[slot] as int == (slot_owner(table@, s as int, slot) as u16) as int,
        decreases n - s,
    {
        proof {
            lemma_cum_freq_mono(table@, s + 1, n as int);
        }
        let end = start + table[s] as u32;
        let mut i: u32 = start;
        while i < end
            invariant
                n == table@.len(),
                s < n,
                start == cum_freq(table@, s as int),
                end == cum_freq(table@, s + 1),
                end <= 4096,
                start <= i <= end,
                map@.len() == 4096,
                forall|slot: int| 0 <= slot < 4096 ==> map@[slot] as int == if start <= slot < i {
                    (s as u16) as int
                } else {
                    (slot_owner(table@, s as int, slot) as u16) as int
                },
            decreases end - i,
        {
            map.set(i as usize, s as u16);
            i += 1;
        }
        start = end;
        s += 1;
    }
    map
}

/// The running sums of the table: entry `k` is where symbol `k` starts, and
/// the last entry is the total.
fn cumulative(table: &Vec<u16>) -> (cum: Vec<u32>)
    requires
        cum_freq(table@, table@.len() as int) <= u32::MAX,
    ensures
        cum@.len() == table@.len() + 1,
        forall|k: int| 0 <= k <= table@.len() ==> cum@[k] == cum_freq(table@, k),
{
    let mut cum: Vec<u32> = Vec::new();
    let mut sum: u32 = 0;
    let mut i: usize = 0;
    while i < table.len()
        invariant
            cum_freq(table@, table@.len() as int) <= u32::MAX,
            i <= table@.len(),
            cum@.len() == i,
            sum == cum_freq(table@, i as int),
            forall|k: int| 0 <= k < i ==> cum@[k] == cum_freq(table@, k),
        decreases table@.len() - i,
    {
        proof {
            lemma_cum_freq_mono(table@, i + 1, table@.len() as int);
        }
        cum.push(sum);
        sum += table[i] as u32;
        i += 1;
    }
    cum.push(sum);
    cum
}

/// Whether the frequencies of the table add up to at most the scale.
fn table_fits_scale(table: &Vec<u16>) -> (b: bool)
    ensures
        b == (cum_freq(table@, table@.len() as int) <= 4096),
{
    let mut sum: u32 = 0;
    let mut i: usize = 0;
    while i < table.len()
        invariant
            i <= table@.len(),
            sum == cum_freq(table@, i as int),
            sum <= 4096,
        decreases table@.len() - i,
    {
        sum = sum + table[i] as u32;
        i += 1;
        if sum > 4096 {
            proof {
                lemma_cum_freq_mono(table@, i as int, table@.len() as int);
            }
            return false;
        }
    }
    true
}

/// What decoding gives after the symbols already decoded.
pub open spec fn after_decoded(done: Seq<u16>, rest: Option<Seq<u16>>) -> Option<Seq<u16>> {
    match rest {
        Some(r) => Some(done + r),
        None => None,
    }
}

/// Decodes `length` symbols from the state `x` and the bytes of `stream`,
/// or gives `None` where a state step leaves 32 bits or a symbol falls
/// outside the table.
fn rans_decode(
    table: &Vec<u16>,
    cum: &Vec<u32>,
    map: &Vec<u16>,
    length: usize,
    x: u32,
    stream: &[u8],
) -> (out: Option<Vec<u16>>)
    requires
        map@.len() == 4096,
        cum@.len() == table@.len() + 1,
        forall|k: int| 0 <= k <= table@.len() ==> cum@[k] == cum_freq(table@, k),
        forall|slot: int| 0 <= slot < 4096 ==> map@[slot] as int == slot_symbol(table@, slot),
    ensures
        match out {
            Some(v) => ans_decode_run(table@, x as int, stream@, 0, length as nat) == Some(v@),
            None => ans_decode_run(table@, x as int, stream@, 0, length as nat) is None,
        },
{
    let ghost full = ans_decode_run(table@, x as int, stream@, 0, length as nat);
    let mut output: Vec<u16> = Vec::new();
    let mut state = x;
    let mut ptr: usize = 0;
    let mut k: usize = 0;
    assert(output@ + Seq::<u16>::empty() == output@);
    while k < length
        invariant
            map@.len() == 4096,
            cum@.len() == table@.len() + 1,
            forall|j: int| 0 <= j <= table@.len() ==> cum@[j] == cum_freq(table@, j),
            forall|slot: int| 0 <= slot < 4096 ==> map@[slot] as int == slot_symbol(table@, slot),
            k <= length,
            ptr <= stream@.len(),
            full == ans_decode_run(table@, x as int, stream@, 0, length as nat),
            full == after_decoded(
                output@,
                ans_decode_run(table@, state as int, stream@, ptr as int, (length - k) as nat),
            ),
        decreases length - k,
    {
        let ghost rest = ans_decode_run(table@, state as int, stream@, ptr as int, (length - k) as nat);
        let slot = (state & (SCALE - 1)) as usize;
        proof {
            lemma_u32_parts(state);
        }
        let s = map[slot];
        assert(s as int == slot_symbol(table@, state as int % 4096));
        if s as usize >= table.len() {
            assert(rest is None);
            return None;
        }
        let freq = table[s as usize] as u64;
        let start = cum[s as usize] as u64;
        assert(freq * ((state >> SCALE_BITS) as u64) <= 0xffff * 0xfffff) by (nonlinear_arith)
            requires
                freq <= 0xffff,
                (state >> SCALE_BITS) as u64 <= 0xfffff,
        ;
        let a: u64 = freq * ((state >> SCALE_BITS) as u64) + slot as u64;
        assert(a == table@[s as int] * (state / 4096) + state % 4096) by (nonlinear_arith)
            requires
                freq == table@[s as int],
                a == freq * ((state >> SCALE_BITS) as u64) + slot as u64,
                state >> SCALE_BITS == state / 4096,
                slot == state % 4096,
        ;
        if a > 0xffff_ffff || a < start {
            assert(rest is None);
            return None;
        }
        let ghost before = output@;
        output.push(s);
        state = (a - start) as u32;
        let ghost y = state;
        let ghost p0 = ptr;
        while state < STATE_LOWER_BOUND
            invariant
                ptr <= stream@.len(),
                refill(y as int, stream@, p0 as int) == refill(state as int, stream@, ptr as int),
            ensures
                refill(y as int, stream@, p0 as int) == (state as int, ptr as int),
            decreases stream@.len() - ptr,
        {
            if ptr >= stream.len() {
                break;
            }
            let byte = stream[ptr] as u32;
            ptr += 1;
            proof {
                lemma_u32_shift_in(state, byte);
            }
            state = (state << 8) | byte;
        }
        proof {
            let next = ans_decode_run(table@, state as int, stream@, ptr as int, (length - k - 1) as nat);
            assert(rest == match next {
                Some(r) => Some(seq![s] + r),
                None => None::<Seq<u16>>,
            });
            match next {
                Some(r) => {
                    assert(before + (seq![s] + r) =~= output@ + r);
                },
                None => {},
            }
        }
        k += 1;
    }
    proof {
        assert(output@ + Seq::<u16>::empty() =~= output@);
    }
    Some(output)
}

/// Appends the table, two bytes per entry.
fn push_table(buf: &mut Vec<u8>, table: &Vec<u16>)
    ensures
        final(buf)@ == old(buf)@ + table_bytes(table@),
{
    let mut i: usize = 0;
    while i < table.len()
        invariant
            i <= table@.len(),
            buf@ == old(buf)@ + table_bytes(table@.take(i as int)),
        decreases table@.len() - i,
    {
        proof {
            assert(table@.take(i + 1).drop_last() == table@.take(i as int));
        }
        push_u16_le(buf, table[i]);
        i += 1;
    }
    assert(table@.take(table@.len() as int) == table@);
}

/// Appends `stream` last byte first.
fn push_reversed(buf: &mut Vec<u8>, stream: &Vec<u8>)
    ensures
        final(buf)@ == old(buf)@ + stream@.reverse(),
{
    let mut i: usize = stream.len();
    while i > 0
        invariant
            i <= stream@.len(),
            buf@ == old(buf)@ + stream@.subrange(i as int, stream@.len() as int).reverse(),
        decreases i,
    {
        i -= 1;
        buf.push(stream[i]);
        assert(stream@.subrange(i as int, stream@.len() as int).reverse() == stream@.subrange(
            i + 1,
            stream@.len() as int,
        ).reverse().push(stream@[i as int]));
    }
    assert(stream@.subrange(0, stream@.len() as int) == stream@);
}

/// Reads `n` two-byte entries starting at `off`.
pub open spec fn read_table(b: Seq<u8>, off: int, n: int) -> Seq<u16> {
    Seq::new(n as nat, |i: int| from_le_u16(b, off + 2 * i))
}

fn read_table_exec(b: &[u8], off: usize, n: usize) -> (table: Vec<u16>)
    requires
        off + 2 * n <= b@.len(),
    ensures
        table@ == read_table(b@, off as int, n as int),
{
    let mut table: Vec<u16> = Vec::new();
    let mut i: usize = 0;
    let mut cursor = off;
    let blen = b.len();
    while i < n
        invariant
            off + 2 * n <= b@.len(),
            blen == b@.len(),
            i <= n,
            cursor == off + 2 * i,
            table@ == read_table(b@, off as int, i as int),
        decreases n - i,
    {
        let v = read_u16_le(b, cursor);
        table.push(v);
        assert(table@ == read_table(b@, off as int, i + 1));
        cursor += 2;
        i += 1;
    }
    table
}

/// The symbols as sixteen-bit values.
pub open spec fn byte_syms(s: Seq<u8>) -> Seq<u16> {
    s.map_values(|b: u8| b as u16)
}

/// How often each of the 256 byte values occurs.
pub open spec fn byte_counts(s: Seq<u8>) -> Seq<u32> {
    Seq::new(256, |k: int| occurrences(byte_syms(s), k) as u32)
}

/// The frequency table for a byte string.
pub open spec fn byte_table(s: Seq<u8>) -> Seq<u16> {
    ans_table(byte_counts(s), s.len() as int)
}

/// The byte frame: the 256-entry table, the length, the final state and the
/// stream.
pub open spec fn ans_byte_frame(s: Seq<u8>) -> Seq<u8> {
    ans_frame(byte_table(s), s.len() as int, byte_syms(s))
}

/// The parts of a byte frame: table, length, state and stream; `None` where
/// it is too short.
pub open spec fn ans_byte_parts(b: Seq<u8>) -> Option<(Seq<u16>, int, int, Seq<u8>)> {
    if b.len() < 520 {
        None
    } else {
        Some(
            (
                read_table(b, 0, 256),
                from_le_u32(b, 512) as int,
                from_le_u32(b, 516) as int,
                b.subrange(520, b.len() as int),
            ),
        )
    }
}

/// What decoding a byte frame gives; `None` where the decoder would fail.
pub open spec fn ans_byte_decode(b: Seq<u8>) -> Option<Seq<u8>> {
    match ans_byte_parts(b) {
        Some((table, len, x, stream)) => if cum_freq(table, 256) <= 4096 {
            match ans_decode_run(table, x, stream, 0, len as nat) {
                Some(syms) => Some(syms.map_values(|v: u16| v as u8)),
                None => None,
            }
        } else {
            None
        },
        None => None,
    }
}

/// rANS over bytes with a 256-entry table.
pub struct AnsBijection;

/// The bytes that the byte coder takes: each value occurring at most
/// `u32::MAX` times and given a share of the table.
pub open spec fn ans_byte_accepts(source: Seq<u8>) -> bool {
    &&& forall|k: int| 0 <= k < 256 ==> occurrences(byte_syms(source), k) <= u32::MAX
    &&& forall|i: int| 0 <= i < source.len() ==> byte_table(source)[source[i] as int] != 0
}

/// What the byte coder writes: nothing for nothing, else the frame.
pub open spec fn ans_byte_output(source: Seq<u8>) -> Seq<u8> {
    if source.len() == 0 {
        Seq::empty()
    } else {
        ans_byte_frame(source)
    }
}

/// What the byte decoder gives: nothing for nothing, else the frame's
/// bytes, or `None` where the frame cannot be read.
pub open spec fn ans_byte_unframe(b: Seq<u8>) -> Option<Seq<u8>> {
    if b.len() == 0 {
        Some(Seq::empty())
    } else {
        ans_byte_decode(b)
    }
}

impl Bijection<Vec<u8>, Vec<u8>> for AnsBijection {
    open spec fn applies_to(&self, source: Vec<u8>) -> bool {
        ans_byte_accepts(source@)
    }

    open spec fn reverts(&self, source: Vec<u8>) -> bool {
        ans_byte_unframe(source@) is Some
    }

    fn apply(&self, source: Vec<u8>) -> (result: Vec<u8>)
        ensures
            result@ == ans_byte_output(source@),
    {
        match self.try_apply(source) {
            Some(result) => result,
            None => Vec::new(),
        }
    }

    fn revert(&self, source: Vec<u8>) -> (output: Vec<u8>)
        ensures
            ans_byte_unframe(source@) == Some(output@),
    {
        match self.try_revert(source) {
            Some(output) => output,
            None => Vec::new(),
        }
    }
}

impl AnsBijection {
    /// Codes the bytes, or gives `None` where they are not taken: a value
    /// occurs more than `u32::MAX` times or gets no share of the table.
    pub fn try_apply(&self, source: Vec<u8>) -> (out: Option<Vec<u8>>)
        ensures
            out is Some <==> ans_byte_accepts(source@),
            out matches Some(r) ==> r@ == ans_byte_output(source@),
    {
        if source.len() == 0 {
            return Some(Vec::new());
        }
        let mut syms: Vec<u16> = Vec::new();
        let mut i: usize = 0;
        while i < source.len()
            invariant
                i <= source@.len(),
                syms@ == byte_syms(source@.take(i as int)),
            decreases source@.len() - i,
        {
            syms.push(source[i] as u16);
            assert(byte_syms(source@.take(i + 1)) == byte_syms(source@.take(i as int)).push(
                source@[i as int] as u16,
            ));
            i += 1;
        }
        assert(source@.take(source@.len() as int) == source@);
        proof {
            assert forall|j: int| 0 <= j < syms@.len() implies syms@[j] < 256 by {}
        }
        let counts = match try_count_symbols(&syms, 256) {
            Some(c) => c,
            None => return None,
        };
        assert(counts@ == byte_counts(source@));
        proof {
            assert forall|k: int| 0 <= k < 256 implies counts@[k] <= source@.len() by {
                lemma_occurrences_le_len(syms@, k);
            }
        }
        let table = normalize_counts(&counts, source.len() as u64);
        proof {
            lemma_ans_table_entry(counts@, source@.len() as int, 0);
            assert(table@ == byte_table(source@));
            assert forall|j: int| 0 <= j < syms@.len() implies syms@[j] < table@.len() by {
                assert(syms@[j] == source@[j] as u16);
            }
        }
        if !symbols_covered(&syms, &table) {
            proof {
                let j = choose|j: int| 0 <= j < syms@.len() && table@[syms@[j] as int] == 0;
                assert(syms@[j] == source@[j] as u16);
            }
            return None;
        }
        proof {
            assert forall|j: int| 0 <= j < source@.len() implies byte_table(source@)[source@[j] as int] != 0 by {
                assert(syms@[j] == source@[j] as u16);
            }
        }
        let starts = start_offsets(&table);
        proof {
            lemma_cum_freq_bound_table(counts@, source@.len() as int, 256);
        }
        let (x, stream) = rans_encode(&syms, &table, &starts);
        let mut result: Vec<u8> = Vec::new();
        push_table(&mut result, &table);
        push_u32_le(&mut result, source.len() as u32);
        push_u32_le(&mut result, x);
        push_reversed(&mut result, &stream);
        Some(result)
    }

    /// Decodes a frame, or gives `None` where it cannot be decoded.
    pub fn try_revert(&self, source: Vec<u8>) -> (out: Option<Vec<u8>>)
        ensures
            match out {
                Some(v) => ans_byte_unframe(source@) == Some(v@),
                None => ans_byte_unframe(source@) is None,
            },
    {
        if source.len() == 0 {
            return Some(Vec::new());
        }
        if source.len() < 520 {
            return None;
        }
        let bytes = source.as_slice();
        let table = read_table_exec(bytes, 0, 256);
        if !table_fits_scale(&table) {
            return None;
        }
        let cum = cumulative(&table);
        let map = build_symbol_map(&table);
        let length = read_u32_le(bytes, 512) as usize;
        let x = read_u32_le(bytes, 516);
        let stream = vstd::slice::slice_subrange(bytes, 520, bytes.len());
        let syms = match rans_decode(&table, &cum, &map, length, x, stream) {
            Some(syms) => syms,
            None => return None,
        };
        let mut output: Vec<u8> = Vec::new();
        let mut i: usize = 0;
        while i < syms.len()
            invariant
                i <= syms@.len(),
                output@ == syms@.take(i as int).map_values(|v: u16| v as u8),
            decreases syms@.len() - i,
        {
            output.push(syms[i] as u8);
            assert(syms@.take(i + 1).map_values(|v: u16| v as u8) == syms@.take(i as int).map_values(
                |v: u16| v as u8,
            ).push(syms@[i as int] as u8));
            i += 1;
        }
        assert(syms@.take(syms@.len() as int) == syms@);
        Some(output)
    }
}

proof fn lemma_occurrences_le_len(s: Seq<u16>, k: int)
    ensures
        occurrences(s, k) <= s.len(),
    decreases s.len(),
{
    if s.len() > 0 {
        lemma_occurrences_le_len(s.drop_last(), k);
    }
}

// ---------------------------------------------------------------------------
// 64-bit values through dense ranks
// ---------------------------------------------------------------------------
/// The index at which `v` stands in `u`.
pub open spec fn rank_in(u: Seq<u64>, v: u64) -> int {
    choose|i: int| 0 <= i < u.len() && u[i] == v
}

/// Each value replaced by its rank in the dictionary.
pub open spec fn ranks_of(s: Seq<u64>, u: Seq<u64>) -> Seq<u16> {
    s.map_values(|v: u64| rank_in(u, v) as u16)
}

pub open spec fn rank_counts(s: Seq<u64>, u: Seq<u64>) -> Seq<u32> {
    Seq::new(u.len(), |k: int| occurrences(ranks_of(s, u), k) as u32)
}

pub open spec fn rank_table(s: Seq<u64>, u: Seq<u64>) -> Seq<u16> {
    ans_table(rank_counts(s, u), s.len() as int)
}

/// The frame for 64-bit values: the length of the compressed dictionary,
/// the compressed dictionary `d`, then the rank frame.
pub open spec fn ans_u64_frame(s: Seq<u64>, u: Seq<u64>, d: Seq<u8>) -> Seq<u8> {
    vint_bytes(d.len() as u64) + d + ans_frame(rank_table(s, u), s.len() as int, ranks_of(s, u))
}

/// The parts of a frame for 64-bit values: dictionary, table, length, state
/// and stream; `None` where one of them cannot be read.
pub open spec fn ans_u64_parts(b: Seq<u8>) -> Option<(Seq<u64>, Seq<u16>, int, int, Seq<u8>)> {
    if !vint_readable_at(b, 0) {
        None
    } else {
        let off = vint_end(b, 0).unwrap() + 1;
        let dlen = (vint_value(b, 0, off) as usize) as int;
        if off + dlen > b.len() {
            None
        } else {
            match zstd_decoded(b.subrange(off, off + dlen)) {
                Some(dd) => if !vint_well_grouped(dd) {
                    None
                } else {
                    let u = vint_decode_all(dd);
                    let n = u.len() as int;
                    let p = off + dlen;
                    if p + 2 * n + 8 > b.len() {
                        None
                    } else {
                        Some(
                            (
                                u,
                                read_table(b, p, n),
                                from_le_u32(b, p + 2 * n) as int,
                                from_le_u32(b, p + 2 * n + 4) as int,
                                b.subrange(p + 2 * n + 8, b.len() as int),
                            ),
                        )
                    }
                },
                None => None,
            }
        }
    }
}

/// What decoding a frame for 64-bit values gives; `None` where the decoder
/// would fail.
pub open spec fn ans_u64_decode(b: Seq<u8>) -> Option<Seq<u64>> {
    match ans_u64_parts(b) {
        Some((u, table, len, x, stream)) => if cum_freq(table, table.len() as int) <= 4096 {
            match ans_decode_run(table, x, stream, 0, len as nat) {
                Some(r) => if forall|i: int| 0 <= i < r.len() ==> #[trigger] r[i] < u.len() {
                    Some(r.map_values(|k: u16| u[k as int]))
                } else {
                    None
                },
                None => None,
            }
        } else {
            None
        },
        None => None,
    }
}

proof fn lemma_rank_unique(u: Seq<u64>, r: int, v: u64)
    requires
        strictly_increasing(u),
        0 <= r < u.len(),
        u[r] == v,
    ensures
        rank_in(u, v) == r,
{
    let i = rank_in(u, v);
    assert(0 <= i < u.len() && u[i] == v);
    if i < r {
        assert(u[i] < u[r]);
    } else if i > r {
        assert(u[r] < u[i]);
    }
}

/// The values that the 64-bit coder takes: at most 65536 distinct values,
/// each occurring at most `u32::MAX` times and given a share of the table.
pub open spec fn ans_u64_accepts(source: Seq<u64>) -> bool {
    source.len() > 0 ==> forall|u: Seq<u64>|
        #[trigger] is_dictionary_of(u, source) ==> {
            &&& u.len() <= 0x1_0000
            &&& forall|k: int| 0 <= k < u.len() ==> occurrences(ranks_of(source, u), k) <= u32::MAX
            &&& forall|i: int|
                0 <= i < source.len() ==> rank_table(source, u)[ranks_of(source, u)[i] as int] != 0
        }
}

/// What the 64-bit coder writes for `source`: nothing for nothing, else
/// the frame over its dictionary, with the dictionary's bytes compressed.
pub open spec fn ans_u64_output(source: Seq<u64>, result: Seq<u8>) -> bool {
    &&& source.len() == 0 ==> result.len() == 0
    &&& source.len() > 0 ==> exists|u: Seq<u64>, d: Seq<u8>|
        {
            &&& is_dictionary_of(u, source)
            &&& zstd_output(vint_encode_all(u), d)
            &&& result == ans_u64_frame(source, u, d)
        }
}

/// What the 64-bit decoder gives: nothing for nothing, else the frame's
/// values, or `None` where the frame cannot be read.
pub open spec fn ans_u64_unframe(b: Seq<u8>) -> Option<Seq<u64>> {
    if b.len() == 0 {
        Some(Seq::empty())
    } else {
        ans_u64_decode(b)
    }
}

/// rANS over 64-bit values: each value is coded by its rank among the
/// distinct values, which are stored alongside.
pub struct AnsU64Bijection;

impl Bijection<Vec<u64>, Vec<u8>> for AnsU64Bijection {
    open spec fn applies_to(&self, source: Vec<u64>) -> bool {
        ans_u64_accepts(source@)
    }

    open spec fn reverts(&self, source: Vec<u8>) -> bool {
        ans_u64_unframe(source@) is Some
    }

    fn apply(&self, source: Vec<u64>) -> (result: Vec<u8>)
        ensures
            ans_u64_output(source@, result@),
    {
        match self.try_apply(source) {
            Some(result) => result,
            None => Vec::new(),
        }
    }

    fn revert(&self, source: Vec<u8>) -> (output: Vec<u64>)
        ensures
            ans_u64_unframe(source@) == Some(output@),
    {
        match self.try_revert(source) {
            Some(output) => output,
            None => Vec::new(),
        }
    }
}

impl AnsU64Bijection {
    /// Codes the values, or gives `None` where they are not taken: more
    /// than 65536 distinct values, a rank occurring more than `u32::MAX`
    /// times, or a rank with no share of the table.
    pub fn try_apply(&self, source: Vec<u64>) -> (out: Option<Vec<u8>>)
        ensures
            out is Some <==> ans_u64_accepts(source@),
            out matches Some(r) ==> ans_u64_output(source@, r@),
    {
        if source.len() == 0 {
            return Some(Vec::new());
        }
        let unique = sorted_distinct(&source);
        assert(is_dictionary_of(unique@, source@));
        assert(source@.contains(source@[0]));
        assert(unique@.contains(source@[0]));
        let alphabet = unique.len();
        if alphabet > 0x1_0000 {
            return None;
        }
        let mut ranks: Vec<u16> = Vec::new();
        let mut i: usize = 0;
        while i < source.len()
            invariant
                i <= source@.len(),
                is_dictionary_of(unique@, source@),
                alphabet == unique@.len(),
                alphabet <= 0x1_0000,
                ranks@ == ranks_of(source@.take(i as int), unique@),
                forall|j: int| 0 <= j < i ==> ranks@[j] < alphabet,
            decreases source@.len() - i,
        {
            let v = source[i];
            assert(source@.contains(v));
            let r = position_of(&unique, v);
            proof {
                lemma_rank_unique(unique@, r as int, v);
                assert(ranks_of(source@.take(i + 1), unique@) == ranks_of(source@.take(i as int), unique@).push(r as u16));
            }
            ranks.push(r as u16);
            i += 1;
        }
        assert(source@.take(source@.len() as int) == source@);
        let counts = match try_count_symbols(&ranks, alphabet) {
            Some(c) => c,
            None => return None,
        };
        assert(counts@ == rank_counts(source@, unique@));
        proof {
            assert forall|k: int| 0 <= k < alphabet implies counts@[k] <= source@.len() by {
                lemma_occurrences_le_len(ranks@, k);
            }
        }
        let table = normalize_counts(&counts, source.len() as u64);
        proof {
            lemma_ans_table_entry(counts@, source@.len() as int, 0);
            assert(table@ == rank_table(source@, unique@));
            lemma_cum_freq_bound_table(counts@, source@.len() as int, alphabet as int);
        }
        if !symbols_covered(&ranks, &table) {
            return None;
        }
        proof {
            assert forall|u: Seq<u64>| #[trigger] is_dictionary_of(u, source@) implies {
                &&& u.len() <= 0x1_0000
                &&& forall|k: int| 0 <= k < u.len() ==> occurrences(ranks_of(source@, u), k) <= u32::MAX
                &&& forall|i: int|
                    0 <= i < source@.len() ==> rank_table(source@, u)[ranks_of(source@, u)[i] as int] != 0
            } by {
                crate::sorting::lemma_dictionary_unique(u, unique@, source@);
            }
        }
        let starts = start_offsets(&table);
        let (x, stream) = rans_encode(&ranks, &table, &starts);
        let dict_bytes = ZStdBijection.apply(VIntBijection.apply(unique.clone()));
        let mut result: Vec<u8> = Vec::new();
        write_vint(dict_bytes.len() as u64, &mut result);
        let mut dict = dict_bytes;
        let ghost d = dict@;
        result.append(&mut dict);
        push_table(&mut result, &table);
        push_u32_le(&mut result, source.len() as u32);
        push_u32_le(&mut result, x);
        push_reversed(&mut result, &stream);
        assert(result@ == ans_u64_frame(source@, unique@, d));
        Some(result)
    }

    /// Decodes a frame, or gives `None` where it cannot be decoded.
    pub fn try_revert(&self, source: Vec<u8>) -> (out: Option<Vec<u64>>)
        ensures
            match out {
                Some(v) => ans_u64_unframe(source@) == Some(v@),
                None => ans_u64_unframe(source@) is None,
            },
    {
        if source.len() == 0 {
            return Some(Vec::new());
        }
        let bytes = source.as_slice();
        let ghost b = bytes@;
        let mut offset: usize = 0;
        let dict_frame = match try_read_part(bytes, &mut offset) {
            Some(p) => p,
            None => return None,
        };
        let dd = match ZStdBijection.try_revert(dict_frame) {
            Some(d) => d,
            None => return None,
        };
        let unique = match try_decode_vints(dd.as_slice()) {
            Some(u) => u,
            None => return None,
        };
        let alphabet = unique.len();
        let remaining = bytes.len() - offset;
        if remaining < 8 || (remaining - 8) / 2 < alphabet {
            return None;
        }
        let table = read_table_exec(bytes, offset, alphabet);
        if !table_fits_scale(&table) {
            return None;
        }
        let cum = cumulative(&table);
        let map = build_symbol_map(&table);
        let at = offset + 2 * alphabet;
        let length = read_u32_le(bytes, at) as usize;
        let x = read_u32_le(bytes, at + 4);
        let stream = vstd::slice::slice_subrange(bytes, at + 8, bytes.len());
        let ranks = match rans_decode(&table, &cum, &map, length, x, stream) {
            Some(r) => r,
            None => return None,
        };
        let ghost fits = forall|j: int| 0 <= j < ranks@.len() ==> #[trigger] ranks@[j] < unique@.len();
        assert(ans_u64_unframe(source@) is Some ==> fits);
        let mut output: Vec<u64> = Vec::new();
        let mut i: usize = 0;
        while i < ranks.len()
            invariant
                i <= ranks@.len(),
                alphabet == unique@.len(),
                ans_u64_unframe(source@) is Some ==> fits,
                fits == forall|j: int| 0 <= j < ranks@.len() ==> #[trigger] ranks@[j] < unique@.len(),
                forall|j: int| 0 <= j < i ==> #[trigger] ranks@[j] < unique@.len(),
                output@ == ranks@.take(i as int).map_values(|k: u16| unique@[k as int]),
            decreases ranks@.len() - i,
        {
            if ranks[i] as usize >= alphabet {
                assert(ranks@[i as int] >= unique@.len());
                return None;
            }
            output.push(unique[ranks[i] as usize]);
            assert(ranks@.take(i + 1).map_values(|k: u16| unique@[k as int]) == ranks@.take(i as int).map_values(
                |k: u16| unique@[k as int],
            ).push(unique@[ranks@[i as int] as int]));
            i += 1;
        }
        assert(ranks@.take(ranks@.len() as int) == ranks@);
        Some(output)
    }
}


// ---------------------------------------------------------------------------
// Decoding inverts encoding
// ---------------------------------------------------------------------------
/// Encoding `syms` in the given order from state `x0`.
pub open spec fn ans_encode_from(table: Seq<u16>, x0: u32, syms: Seq<u16>) -> (u32, Seq<u8>)
    decreases syms.len(),
{
    if syms.len() == 0 {
        (x0, Seq::empty())
    } else {
        let (x, out) = ans_encode_from(table, x0, syms.drop_last());
        let s = syms.last() as int;
        let f = table[s] as int;
        let (y, more) = renorm(x, (f * 4096) as u32);
        ((((y as int) / f) * 4096 + (y as int) % f + cum_freq(table, s)) as u32, out + more)
    }
}

proof fn lemma_encode_run_from(table: Seq<u16>, syms: Seq<u16>)
    ensures
        ans_encode_run(table, syms) == ans_encode_from(table, STATE_LOWER_BOUND, syms),
    decreases syms.len(),
{
    if syms.len() > 0 {
        lemma_encode_run_from(table, syms.drop_last());
    }
}

/// The frequencies fill the scale exactly.
pub open spec fn table_complete(table: Seq<u16>) -> bool {
    cum_freq(table, table.len() as int) == 4096
}

/// Every symbol has a place in the table.
pub open spec fn codable(table: Seq<u16>, syms: Seq<u16>) -> bool {
    forall|i: int| 0 <= i < syms.len() ==> #[trigger] syms[i] < table.len() && table[syms[i] as int] > 0
}

/// A slot within a symbol's range belongs to that symbol.
proof fn lemma_slot_owner(table: Seq<u16>, k: int, s: int, slot: int)
    requires
        s < k <= table.len(),
        0 <= s,
        cum_freq(table, s) <= slot < cum_freq(table, s + 1),
    ensures
        slot_owner(table, k, slot) == s,
    decreases k,
{
    if k - 1 > s {
        lemma_cum_freq_mono(table, s + 1, k - 1);
        lemma_slot_owner(table, k - 1, s, slot);
    }
}

/// Renormalization leaves a state from which the symbol's step lands back
/// in the state interval; below the lower bound where it emitted bytes.
proof fn lemma_renorm_bounds(x: u32, f: int)
    requires
        STATE_LOWER_BOUND <= x < 0x100_0000,
        1 <= f <= 4096,
    ensures
        16 * f <= renorm(x, (f * 4096) as u32).0 < f * 4096,
        renorm(x, (f * 4096) as u32).1.len() > 0 ==> renorm(x, (f * 4096) as u32).0 < STATE_LOWER_BOUND,
        renorm(x, (f * 4096) as u32).0 <= x,
    decreases x,
{
    let b = (f * 4096) as u32;
    assert(b == f * 4096 && b > 0);
    if x >= b {
        let z = (x / 256) as u32;
        assert(renorm(x, b) == (renorm(z, b).0, seq![(x % 256) as u8] + renorm(z, b).1));
        if z >= b {
            lemma_renorm_bounds_below(z, f);
        } else {
            assert(16 * f <= z) by (nonlinear_arith)
                requires
                    x >= f * 4096,
                    z == x / 256,
            ;
        }
    }
}

/// Below the lower bound, renormalization keeps dividing down to the range
/// of the symbol.
proof fn lemma_renorm_bounds_below(z: u32, f: int)
    requires
        z < STATE_LOWER_BOUND,
        1 <= f <= 4096,
        z >= f * 4096,
    ensures
        16 * f <= renorm(z, (f * 4096) as u32).0 < f * 4096,
        renorm(z, (f * 4096) as u32).0 < STATE_LOWER_BOUND,
    decreases z,
{
    let b = (f * 4096) as u32;
    assert(b == f * 4096 && b > 0);
    let w = (z / 256) as u32;
    assert(renorm(z, b) == (renorm(w, b).0, seq![(z % 256) as u8] + renorm(w, b).1));
    if w >= b {
        lemma_renorm_bounds_below(w, f);
    } else {
        assert(16 * f <= w) by (nonlinear_arith)
            requires
                z >= f * 4096,
                w == z / 256,
        ;
    }
}

/// Refilling reads back, in reverse, the bytes that renormalization emitted.
proof fn lemma_refill_renorm(x: u32, b: u32, s: Seq<u8>, p: int)
    requires
        b > 0,
        x < 0x100_0000,
        0 <= p,
        p + renorm(x, b).1.len() <= s.len(),
        s.subrange(p, p + renorm(x, b).1.len()) == renorm(x, b).1.reverse(),
    ensures
        refill(renorm(x, b).0 as int, s, p) == refill(x as int, s, p + renorm(x, b).1.len()),
    decreases x,
{
    if b > 0 && x >= b {
        let z = (x / 256) as u32;
        let (y, out) = renorm(z, b);
        let m = renorm(x, b).1;
        assert(m == seq![(x % 256) as u8] + out);
        assert(m.reverse() == out.reverse() + seq![(x % 256) as u8]);
        assert(s.subrange(p, p + out.len()) == out.reverse()) by {
            assert(s.subrange(p, p + out.len()) =~= s.subrange(p, p + m.len()).subrange(0, out.len() as int));
        }
        lemma_refill_renorm(z, b, s, p);
        assert(s[p + out.len()] == (x % 256) as u8) by {
            assert(s.subrange(p, p + m.len())[out.len() as int] == m.reverse()[out.len() as int]);
        }
        assert(z * 256 + (x % 256) == x);
    }
}

/// One coding step and its inverse.
proof fn lemma_code_step(y: int, f: int, c: int)
    requires
        1 <= f,
        16 * f <= y < 4096 * f,
        0 <= c,
        c + f <= 4096,
    ensures
        ({
            let x = (y / f) * 4096 + y % f + c;
            &&& STATE_LOWER_BOUND <= x < 0x100_0000
            &&& x % 4096 == y % f + c
            &&& x / 4096 == y / f
            &&& f * (x / 4096) + x % 4096 - c == y
        }),
{
    let q = y / f;
    let r = y % f;
    assert(y == f * q + r && 0 <= r < f) by (nonlinear_arith)
        requires
            1 <= f,
            q == y / f,
            r == y % f,
    ;
    assert(16 <= q < 4096) by (nonlinear_arith)
        requires
            y == f * q + r,
            0 <= r < f,
            16 * f <= y < 4096 * f,
    ;
    let x = q * 4096 + r + c;
    assert(x / 4096 == q && x % 4096 == r + c) by (nonlinear_arith)
        requires
            x == q * 4096 + r + c,
            0 <= r + c < 4096,
    ;
}

/// Decoding what was encoded from state `x0` gives the symbols back,
/// wherever the emitted bytes sit in the stream.
proof fn lemma_ans_core(table: Seq<u16>, syms: Seq<u16>, x0: u32, s: Seq<u8>, p: int)
    requires
        table_complete(table),
        table.len() <= 0x1_0000,
        codable(table, syms),
        STATE_LOWER_BOUND <= x0 < 0x100_0000,
        0 <= p,
        p + ans_encode_from(table, x0, syms.reverse()).1.len() <= s.len(),
        s.subrange(p, p + ans_encode_from(table, x0, syms.reverse()).1.len()) == ans_encode_from(
            table,
            x0,
            syms.reverse(),
        ).1.reverse(),
    ensures
        STATE_LOWER_BOUND <= ans_encode_from(table, x0, syms.reverse()).0 < 0x100_0000,
        ans_decode_run(table, ans_encode_from(table, x0, syms.reverse()).0 as int, s, p, syms.len())
            == Some(syms),
    decreases syms.len(),
{
    if syms.len() == 0 {
        assert(syms.reverse() =~= Seq::<u16>::empty());
        assert(syms =~= Seq::<u16>::empty());
    } else {
        let s0 = syms[0];
        let rest = syms.drop_first();
        let r = syms.reverse();
        assert(r.drop_last() =~= rest.reverse());
        assert(r.last() == s0);
        let (x1, e1) = ans_encode_from(table, x0, rest.reverse());
        let f = table[s0 as int] as int;
        let c = cum_freq(table, s0 as int);
        lemma_cum_freq_mono(table, s0 as int + 1, table.len() as int);
        lemma_cum_freq_bound(table, s0 as int);
        assert(c + f <= 4096);
        let (y, m) = renorm(x1, (f * 4096) as u32);
        let (xe, e) = ans_encode_from(table, x0, r);
        assert(e == e1 + m);
        assert(e.reverse() =~= m.reverse() + e1.reverse());
        assert(codable(table, rest)) by {
            assert forall|i: int| 0 <= i < rest.len() implies #[trigger] rest[i] < table.len() && table[rest[i] as int] > 0 by {
                assert(rest[i] == syms[i + 1]);
            }
        }
        assert(syms[0] < table.len() && table[syms[0] as int] > 0);
        assert(s.subrange(p + m.len(), p + m.len() + e1.len()) == e1.reverse()) by {
            assert(s.subrange(p + m.len(), p + m.len() + e1.len()) =~= s.subrange(p, p + e.len()).subrange(
                m.len() as int,
                e.len() as int,
            ));
        }
        lemma_ans_core(table, rest, x0, s, p + m.len());
        lemma_renorm_bounds(x1, f);
        lemma_code_step(y as int, f, c);
        assert(xe as int == (y as int / f) * 4096 + (y as int) % f + c);
        let slot = (xe as int) % 4096;
        lemma_slot_owner(table, table.len() as int, s0 as int, slot);
        assert(slot_symbol(table, slot) == s0 as int);
        assert(s.subrange(p, p + m.len()) == m.reverse()) by {
            assert(s.subrange(p, p + m.len()) =~= s.subrange(p, p + e.len()).subrange(0, m.len() as int));
        }
        lemma_refill_renorm(x1, (f * 4096) as u32, s, p);
        assert(refill(x1 as int, s, p + m.len()) == (x1 as int, p + m.len()));
        assert(seq![s0] + rest =~= syms);
    }
}

/// The bytes of a table, read back from where they were written.
proof fn lemma_read_table_bytes(pre: Seq<u8>, t: Seq<u16>, rest: Seq<u8>)
    ensures
        table_bytes(t).len() == 2 * t.len(),
        read_table(pre + table_bytes(t) + rest, pre.len() as int, t.len() as int) == t,
    decreases t.len(),
{
    if t.len() > 0 {
        let init = t.drop_last();
        lemma_read_table_bytes(pre, init, le_u16(t.last()) + rest);
        assert(pre + table_bytes(t) + rest =~= pre + table_bytes(init) + (le_u16(t.last()) + rest));
        crate::bytes::lemma_le_u16_roundtrip(t.last(), pre + table_bytes(init), rest);
        assert(pre + table_bytes(init) + le_u16(t.last()) + rest =~= pre + table_bytes(t) + rest);
        let b = pre + table_bytes(t) + rest;
        assert forall|i: int| 0 <= i < t.len() implies read_table(b, pre.len() as int, t.len() as int)[i] == t[i] by {
            if i < init.len() {
                assert(read_table(pre + table_bytes(init) + (le_u16(t.last()) + rest), pre.len() as int, init.len() as int)[i] == init[i]);
            }
        }
        assert(read_table(b, pre.len() as int, t.len() as int) =~= t);
    }
}

/// Decoding the frame of a byte string gives the string back, where its
/// table fills the scale exactly.
#[verifier::spinoff_prover]
#[verifier::rlimit(40)]
pub proof fn law_ans_byte_roundtrip(s: Seq<u8>)
    requires
        0 < s.len() <= u32::MAX,
        ans_byte_accepts(s),
        table_complete(byte_table(s)),
    ensures
        ans_byte_decode(ans_byte_frame(s)) == Some(s),
{
    let table = byte_table(s);
    let syms = byte_syms(s);
    let (x, out) = ans_encode_run(table, syms.reverse());
    lemma_encode_run_from(table, syms.reverse());
    let stream = out.reverse();
    let tb = table_bytes(table);
    let frame = ans_byte_frame(s);
    assert(frame == tb + le_u32(s.len() as u32) + le_u32(x) + stream);
    assert(byte_counts(s).len() == 256);
    let r = scaled_freqs(byte_counts(s), s.len() as int);
    assert(r.len() == 256);
    let base = Seq::new(r.len(), |i: int| r[i] as u16);
    let m = first_max(r, r.len() as int).0;
    let sum = sum_int(r, r.len() as int);
    assert(table == if sum == 4096 {
        base
    } else {
        base.update(m, (r[m] + 4096 - sum) as u16)
    });
    lemma_first_max_in_range(r, 256);
    assert(table.len() == 256);
    lemma_read_table_bytes(Seq::empty(), table, le_u32(s.len() as u32) + le_u32(x) + stream);
    assert(frame =~= Seq::<u8>::empty() + tb + (le_u32(s.len() as u32) + le_u32(x) + stream));
    assert(frame =~= tb + (le_u32(s.len() as u32) + le_u32(x) + stream));
    crate::bytes::lemma_le_u32_roundtrip(s.len() as u32, tb, le_u32(x) + stream);
    assert(frame =~= tb + le_u32(s.len() as u32) + (le_u32(x) + stream));
    crate::bytes::lemma_le_u32_roundtrip(x, tb + le_u32(s.len() as u32), stream);
    assert(frame =~= tb + le_u32(s.len() as u32) + le_u32(x) + stream);
    assert(frame.subrange(520, frame.len() as int) =~= stream);
    assert(codable(table, syms)) by {
        assert forall|i: int| 0 <= i < syms.len() implies #[trigger] syms[i] < table.len() && table[syms[i] as int] > 0 by {
            assert(syms[i] == s[i] as u16);
        }
    }
    assert(stream.subrange(0, out.len() as int) =~= stream);
    lemma_ans_core(table, syms, STATE_LOWER_BOUND, stream, 0);
    assert(syms.map_values(|v: u16| v as u8) =~= s);
}


/// The parts of a frame of 64-bit values read back.
#[verifier::rlimit(40)]
proof fn lemma_u64_frame_parts(s: Seq<u64>, u: Seq<u64>, d: Seq<u8>)
    requires
        0 < s.len() <= u32::MAX,
        is_dictionary_of(u, s),
        d.len() <= usize::MAX,
        zstd_output(vint_encode_all(u), d),
    ensures
        ans_u64_parts(ans_u64_frame(s, u, d)) == Some(
            (
                u,
                rank_table(s, u),
                s.len() as int,
                ans_encode_run(rank_table(s, u), ranks_of(s, u).reverse()).0 as int,
                ans_encode_run(rank_table(s, u), ranks_of(s, u).reverse()).1.reverse(),
            ),
        ),
{
    let table = rank_table(s, u);
    let ranks = ranks_of(s, u);
    let (x, out) = ans_encode_run(table, ranks.reverse());
    let stream = out.reverse();
    let vb = vint_bytes(d.len() as u64);
    let tb = table_bytes(table);
    let frame = ans_u64_frame(s, u, d);
    let tail = tb + le_u32(s.len() as u32) + le_u32(x) + stream;
    assert(frame =~= vb + (d + tail));
    lemma_vint_bytes_read(d.len() as u64, d + tail);
    let off = vb.len() as int;
    crate::vint::lemma_vint_end_facts(frame, 0);
    assert(vint_readable_at(frame, 0));
    assert(vint_end(frame, 0).unwrap() + 1 == off);
    assert(vint_value(frame, 0, off) == d.len() as u64) by {
        vstd::arithmetic::div_mod::lemma_small_mod(d.len(), 0x1_0000_0000_0000_0000);
    }
    assert(frame.subrange(off, off + d.len()) =~= d);
    law_vint_roundtrip(u);
    let r = rank_counts(s, u);
    assert(r.len() == u.len());
    let sf = scaled_freqs(r, s.len() as int);
    assert(sf.len() == u.len());
    assert(u.len() > 0) by {
        assert(s.contains(s[0]));
    }
    lemma_first_max_in_range(sf, sf.len() as int);
    assert(table.len() == u.len());
    let p = off + d.len();
    assert(frame =~= (vb + d) + tb + (le_u32(s.len() as u32) + le_u32(x) + stream));
    lemma_read_table_bytes(vb + d, table, le_u32(s.len() as u32) + le_u32(x) + stream);
    crate::bytes::lemma_le_u32_roundtrip(s.len() as u32, vb + d + tb, le_u32(x) + stream);
    assert(frame =~= (vb + d + tb) + le_u32(s.len() as u32) + (le_u32(x) + stream));
    crate::bytes::lemma_le_u32_roundtrip(x, vb + d + tb + le_u32(s.len() as u32), stream);
    assert(frame =~= (vb + d + tb + le_u32(s.len() as u32)) + le_u32(x) + stream);
    assert(frame.subrange(p + 2 * u.len() + 8, frame.len() as int) =~= stream);
}

/// Decoding a frame of 64-bit values, written with the dictionary of the
/// values and the dictionary's bytes compressed, gives the values back,
/// where the rank table fills the scale exactly.
pub proof fn law_ans_u64_roundtrip(s: Seq<u64>, u: Seq<u64>, d: Seq<u8>)
    requires
        0 < s.len() <= u32::MAX,
        ans_u64_accepts(s),
        is_dictionary_of(u, s),
        d.len() <= usize::MAX,
        zstd_output(vint_encode_all(u), d),
        table_complete(rank_table(s, u)),
    ensures
        ans_u64_decode(ans_u64_frame(s, u, d)) == Some(s),
{
    let table = rank_table(s, u);
    let ranks = ranks_of(s, u);
    let (x, out) = ans_encode_run(table, ranks.reverse());
    lemma_encode_run_from(table, ranks.reverse());
    let stream = out.reverse();
    lemma_u64_frame_parts(s, u, d);
    let r = rank_counts(s, u);
    let sf = scaled_freqs(r, s.len() as int);
    assert(sf.len() == u.len());
    assert(u.len() > 0) by {
        assert(s.contains(s[0]));
    }
    lemma_first_max_in_range(sf, sf.len() as int);
    assert(table.len() == u.len());
    assert(u.len() <= 0x1_0000);
    assert forall|i: int| 0 <= i < s.len() implies 0 <= rank_in(u, s[i]) < u.len() && u[rank_in(u, s[i])] == s[i] by {
        assert(s.contains(s[i]));
        assert(u.contains(s[i]));
    }
    assert(codable(table, ranks)) by {
        assert forall|i: int| 0 <= i < ranks.len() implies #[trigger] ranks[i] < table.len() && table[ranks[i] as int] > 0 by {
            assert(0 <= rank_in(u, s[i]) < u.len());
            assert(ranks[i] as int == rank_in(u, s[i]));
        }
    }
    assert(stream.subrange(0, out.len() as int) =~= stream);
    lemma_ans_core(table, ranks, STATE_LOWER_BOUND, stream, 0);
    assert forall|i: int| 0 <= i < ranks.len() implies #[trigger] ranks[i] < u.len() by {
        assert(ranks[i] as int == rank_in(u, s[i]));
    }
    assert(ranks.map_values(|k: u16| u[k as int]) =~= s) by {
        assert forall|i: int| 0 <= i < s.len() implies ranks.map_values(|k: u16| u[k as int])[i] == s[i] by {
            assert(ranks[i] as int == rank_in(u, s[i]));
        }
    }
}

/// Every dictionary of the values gives a rank table that fills the scale.
pub open spec fn ans_u64_complete(s: Seq<u64>) -> bool {
    forall|u: Seq<u64>| #[trigger] is_dictionary_of(u, s) ==> table_complete(rank_table(s, u))
}

/// What the 64-bit coder wrote decodes to the values, where the rank table
/// fills the scale.
pub proof fn law_ans_u64_output_roundtrip(s: Seq<u64>, r: Seq<u8>)
    requires
        s.len() <= u32::MAX,
        r.len() <= usize::MAX,
        ans_u64_accepts(s),
        ans_u64_complete(s),
        ans_u64_output(s, r),
    ensures
        ans_u64_unframe(r) == Some(s),
{
    if s.len() > 0 {
        let (u, d) = choose|u: Seq<u64>, d: Seq<u8>|
            {
                &&& is_dictionary_of(u, s)
                &&& zstd_output(vint_encode_all(u), d)
                &&& r == ans_u64_frame(s, u, d)
            };
        let tail = ans_frame(rank_table(s, u), s.len() as int, ranks_of(s, u));
        assert(r =~= Seq::<u8>::empty() + vint_bytes(d.len() as u64) + d + tail);
        crate::vint::lemma_vint_part_at(Seq::empty(), d, tail);
        law_ans_u64_roundtrip(s, u, d);
    } else {
        assert(s =~= Seq::<u64>::empty());
    }
}

/// What the byte coder wrote decodes to the bytes, where the table fills
/// the scale.
pub proof fn law_ans_byte_output_roundtrip(s: Seq<u8>)
    requires
        s.len() <= u32::MAX,
        ans_byte_accepts(s),
        s.len() > 0 ==> table_complete(byte_table(s)),
    ensures
        ans_byte_unframe(ans_byte_output(s)) == Some(s),
{
    if s.len() > 0 {
        law_ans_byte_roundtrip(s);
        let table = byte_table(s);
        let (x, out) = ans_encode_run(table, byte_syms(s).reverse());
        assert(ans_byte_frame(s).len() >= (le_u32(s.len() as u32) + le_u32(x)).len());
    } else {
        assert(s =~= Seq::<u8>::empty());
    }
}

// ---------------------------------------------------------------------------
// Short byte strings fill the table
// ---------------------------------------------------------------------------
/// The sum of the first `k` counts.
pub open spec fn count_sum(counts: Seq<u32>, k: int) -> int
    decreases k,
{
    if k <= 0 {
        0
    } else {
        count_sum(counts, k - 1) + counts[k - 1]
    }
}

/// How many elements of `s` are below `k`.
pub open spec fn count_below(s: Seq<u16>, k: int) -> nat
    decreases s.len(),
{
    if s.len() == 0 {
        0
    } else {
        count_below(s.drop_last(), k) + if s.last() < k {
            1nat
        } else {
            0nat
        }
    }
}

/// The occurrences of the first `k` of `w` symbols add up to the number
/// of elements below `k`; that is all of them where every one is.
proof fn lemma_occurrence_sum(s: Seq<u16>, w: int, k: int)
    requires
        0 <= k <= w,
        s.len() <= u32::MAX,
    ensures
        count_sum(Seq::new(w as nat, |j: int| occurrences(s, j) as u32), k) == count_below(s, k),
        (forall|i: int| 0 <= i < s.len() ==> s[i] < k) ==> count_below(s, k) == s.len(),
    decreases s.len(),
{
    let c = Seq::new(w as nat, |j: int| occurrences(s, j) as u32);
    if s.len() == 0 {
        lemma_count_sum_zero(c, k);
    } else {
        let t = s.drop_last();
        let ct = Seq::new(w as nat, |j: int| occurrences(t, j) as u32);
        lemma_occurrence_sum(t, w, k);
        assert forall|j: int| 0 <= j < w implies occurrences(t, j) <= t.len() by {
            lemma_occurrences_le_len(t, j);
        }
        assert forall|j: int| 0 <= j < w implies occurrences(s, j) <= s.len() by {
            lemma_occurrences_le_len(s, j);
        }
        assert(occurrences(s, s.last() as int) == occurrences(t, s.last() as int) + 1);
        lemma_count_sum_shift(c, ct, s.last() as int, k);
        if forall|i: int| 0 <= i < s.len() ==> s[i] < k {
            assert forall|i: int| 0 <= i < t.len() implies t[i] < k by {
                assert(t[i] == s[i]);
            }
            assert(s.last() == s[s.len() - 1]);
        }
    }
}

/// A symbol that stands in `s` occurs in it.
proof fn lemma_occurs(s: Seq<u16>, i: int)
    requires
        0 <= i < s.len(),
    ensures
        occurrences(s, s[i] as int) > 0,
    decreases s.len(),
{
    if i < s.len() - 1 {
        lemma_occurs(s.drop_last(), i);
        assert(s.drop_last()[i] == s[i]);
    }
}

/// Counts that are all zero sum to zero.
proof fn lemma_count_sum_zero(c: Seq<u32>, k: int)
    requires
        0 <= k <= c.len(),
        forall|j: int| 0 <= j < c.len() ==> c[j] == 0,
    ensures
        count_sum(c, k) == 0,
    decreases k,
{
    if k > 0 {
        lemma_count_sum_zero(c, k - 1);
    }
}

/// Counts one higher at `a` sum one higher past `a`.
proof fn lemma_count_sum_shift(c: Seq<u32>, ct: Seq<u32>, a: int, k: int)
    requires
        0 <= k <= c.len(),
        c.len() == ct.len(),
        forall|j: int| 0 <= j < c.len() && j != a ==> c[j] == ct[j],
        0 <= a < c.len() ==> c[a] == ct[a] + 1,
    ensures
        count_sum(c, k) == count_sum(ct, k) + if 0 <= a < k { 1int } else { 0int },
    decreases k,
{
    if k > 0 {
        lemma_count_sum_shift(c, ct, a, k - 1);
    }
}

/// Each scaled count of a string of at most 4096 symbols is at least its
/// count, and the scaled counts sum to at most 4096 for every 4096 of the
/// total.
proof fn lemma_scaled_sum(counts: Seq<u32>, total: int, k: int)
    requires
        0 < total <= 4096,
        0 <= k <= counts.len(),
        forall|i: int| 0 <= i < counts.len() ==> counts[i] <= total,
    ensures
        sum_int(scaled_freqs(counts, total), k) * total <= 4096 * count_sum(counts, k),
        forall|i: int|
            0 <= i < counts.len() && counts[i] > 0 ==> #[trigger] scaled_freqs(counts, total)[i]
                >= counts[i],
    decreases k,
{
    let r = scaled_freqs(counts, total);
    assert forall|i: int| 0 <= i < counts.len() && counts[i] > 0 implies #[trigger] r[i] >= counts[i] by {
        let c = counts[i] as int;
        assert(c * 4096 / total >= c) by (nonlinear_arith)
            requires
                0 < total <= 4096,
                c > 0,
        ;
    }
    if k > 0 {
        lemma_scaled_sum(counts, total, k - 1);
        let c = counts[k - 1] as int;
        assert(r[k - 1] * total <= c * 4096) by {
            if c > 0 {
                assert(c * 4096 / total >= c) by (nonlinear_arith)
                    requires
                        0 < total <= 4096,
                        c > 0,
                ;
                assert((c * 4096 / total) * total <= c * 4096) by (nonlinear_arith)
                    requires
                        0 < total,
                        c >= 0,
                ;
            }
        }
        let a = sum_int(r, k - 1);
        let b = r[k - 1];
        assert(sum_int(r, k) == a + b);
        assert((a + b) * total == a * total + b * total) by (nonlinear_arith);
    }
}

/// The table's running sum is the running sum of the small values it holds.
proof fn lemma_cum_freq_base(r: Seq<int>, k: int)
    requires
        0 <= k <= r.len(),
        forall|i: int| 0 <= i < r.len() ==> 0 <= #[trigger] r[i] <= 4096,
    ensures
        cum_freq(Seq::new(r.len(), |i: int| r[i] as u16), k) == sum_int(r, k),
    decreases k,
{
    if k > 0 {
        lemma_cum_freq_base(r, k - 1);
    }
}

/// Changing one entry changes the running sums past it by the difference.
proof fn lemma_cum_freq_update(t: Seq<u16>, m: int, v: u16, k: int)
    requires
        0 <= m < t.len(),
        0 <= k <= t.len(),
    ensures
        cum_freq(t.update(m, v), k) == cum_freq(t, k) + if m < k { v - t[m] } else { 0int },
    decreases k,
{
    if k > 0 {
        lemma_cum_freq_update(t, m, v, k - 1);
    }
}

/// Where the counts sum to a total of at most 4096, the table fills the
/// scale and gives every counted symbol a share.
pub proof fn lemma_small_table(counts: Seq<u32>, total: int)
    requires
        0 < total <= 4096,
        counts.len() <= 0x1_0000,
        count_sum(counts, counts.len() as int) == total,
        forall|i: int| 0 <= i < counts.len() ==> counts[i] <= total,
    ensures
        table_complete(ans_table(counts, total)),
        forall|i: int| 0 <= i < counts.len() && counts[i] > 0 ==> #[trigger] ans_table(counts, total)[i] > 0,
{
    let n = counts.len() as int;
    let r = scaled_freqs(counts, total);
    lemma_scaled_sum(counts, total, n);
    let sum = sum_int(r, n);
    assert(sum <= 4096) by (nonlinear_arith)
        requires
            sum * total <= 4096 * total,
            total > 0,
    ;
    assert forall|i: int| 0 <= i < r.len() implies 0 <= #[trigger] r[i] <= 4096 by {
        lemma_scaled_freq_bound(counts[i] as int, total);
    }
    lemma_cum_freq_base(r, n);
    let base = Seq::new(r.len(), |i: int| r[i] as u16);
    if n > 0 {
        lemma_first_max_in_range(r, n);
    }
    let m = first_max(r, n).0;
    if sum != 4096 {
        assert(n > 0);
        lemma_sum_int_le(r, m, n);
        let v = (r[m] + 4096 - sum) as u16;
        assert(v as int == r[m] + 4096 - sum);
        lemma_cum_freq_update(base, m, v, n);
        assert(ans_table(counts, total) == base.update(m, v));
    }
}

/// One of the non-negative values is at most their sum.
proof fn lemma_sum_int_le(r: Seq<int>, m: int, k: int)
    requires
        0 <= m < k <= r.len(),
        forall|i: int| 0 <= i < r.len() ==> 0 <= #[trigger] r[i],
    ensures
        r[m] <= sum_int(r, k),
        sum_int(r, k) >= 0,
    decreases k,
{
    if k - 1 > m {
        lemma_sum_int_le(r, m, k - 1);
    } else {
        lemma_sum_int_nonneg(r, k - 1);
    }
}

proof fn lemma_sum_int_nonneg(r: Seq<int>, k: int)
    requires
        0 <= k <= r.len(),
        forall|i: int| 0 <= i < r.len() ==> 0 <= #[trigger] r[i],
    ensures
        sum_int(r, k) >= 0,
    decreases k,
{
    if k > 0 {
        lemma_sum_int_nonneg(r, k - 1);
    }
}

/// A byte string of one to 4096 bytes is taken by the byte coder and
/// decodes from what it wrote: the table then fills the scale and every
/// byte has a share.
pub proof fn law_ans_byte_short_roundtrip(s: Seq<u8>)
    requires
        s.len() <= 4096,
    ensures
        ans_byte_accepts(s),
        s.len() > 0 ==> table_complete(byte_table(s)),
        ans_byte_unframe(ans_byte_output(s)) == Some(s),
{
    let syms = byte_syms(s);
    let counts = byte_counts(s);
    if s.len() > 0 {
        assert forall|i: int| 0 <= i < syms.len() implies syms[i] < 256 by {}
        lemma_occurrence_sum(syms, 256, 256);
        assert forall|k: int| 0 <= k < 256 implies occurrences(syms, k) <= s.len() by {
            lemma_occurrences_le_len(syms, k);
        }
        assert forall|i: int| 0 <= i < counts.len() implies counts[i] <= s.len() by {
            lemma_occurrences_le_len(syms, i);
        }
        assert(count_sum(counts, 256) == s.len());
        lemma_small_table(counts, s.len() as int);
        assert forall|i: int| 0 <= i < s.len() implies byte_table(s)[s[i] as int] != 0 by {
            lemma_occurs(syms, i);
            assert(counts[s[i] as int] > 0);
        }
    }
    law_ans_byte_output_roundtrip(s);
}

/// A dictionary of `s` is no longer than `s`, and each value of `s` has a
/// rank within it.
proof fn lemma_dictionary_ranks(s: Seq<u64>, u: Seq<u64>)
    requires
        is_dictionary_of(u, s),
    ensures
        u.len() <= s.len(),
        forall|i: int| 0 <= i < s.len() ==> 0 <= #[trigger] rank_in(u, s[i]) < u.len(),
{
    assert forall|i: int| 0 <= i < s.len() implies 0 <= #[trigger] rank_in(u, s[i]) < u.len() by {
        assert(s.contains(s[i]));
        assert(u.contains(s[i]));
    }
    assert(u.no_duplicates()) by {
        assert forall|i: int, j: int| 0 <= i < u.len() && 0 <= j < u.len() && i != j implies u[i] != u[j] by {
            if i < j {
                assert(u[i] < u[j]);
            } else {
                assert(u[j] < u[i]);
            }
        }
    }
    u.unique_seq_to_set();
    s.lemma_cardinality_of_set();
    assert(u.to_set().subset_of(s.to_set())) by {
        assert forall|v: u64| u.to_set().contains(v) implies s.to_set().contains(v) by {
            assert(u.contains(v));
        }
    }
    vstd::seq_lib::seq_to_set_is_finite(s);
    vstd::set_lib::lemma_len_subset(u.to_set(), s.to_set());
}

/// One to 4096 values are taken by the 64-bit coder, and their rank table
/// fills the scale.
pub proof fn lemma_ans_u64_short(s: Seq<u64>)
    requires
        0 < s.len() <= 4096,
    ensures
        ans_u64_accepts(s),
        ans_u64_complete(s),
{
    assert forall|u: Seq<u64>| #[trigger] is_dictionary_of(u, s) implies {
        &&& u.len() <= 0x1_0000
        &&& forall|k: int| 0 <= k < u.len() ==> occurrences(ranks_of(s, u), k) <= u32::MAX
        &&& forall|i: int| 0 <= i < s.len() ==> rank_table(s, u)[ranks_of(s, u)[i] as int] != 0
        &&& table_complete(rank_table(s, u))
    } by {
        lemma_dictionary_ranks(s, u);
        let ranks = ranks_of(s, u);
        let counts = rank_counts(s, u);
        assert forall|i: int| 0 <= i < ranks.len() implies ranks[i] < u.len() by {
            assert(0 <= rank_in(u, s[i]) < u.len());
        }
        lemma_occurrence_sum(ranks, u.len() as int, u.len() as int);
        assert(counts =~= Seq::new(u.len(), |j: int| occurrences(ranks, j) as u32));
        assert forall|k: int| 0 <= k < u.len() implies occurrences(ranks, k) <= s.len() by {
            lemma_occurrences_le_len(ranks, k);
        }
        assert forall|i: int| 0 <= i < counts.len() implies counts[i] <= s.len() by {
            lemma_occurrences_le_len(ranks, i);
        }
        lemma_small_table(counts, s.len() as int);
        assert forall|i: int| 0 <= i < s.len() implies rank_table(s, u)[ranks[i] as int] != 0 by {
            lemma_occurs(ranks, i);
            assert(counts[ranks[i] as int] > 0);
        }
    }
}

// ---------------------------------------------------------------------------
// Strings of few distinct bytes fill the table
// ---------------------------------------------------------------------------
/// How many of the first `k` counts are not zero.
pub open spec fn used_count(counts: Seq<u32>, k: int) -> nat
    decreases k,
{
    if k <= 0 {
        0
    } else {
        used_count(counts, k - 1) + if counts[k - 1] > 0 {
            1nat
        } else {
            0nat
        }
    }
}

/// The largest value found first is at its index and no value exceeds it.
proof fn lemma_first_max_props(r: Seq<int>, k: int)
    requires
        1 <= k <= r.len(),
        forall|i: int| 0 <= i < r.len() ==> 0 <= #[trigger] r[i],
    ensures
        first_max(r, k).1 == r[first_max(r, k).0],
        forall|i: int| 0 <= i < k ==> #[trigger] r[i] <= first_max(r, k).1,
    decreases k,
{
    if k > 1 {
        lemma_first_max_props(r, k - 1);
    } else {
        assert(first_max(r, 0) == (0int, 0int));
    }
}

/// Each scaled count exceeds its share of 4096 by less than one, and only
/// where it was rounded up from nothing; none exceeds the largest.
proof fn lemma_scaled_sum_few(counts: Seq<u32>, total: int, k: int, top: int)
    requires
        0 < total,
        0 <= k <= counts.len(),
        forall|i: int| 0 <= i < counts.len() ==> counts[i] <= total,
        forall|i: int| 0 <= i < k ==> #[trigger] scaled_freqs(counts, total)[i] <= top,
    ensures
        sum_int(scaled_freqs(counts, total), k) * total <= 4096 * count_sum(counts, k) + total * used_count(
            counts,
            k,
        ),
        sum_int(scaled_freqs(counts, total), k) <= top * used_count(counts, k),
    decreases k,
{
    let r = scaled_freqs(counts, total);
    if k > 0 {
        lemma_scaled_sum_few(counts, total, k - 1, top);
        let c = counts[k - 1] as int;
        assert(r[k - 1] * total <= c * 4096 + if c > 0 { total } else { 0 }) by {
            if c > 0 {
                assert((c * 4096 / total) * total <= c * 4096) by (nonlinear_arith)
                    requires
                        0 < total,
                        c >= 0,
                ;
            }
        }
        let a = sum_int(r, k - 1);
        let b = r[k - 1];
        assert(sum_int(r, k) == a + b);
        assert((a + b) * total == a * total + b * total) by (nonlinear_arith);
        let u = used_count(counts, k - 1);
        assert(total * (u + 1) == total * u + total) by (nonlinear_arith);
        assert(top * (u + 1) == top * u + top) by (nonlinear_arith);
        assert(r[k - 1] <= top);
        assert(sum_int(r, k - 1) <= top * u);
        if c == 0 {
            assert(r[k - 1] == 0);
            assert(used_count(counts, k) == u);
            assert(sum_int(r, k) <= top * used_count(counts, k));
        } else {
            let w = used_count(counts, k);
            assert(w == u + 1);
            assert(top * w == top * u + top) by (nonlinear_arith)
                requires
                    w == u + 1,
            ;
            assert(total * w == total * u + total) by (nonlinear_arith)
                requires
                    w == u + 1,
            ;
        }
    } else {
        let w = used_count(counts, 0);
        assert(w == 0);
        assert(top * w == 0 && total * w == 0) by (nonlinear_arith)
            requires
                w == 0,
        ;
    }
}

/// Where at most 64 of the counts are not zero, the table fills the scale
/// and gives every counted symbol a share.
pub proof fn lemma_few_table(counts: Seq<u32>, total: int)
    requires
        0 < total,
        counts.len() <= 0x1_0000,
        count_sum(counts, counts.len() as int) == total,
        forall|i: int| 0 <= i < counts.len() ==> counts[i] <= total,
        used_count(counts, counts.len() as int) <= 64,
    ensures
        table_complete(ans_table(counts, total)),
        forall|i: int| 0 <= i < counts.len() && counts[i] > 0 ==> #[trigger] ans_table(counts, total)[i] > 0,
{
    let n = counts.len() as int;
    let r = scaled_freqs(counts, total);
    assert forall|i: int| 0 <= i < r.len() implies 0 <= #[trigger] r[i] <= 4096 by {
        lemma_scaled_freq_bound(counts[i] as int, total);
    }
    if n == 0 {
        assert(count_sum(counts, 0) == 0);
        assert(false);
    }
    lemma_first_max_props(r, n);
    lemma_first_max_in_range(r, n);
    let (m, top) = first_max(r, n);
    lemma_scaled_sum_few(counts, total, n, top);
    let sum = sum_int(r, n);
    let k = used_count(counts, n);
    assert(sum <= 4096 + k) by (nonlinear_arith)
        requires
            sum * total <= 4096 * total + total * k,
            total > 0,
    ;
    lemma_cum_freq_base(r, n);
    let base = Seq::new(r.len(), |i: int| r[i] as u16);
    // some count is not zero, so the largest scaled count is at least one
    lemma_some_count(counts, n);
    let j = choose|j: int| 0 <= j < n && counts[j] > 0;
    lemma_scaled_freq_bound(counts[j] as int, total);
    assert(r[j] >= 1);
    assert(r[j] <= top);
    if sum != 4096 {
        lemma_sum_int_le(r, m, n);
        if sum > 4096 {
            assert(top * k >= sum);
            assert(top > 64) by (nonlinear_arith)
                requires
                    top * k >= sum,
                    sum > 4096,
                    0 <= k <= 64,
            ;
        }
        let v = (r[m] + 4096 - sum) as u16;
        assert(v as int == r[m] + 4096 - sum);
        lemma_cum_freq_update(base, m, v, n);
        assert(ans_table(counts, total) == base.update(m, v));
        assert forall|i: int| 0 <= i < counts.len() && counts[i] > 0 implies #[trigger] ans_table(counts, total)[i]
            > 0 by {
            lemma_scaled_freq_bound(counts[i] as int, total);
        }
    } else {
        assert forall|i: int| 0 <= i < counts.len() && counts[i] > 0 implies #[trigger] ans_table(counts, total)[i]
            > 0 by {
            lemma_scaled_freq_bound(counts[i] as int, total);
        }
    }
}

/// Counts that sum to more than nothing hold one that is not zero.
proof fn lemma_some_count(counts: Seq<u32>, k: int)
    requires
        0 <= k <= counts.len(),
        count_sum(counts, k) > 0,
    ensures
        exists|j: int| 0 <= j < k && counts[j] > 0,
    decreases k,
{
    if k > 0 {
        if counts[k - 1] > 0 {
            assert(0 <= k - 1 < k && counts[k - 1] > 0);
        } else {
            lemma_some_count(counts, k - 1);
        }
    }
}

/// A byte string in which at most 64 distinct byte values occur is taken
/// by the byte coder and decodes from what it wrote: the table then fills
/// the scale and every byte has a share.
pub proof fn law_ans_byte_few_roundtrip(s: Seq<u8>)
    requires
        s.len() < u32::MAX,
        used_count(byte_counts(s), 256) <= 64,
    ensures
        ans_byte_accepts(s),
        s.len() > 0 ==> table_complete(byte_table(s)),
        ans_byte_unframe(ans_byte_output(s)) == Some(s),
{
    let syms = byte_syms(s);
    let counts = byte_counts(s);
    assert forall|k: int| 0 <= k < 256 implies occurrences(syms, k) <= s.len() by {
        lemma_occurrences_le_len(syms, k);
    }
    if s.len() > 0 {
        assert forall|i: int| 0 <= i < syms.len() implies syms[i] < 256 by {}
        lemma_occurrence_sum(syms, 256, 256);
        assert forall|i: int| 0 <= i < counts.len() implies counts[i] <= s.len() by {
            lemma_occurrences_le_len(syms, i);
        }
        assert(count_sum(counts, 256) == s.len());
        lemma_few_table(counts, s.len() as int);
        assert forall|i: int| 0 <= i < s.len() implies byte_table(s)[s[i] as int] != 0 by {
            lemma_occurs(syms, i);
            assert(counts[s[i] as int] > 0);
        }
    }
    law_ans_byte_output_roundtrip(s);
}

/// No more of the counts are not zero than there are counts.
proof fn lemma_used_count_le(counts: Seq<u32>, k: int)
    requires
        0 <= k,
    ensures
        used_count(counts, k) <= k,
    decreases k,
{
    if k > 0 {
        lemma_used_count_le(counts, k - 1);
    }
}

/// Values of which at most 64 are distinct, fewer than 2^32 of them, are
/// taken by the 64-bit coder, and their rank table fills the scale.
pub proof fn lemma_ans_u64_few(s: Seq<u64>)
    requires
        0 < s.len() < u32::MAX,
        s.to_set().len() <= 64,
    ensures
        ans_u64_accepts(s),
        ans_u64_complete(s),
{
    assert forall|u: Seq<u64>| #[trigger] is_dictionary_of(u, s) implies {
        &&& u.len() <= 0x1_0000
        &&& forall|k: int| 0 <= k < u.len() ==> occurrences(ranks_of(s, u), k) <= u32::MAX
        &&& forall|i: int| 0 <= i < s.len() ==> rank_table(s, u)[ranks_of(s, u)[i] as int] != 0
        &&& table_complete(rank_table(s, u))
    } by {
        lemma_dictionary_ranks(s, u);
        assert(u.no_duplicates()) by {
            assert forall|i: int, j: int| 0 <= i < u.len() && 0 <= j < u.len() && i != j implies u[i] != u[j] by {
                if i < j {
                    assert(u[i] < u[j]);
                } else {
                    assert(u[j] < u[i]);
                }
            }
        }
        u.unique_seq_to_set();
        assert(u.to_set() =~= s.to_set()) by {
            assert forall|v: u64| u.to_set().contains(v) <==> s.to_set().contains(v) by {
                assert(u.contains(v) <==> s.contains(v));
            }
        }
        let ranks = ranks_of(s, u);
        let counts = rank_counts(s, u);
        assert forall|i: int| 0 <= i < ranks.len() implies ranks[i] < u.len() by {
            assert(0 <= rank_in(u, s[i]) < u.len());
        }
        lemma_occurrence_sum(ranks, u.len() as int, u.len() as int);
        assert(counts =~= Seq::new(u.len(), |j: int| occurrences(ranks, j) as u32));
        assert forall|k: int| 0 <= k < u.len() implies occurrences(ranks, k) <= s.len() by {
            lemma_occurrences_le_len(ranks, k);
        }
        assert forall|i: int| 0 <= i < counts.len() implies counts[i] <= s.len() by {
            lemma_occurrences_le_len(ranks, i);
        }
        lemma_used_count_le(counts, u.len() as int);
        lemma_few_table(counts, s.len() as int);
        assert forall|i: int| 0 <= i < s.len() implies rank_table(s, u)[ranks[i] as int] != 0 by {
            lemma_occurs(ranks, i);
            assert(counts[ranks[i] as int] > 0);
        }
    }
}

/// Values whose every dictionary has at most 64 entries, fewer than 2^32
/// of them, are taken by the 64-bit coder, and their rank table fills the
/// scale.
pub proof fn lemma_ans_u64_small_dictionary(s: Seq<u64>)
    requires
        0 < s.len() < u32::MAX,
        forall|u: Seq<u64>| #[trigger] is_dictionary_of(u, s) ==> u.len() <= 64,
    ensures
        ans_u64_accepts(s),
        ans_u64_complete(s),
{
    assert forall|u: Seq<u64>| #[trigger] is_dictionary_of(u, s) implies {
        &&& u.len() <= 0x1_0000
        &&& forall|k: int| 0 <= k < u.len() ==> occurrences(ranks_of(s, u), k) <= u32::MAX
        &&& forall|i: int| 0 <= i < s.len() ==> rank_table(s, u)[ranks_of(s, u)[i] as int] != 0
        &&& table_complete(rank_table(s, u))
    } by {
        lemma_dictionary_ranks(s, u);
        let ranks = ranks_of(s, u);
        let counts = rank_counts(s, u);
        assert forall|i: int| 0 <= i < ranks.len() implies ranks[i] < u.len() by {
            assert(0 <= rank_in(u, s[i]) < u.len());
        }
        lemma_occurrence_sum(ranks, u.len() as int, u.len() as int);
        assert(counts =~= Seq::new(u.len(), |j: int| occurrences(ranks, j) as u32));
        assert forall|k: int| 0 <= k < u.len() implies occurrences(ranks, k) <= s.len() by {
            lemma_occurrences_le_len(ranks, k);
        }
        assert forall|i: int| 0 <= i < counts.len() implies counts[i] <= s.len() by {
            lemma_occurrences_le_len(ranks, i);
        }
        lemma_used_count_le(counts, u.len() as int);
        lemma_few_table(counts, s.len() as int);
        assert forall|i: int| 0 <= i < s.len() implies rank_table(s, u)[ranks[i] as int] != 0 by {
            lemma_occurs(ranks, i);
            assert(counts[ranks[i] as int] > 0);
        }
    }
}

// ---------------------------------------------------------------------------
// The table fills the scale whenever the rounding surplus can be absorbed
// ---------------------------------------------------------------------------
/// The scaled counts, rounded down and each counted symbol kept at one or
/// more, add up to at most 4096 plus less than the scaled count of some
/// counted symbol: the most frequent symbol can then take up the
/// difference to 4096.
pub open spec fn surplus_absorbed(counts: Seq<u32>, total: int) -> bool {
    exists|j: int|
        0 <= j < counts.len() && counts[j] > 0 && sum_int(scaled_freqs(counts, total), counts.len() as int)
            - 4096 < #[trigger] scaled_freqs(counts, total)[j]
}

/// The normalized table fills the scale exactly and gives every counted
/// symbol a share, for counts of any total and any alphabet, wherever the
/// rounding surplus can be absorbed by some symbol: in particular wherever
/// the rounded counts do not exceed 4096.
pub proof fn law_ans_table_fills(counts: Seq<u32>, total: int)
    requires
        0 < total,
        counts.len() <= 0x1_0000,
        forall|i: int| 0 <= i < counts.len() ==> counts[i] <= total,
        surplus_absorbed(counts, total),
    ensures
        table_complete(ans_table(counts, total)),
        forall|i: int| 0 <= i < counts.len() && counts[i] > 0 ==> #[trigger] ans_table(counts, total)[i] > 0,
        ans_table(counts, total).len() == counts.len(),
{
    let n = counts.len() as int;
    let r = scaled_freqs(counts, total);
    assert forall|i: int| 0 <= i < r.len() implies 0 <= #[trigger] r[i] <= 4096 by {
        lemma_scaled_freq_bound(counts[i] as int, total);
    }
    let j = choose|j: int|
        0 <= j < counts.len() && counts[j] > 0 && sum_int(r, n) - 4096 < #[trigger] r[j];
    lemma_first_max_props(r, n);
    lemma_first_max_in_range(r, n);
    let (m, top) = first_max(r, n);
    assert(r[j] <= top);
    let sum = sum_int(r, n);
    lemma_cum_freq_base(r, n);
    let base = Seq::new(r.len(), |i: int| r[i] as u16);
    if sum != 4096 {
        lemma_sum_int_le(r, m, n);
        let v = (r[m] + 4096 - sum) as u16;
        assert(v as int == r[m] + 4096 - sum);
        lemma_cum_freq_update(base, m, v, n);
        assert(ans_table(counts, total) == base.update(m, v));
    }
    assert forall|i: int| 0 <= i < counts.len() && counts[i] > 0 implies #[trigger] ans_table(counts, total)[i]
        > 0 by {
        lemma_scaled_freq_bound(counts[i] as int, total);
    }
}

/// Counts whose scaled values add up to at most 4096 leave a surplus that
/// any counted symbol absorbs.
pub proof fn lemma_within_scale_absorbed(counts: Seq<u32>, total: int)
    requires
        0 < total,
        forall|i: int| 0 <= i < counts.len() ==> counts[i] <= total,
        exists|j: int| 0 <= j < counts.len() && counts[j] > 0,
        sum_int(scaled_freqs(counts, total), counts.len() as int) <= 4096,
    ensures
        surplus_absorbed(counts, total),
{
    let j = choose|j: int| 0 <= j < counts.len() && counts[j] > 0;
    lemma_scaled_freq_bound(counts[j] as int, total);
    assert(scaled_freqs(counts, total)[j] >= 1);
}

/// A byte string of fewer than 2^32 bytes, some byte of which has a scaled
/// count larger than the rounding surplus, is taken by the byte coder and
/// decodes from what it wrote, however long it is and however many byte
/// values it uses.
pub proof fn law_ans_byte_absorbed_roundtrip(s: Seq<u8>)
    requires
        s.len() < u32::MAX,
        s.len() > 0 ==> surplus_absorbed(byte_counts(s), s.len() as int),
    ensures
        ans_byte_accepts(s),
        s.len() > 0 ==> table_complete(byte_table(s)),
        ans_byte_unframe(ans_byte_output(s)) == Some(s),
{
    let syms = byte_syms(s);
    let counts = byte_counts(s);
    assert forall|k: int| 0 <= k < 256 implies occurrences(syms, k) <= s.len() by {
        lemma_occurrences_le_len(syms, k);
    }
    if s.len() > 0 {
        assert forall|i: int| 0 <= i < counts.len() implies counts[i] <= s.len() by {
            lemma_occurrences_le_len(syms, i);
        }
        law_ans_table_fills(counts, s.len() as int);
        assert forall|i: int| 0 <= i < s.len() implies byte_table(s)[s[i] as int] != 0 by {
            lemma_occurs(syms, i);
            assert(counts[s[i] as int] > 0);
        }
    }
    law_ans_byte_output_roundtrip(s);
}

/// Values of at most 65536 distinct kinds, fewer than 2^32 of them, whose
/// rank counts leave a rounding surplus that some value absorbs, are taken
/// by the 64-bit coder and their rank table fills the scale, however many
/// values and kinds there are.
pub proof fn law_ans_u64_absorbed(s: Seq<u64>)
    requires
        0 < s.len() < u32::MAX,
        s.to_set().len() <= 0x1_0000,
        forall|u: Seq<u64>| #[trigger] is_dictionary_of(u, s) ==> surplus_absorbed(rank_counts(s, u), s.len() as int),
    ensures
        ans_u64_accepts(s),
        ans_u64_complete(s),
{
    assert forall|u: Seq<u64>| #[trigger] is_dictionary_of(u, s) implies {
        &&& u.len() <= 0x1_0000
        &&& forall|k: int| 0 <= k < u.len() ==> occurrences(ranks_of(s, u), k) <= u32::MAX
        &&& forall|i: int| 0 <= i < s.len() ==> rank_table(s, u)[ranks_of(s, u)[i] as int] != 0
        &&& table_complete(rank_table(s, u))
    } by {
        lemma_dictionary_ranks(s, u);
        assert(u.no_duplicates()) by {
            assert forall|i: int, j: int| 0 <= i < u.len() && 0 <= j < u.len() && i != j implies u[i] != u[j] by {
                if i < j {
                    assert(u[i] < u[j]);
                } else {
                    assert(u[j] < u[i]);
                }
            }
        }
        u.unique_seq_to_set();
        assert(u.to_set() =~= s.to_set()) by {
            assert forall|v: u64| u.to_set().contains(v) <==> s.to_set().contains(v) by {
                assert(u.contains(v) <==> s.contains(v));
            }
        }
        let ranks = ranks_of(s, u);
        let counts = rank_counts(s, u);
        assert forall|k: int| 0 <= k < u.len() implies occurrences(ranks, k) <= s.len() by {
            lemma_occurrences_le_len(ranks, k);
        }
        assert forall|i: int| 0 <= i < counts.len() implies counts[i] <= s.len() by {
            lemma_occurrences_le_len(ranks, i);
        }
        law_ans_table_fills(counts, s.len() as int);
        assert forall|i: int| 0 <= i < s.len() implies rank_table(s, u)[ranks[i] as int] != 0 by {
            assert(0 <= rank_in(u, s[i]) < u.len());
            lemma_occurs(ranks, i);
            assert(counts[ranks[i] as int] > 0);
        }
    }
}

} // verus!
