//! Adaptive arithmetic coding: a byte frequency table that learns as it
//! goes, a binary range coder, and the context models around them.
use crate::bijection::Bijection;
use crate::bytes::{from_le_u32, le_u32, push_u32_le, read_u32_le};
use std::collections::HashMap;
use crate::bitops::{lemma_double, lemma_pack_bit, lemma_u8_bit};
use vstd::prelude::*;

verus! {

// ---------------------------------------------------------------------------
// Context models
// ---------------------------------------------------------------------------
/// Symbol counts without context; the probability it gives (with Laplace
/// smoothing) is `(count + 1) / (total + num_symbols)`.
pub struct Order0Model {
    counts: Vec<u32>,
    total: u32,
    num_symbols: u32,
}

impl Order0Model {
    /// The count of each byte value.
    pub closed spec fn counts(&self) -> Seq<u32> {
        self.counts@
    }

    pub closed spec fn total_count(&self) -> u32 {
        self.total
    }

    pub closed spec fn symbols(&self) -> u32 {
        self.num_symbols
    }

    pub open spec fn wf(&self) -> bool {
        self.counts().len() == 256
    }

    pub fn new(num_symbols: u32) -> (m: Self)
        ensures
            m.wf(),
            m.counts() == Seq::new(256, |i: int| 0u32),
            m.total_count() == 0,
            m.symbols() == num_symbols,
    {
        Order0Model { counts: vec![0u32; 256], total: 0, num_symbols }
    }

    /// Counts one more `symbol`.
    pub fn update(&mut self, symbol: u8)
        requires
            old(self).wf(),
            old(self).counts()[symbol as int] < u32::MAX,
            old(self).total_count() < u32::MAX,
        ensures
            final(self).wf(),
            final(self).counts() == old(self).counts().update(
                symbol as int,
                (old(self).counts()[symbol as int] + 1) as u32,
            ),
            final(self).total_count() == old(self).total_count() + 1,
            final(self).symbols() == old(self).symbols(),
    {
        let s = symbol as usize;
        self.counts.set(s, self.counts[s] + 1);
        self.total += 1;
    }

    pub fn count(&self, symbol: u8) -> (c: u32)
        requires
            self.wf(),
        ensures
            c == self.counts()[symbol as int],
    {
        self.counts[symbol as usize]
    }

    pub fn total(&self) -> (t: u32)
        ensures
            t == self.total_count(),
    {
        self.total
    }

    pub fn num_symbols(&self) -> (n: u32)
        ensures
            n == self.symbols(),
    {
        self.num_symbols
    }
}

/// One order-0 model per previous symbol.
pub struct Order1Model {
    contexts: HashMap<u8, Order0Model>,
    num_symbols: u32,
}

impl Order1Model {
    /// The model of each context seen so far.
    pub closed spec fn contexts(&self) -> Map<u8, Order0Model> {
        self.contexts@
    }

    pub closed spec fn symbols(&self) -> u32 {
        self.num_symbols
    }

    pub closed spec fn wf(&self) -> bool {
        forall|c: u8| #[trigger] self.contexts@.contains_key(c) ==> self.contexts@[c].wf()
            && self.contexts@[c].symbols() == self.num_symbols
    }

    pub fn new(num_symbols: u32) -> (m: Self)
        ensures
            m.wf(),
            m.contexts() == Map::<u8, Order0Model>::empty(),
            m.symbols() == num_symbols,
    {
        Order1Model { contexts: HashMap::new(), num_symbols }
    }

    /// The model for `context`, if that context was seen.
    pub fn context_model(&self, context: u8) -> (m: Option<&Order0Model>)
        ensures
            m matches Some(r) ==> self.contexts().contains_key(context) && *r == self.contexts()[context],
            m is None ==> !self.contexts().contains_key(context),
    {
        broadcast use vstd::std_specs::hash::group_hash_axioms;

        self.contexts.get(&context)
    }

    pub fn num_symbols(&self) -> (n: u32)
        ensures
            n == self.symbols(),
    {
        self.num_symbols
    }

    /// Counts `symbol` in `context`, starting an empty model for a new
    /// context.
    pub fn update(&mut self, context: u8, symbol: u8)
        requires
            old(self).wf(),
            old(self).contexts().contains_key(context) ==> {
                &&& old(self).contexts()[context].counts()[symbol as int] < u32::MAX
                &&& old(self).contexts()[context].total_count() < u32::MAX
            },
        ensures
            final(self).wf(),
            final(self).symbols() == old(self).symbols(),
            final(self).contexts().dom() == old(self).contexts().dom().insert(context),
            forall|c: u8| #[trigger] final(self).contexts().contains_key(c) && c != context
                ==> final(self).contexts()[c] == old(self).contexts()[c],
            ({
                let before = if old(self).contexts().contains_key(context) {
                    old(self).contexts()[context].counts()
                } else {
                    Seq::new(256, |i: int| 0u32)
                };
                let before_total = if old(self).contexts().contains_key(context) {
                    old(self).contexts()[context].total_count() as int
                } else {
                    0
                };
                let m = final(self).contexts()[context];
                &&& m.counts() == before.update(symbol as int, (before[symbol as int] + 1) as u32)
                &&& m.total_count() == before_total + 1
                &&& m.symbols() == old(self).symbols()
            }),
    {
        broadcast use vstd::std_specs::hash::group_hash_axioms;

        let mut model = match self.contexts.remove(&context) {
            Some(m) => m,
            None => Order0Model::new(self.num_symbols),
        };
        model.update(symbol);
        self.contexts.insert(context, model);
        proof {
            assert(self.contexts@.dom() =~= old(self).contexts@.dom().insert(context));
        }
    }
}

/// Order-0 and order-1 models together; the probability it gives is the
/// average of the two, the order-1 model falling back to uniform for an
/// unseen context.
pub struct AdaptiveMixer {
    order0: Order0Model,
    order1: Order1Model,
    prev_symbol: u8,
    context_quantize: u8,
}

impl AdaptiveMixer {
    pub closed spec fn order0_spec(&self) -> Order0Model {
        self.order0
    }

    pub closed spec fn order1_spec(&self) -> Order1Model {
        self.order1
    }

    pub closed spec fn prev(&self) -> u8 {
        self.prev_symbol
    }

    pub closed spec fn quantize(&self) -> u8 {
        self.context_quantize
    }

    pub closed spec fn wf(&self) -> bool {
        self.order0.wf() && self.order1.wf() && self.order1.symbols() == self.order0.symbols()
    }

    /// The context for the order-1 model: the previous symbol, capped below
    /// the quantization.
    pub open spec fn context_of(prev: u8, quantize: u8) -> u8 {
        if prev < quantize - 1 {
            prev
        } else {
            (quantize - 1) as u8
        }
    }

    pub fn new(num_symbols: u32, context_quantize: u8) -> (m: Self)
        ensures
            m.wf(),
            m.order0_spec().counts() == Seq::new(256, |i: int| 0u32),
            m.order0_spec().total_count() == 0,
            m.order0_spec().symbols() == num_symbols,
            m.order1_spec().contexts() == Map::<u8, Order0Model>::empty(),
            m.prev() == 0,
            m.quantize() == context_quantize,
    {
        AdaptiveMixer {
            order0: Order0Model::new(num_symbols),
            order1: Order1Model::new(num_symbols),
            prev_symbol: 0,
            context_quantize,
        }
    }

    fn quantized_context(&self) -> (c: u8)
        requires
            self.context_quantize > 0,
        ensures
            c == Self::context_of(self.prev_symbol, self.context_quantize),
    {
        let cap = self.context_quantize - 1;
        if self.prev_symbol < cap {
            self.prev_symbol
        } else {
            cap
        }
    }

    /// The context that the order-1 model is consulted in.
    pub fn context(&self) -> (c: u8)
        requires
            self.quantize() > 0,
        ensures
            c == Self::context_of(self.prev(), self.quantize()),
    {
        self.quantized_context()
    }

    /// The number of contexts the previous symbol is capped to.
    pub fn quantization(&self) -> (q: u8)
        ensures
            q == self.quantize(),
    {
        self.context_quantize
    }

    pub fn order0(&self) -> (m: &Order0Model)
        ensures
            *m == self.order0_spec(),
    {
        &self.order0
    }

    pub fn order1(&self) -> (m: &Order1Model)
        ensures
            *m == self.order1_spec(),
    {
        &self.order1
    }

    /// Counts `symbol` in both models and makes it the previous symbol.
    pub fn update(&mut self, symbol: u8)
        requires
            old(self).wf(),
            old(self).quantize() > 0,
            old(self).order0_spec().counts()[symbol as int] < u32::MAX,
            old(self).order0_spec().total_count() < u32::MAX,
            ({
                let ctx = Self::context_of(old(self).prev(), old(self).quantize());
                old(self).order1_spec().contexts().contains_key(ctx) ==> {
                    &&& old(self).order1_spec().contexts()[ctx].counts()[symbol as int] < u32::MAX
                    &&& old(self).order1_spec().contexts()[ctx].total_count() < u32::MAX
                }
            }),
        ensures
            final(self).wf(),
            final(self).prev() == symbol,
            final(self).quantize() == old(self).quantize(),
            final(self).order0_spec().counts() == old(self).order0_spec().counts().update(
                symbol as int,
                (old(self).order0_spec().counts()[symbol as int] + 1) as u32,
            ),
            final(self).order0_spec().total_count() == old(self).order0_spec().total_count() + 1,
            ({
                let ctx = Self::context_of(old(self).prev(), old(self).quantize());
                let before = old(self).order1_spec().contexts();
                let after = final(self).order1_spec().contexts();
                let prior = if before.contains_key(ctx) {
                    before[ctx].counts()
                } else {
                    Seq::new(256, |i: int| 0u32)
                };
                let prior_total = if before.contains_key(ctx) {
                    before[ctx].total_count() as int
                } else {
                    0
                };
                &&& after.dom() == before.dom().insert(ctx)
                &&& forall|c: u8| #[trigger] after.contains_key(c) && c != ctx ==> after[c] == before[c]
                &&& after[ctx].counts() == prior.update(symbol as int, (prior[symbol as int] + 1) as u32)
                &&& after[ctx].total_count() == prior_total + 1
                &&& after[ctx].symbols() == old(self).order1_spec().symbols()
            }),
            final(self).order0_spec().symbols() == old(self).order0_spec().symbols(),
            final(self).order1_spec().symbols() == old(self).order1_spec().symbols(),
    {
        let ctx = self.quantized_context();
        self.order0.update(symbol);
        self.order1.update(ctx, symbol);
        self.prev_symbol = symbol;
    }
}

// ---------------------------------------------------------------------------
// Frequency table
// ---------------------------------------------------------------------------
/// The total above which the table halves its counts.
pub const TABLE_LIMIT: u32 = 16384;

/// The sum of the first `k` frequencies.
pub open spec fn freq_prefix(f: Seq<u32>, k: int) -> int
    decreases k,
{
    if k <= 0 {
        0
    } else {
        freq_prefix(f, k - 1) + f[k - 1]
    }
}

/// Every count halved, rounding up.
pub open spec fn halved(f: Seq<u32>) -> Seq<u32> {
    f.map_values(|x: u32| ((x + 1) / 2) as u32)
}

/// The table after seeing `sym`: its count goes up by one, and all counts
/// are halved once the total passes the limit.
pub open spec fn table_after(f: Seq<u32>, sym: int) -> Seq<u32> {
    let g = f.update(sym, (f[sym] + 1) as u32);
    if freq_prefix(g, 256) > TABLE_LIMIT {
        halved(g)
    } else {
        g
    }
}

/// A table as the coder keeps it: 256 counts, none zero, adding up to no
/// more than the limit.
pub open spec fn table_ok(f: Seq<u32>) -> bool {
    &&& f.len() == 256
    &&& forall|i: int| 0 <= i < 256 ==> f[i] >= 1
    &&& freq_prefix(f, 256) <= TABLE_LIMIT
}

/// The first symbol whose range ends above `v`; 256 where none does.
pub open spec fn first_above(f: Seq<u32>, v: int, s: int) -> int
    decreases 256 - s,
{
    if s >= 256 {
        256
    } else if freq_prefix(f, s + 1) > v {
        s
    } else {
        first_above(f, v, s + 1)
    }
}

/// The table's initial counts: one each.
pub open spec fn initial_table() -> Seq<u32> {
    Seq::new(256, |i: int| 1u32)
}

/// Byte counts with Laplace smoothing, rescaled when they grow large.
pub struct FrequencyTable {
    freqs: Vec<u32>,
    cum_freqs: Vec<u32>,
    total: u32,
}

impl View for FrequencyTable {
    type V = Seq<u32>;

    closed spec fn view(&self) -> Seq<u32> {
        self.freqs@
    }
}

pub proof fn lemma_freq_prefix_mono(f: Seq<u32>, j: int, k: int)
    requires
        0 <= j <= k <= f.len(),
    ensures
        freq_prefix(f, j) <= freq_prefix(f, k),
        (forall|i: int| 0 <= i < f.len() ==> #[trigger] f[i] >= 1) ==> freq_prefix(f, j) + (k - j)
            <= freq_prefix(f, k),
    decreases k - j,
{
    if j < k {
        lemma_freq_prefix_mono(f, j, k - 1);
    }
}

pub proof fn lemma_freq_prefix_update(f: Seq<u32>, sym: int, v: u32, k: int)
    requires
        0 <= sym < f.len(),
        0 <= k <= f.len(),
    ensures
        freq_prefix(f.update(sym, v), k) == freq_prefix(f, k) + if sym < k {
            v - f[sym]
        } else {
            0
        },
    decreases k,
{
    if k > 0 {
        lemma_freq_prefix_update(f, sym, v, k - 1);
    }
}

pub proof fn lemma_halved_ok(g: Seq<u32>, k: int)
    requires
        g.len() == 256,
        0 <= k <= 256,
        forall|i: int| 0 <= i < 256 ==> g[i] >= 1,
    ensures
        2 * freq_prefix(halved(g), k) <= freq_prefix(g, k) + k,
    decreases k,
{
    if k > 0 {
        lemma_halved_ok(g, k - 1);
    }
}

/// Every table that the coder keeps has 256 counts, none zero, adding up
/// to no more than the limit; its running sums and total are those of its
/// counts, as its getters say.
pub proof fn law_table_invariant(t: &FrequencyTable)
    requires
        t.wf(),
    ensures
        table_ok(t@),
{
}

impl FrequencyTable {
    pub closed spec fn wf(&self) -> bool {
        &&& table_ok(self.freqs@)
        &&& self.cum_freqs@.len() == 257
        &&& forall|k: int| 0 <= k <= 256 ==> #[trigger] self.cum_freqs@[k] == freq_prefix(self.freqs@, k)
        &&& self.total == freq_prefix(self.freqs@, 256)
    }

    /// The running sums of the counts, recomputed.
    fn rebuild(&mut self)
        requires
            old(self).freqs@.len() == 256,
            old(self).cum_freqs@.len() == 257,
            freq_prefix(old(self).freqs@, 256) <= u32::MAX,
        ensures
            final(self).freqs@ == old(self).freqs@,
            final(self).total == old(self).total,
            final(self).cum_freqs@.len() == 257,
            forall|k: int| 0 <= k <= 256 ==> #[trigger] final(self).cum_freqs@[k] == freq_prefix(final(self).freqs@, k),
    {
        self.cum_freqs.set(0, 0);
        let mut i: usize = 0;
        while i < 256
            invariant
                i <= 256,
                self.freqs@ == old(self).freqs@,
                self.total == old(self).total,
                self.freqs@.len() == 256,
                self.cum_freqs@.len() == 257,
                freq_prefix(self.freqs@, 256) <= u32::MAX,
                forall|k: int| 0 <= k <= i ==> #[trigger] self.cum_freqs@[k] == freq_prefix(self.freqs@, k),
            decreases 256 - i,
        {
            proof {
                lemma_freq_prefix_mono(self.freqs@, i + 1, 256);
            }
            let next = self.cum_freqs[i] + self.freqs[i];
            self.cum_freqs.set(i + 1, next);
            i += 1;
        }
    }

    pub fn new() -> (table: Self)
        ensures
            table.wf(),
            table@ == initial_table(),
            table_ok(table@),
    {
        let mut table = FrequencyTable { freqs: vec![1u32; 256], cum_freqs: vec![0u32; 257], total: 256 };
        proof {
            assert(table.freqs@ == initial_table());
            lemma_initial_prefix(256);
        }
        table.rebuild();
        table
    }

    /// Counts one more `symbol`, halving all counts once the total passes
    /// the limit.
    pub fn update(&mut self, symbol: u8)
        requires
            old(self).wf(),
        ensures
            final(self).wf(),
            final(self)@ == table_after(old(self)@, symbol as int),
            table_ok(final(self)@),
    {
        let s = symbol as usize;
        let ghost f = self.freqs@;
        proof {
            lemma_freq_prefix_mono(f, 0, s as int);
            lemma_freq_prefix_mono(f, s + 1, 256);
            assert(freq_prefix(f, s + 1) == freq_prefix(f, s as int) + f[s as int]);
            lemma_freq_prefix_update(f, s as int, (f[s as int] + 1) as u32, 256);
        }
        self.freqs.set(s, self.freqs[s] + 1);
        self.total += 1;
        self.rebuild();
        if self.total > TABLE_LIMIT {
            self.rescale();
        }
    }

    fn rescale(&mut self)
        requires
            old(self).freqs@.len() == 256,
            old(self).cum_freqs@.len() == 257,
            forall|i: int| 0 <= i < 256 ==> old(self).freqs@[i] >= 1,
            old(self).total == freq_prefix(old(self).freqs@, 256),
            old(self).total == TABLE_LIMIT + 1,
        ensures
            final(self).freqs@ == halved(old(self).freqs@),
            final(self).wf(),
    {
        let ghost g = self.freqs@;
        self.total = 0;
        let mut i: usize = 0;
        while i < 256
            invariant
                i <= 256,
                self.freqs@.len() == 256,
                self.cum_freqs@.len() == 257,
                forall|k: int| 0 <= k < 256 ==> g[k] >= 1,
                g.len() == 256,
                freq_prefix(g, 256) == TABLE_LIMIT + 1,
                forall|k: int| 0 <= k < i ==> self.freqs@[k] == halved(g)[k],
                forall|k: int| i <= k < 256 ==> self.freqs@[k] == g[k],
                self.total == freq_prefix(halved(g), i as int),
            decreases 256 - i,
        {
            proof {
                lemma_halved_ok(g, i + 1);
                lemma_freq_prefix_mono(g, i + 1, 256);
            }
            let f = (self.freqs[i] + 1) / 2;
            self.freqs.set(i, f);
            self.total += f;
            i += 1;
        }
        assert(self.freqs@ == halved(g));
        proof {
            lemma_halved_ok(g, 256);
        }
        self.rebuild();
    }

    pub fn get_freq(&self, symbol: u8) -> (f: u32)
        requires
            self.wf(),
        ensures
            f == self@[symbol as int],
    {
        self.freqs[symbol as usize]
    }

    pub fn get_cum_freq(&self, symbol: u8) -> (c: u32)
        requires
            self.wf(),
        ensures
            c == freq_prefix(self@, symbol as int),
    {
        self.cum_freqs[symbol as usize]
    }

    pub fn get_total(&self) -> (t: u32)
        requires
            self.wf(),
        ensures
            t == freq_prefix(self@, 256),
    {
        self.total
    }

    /// The symbol whose range holds `cum` (by binary search); 0 where `cum`
    /// is at or past the total.
    pub fn find_symbol(&self, cum: u32) -> (s: u8)
        requires
            self.wf(),
        ensures
            s == first_above(self@, cum as int, 0) as u8,
    {
        let mut lo: usize = 0;
        let mut hi: usize = 256;
        while lo < hi
            invariant
                self.wf(),
                0 <= lo <= hi <= 256,
                forall|k: int| 1 <= k <= lo ==> #[trigger] freq_prefix(self@, k) <= cum,
                forall|k: int| hi < k <= 256 ==> #[trigger] freq_prefix(self@, k) > cum,
            decreases hi - lo,
        {
            let mid = (lo + hi) / 2;
            proof {
                assert forall|k: int| 1 <= k <= mid + 1 implies #[trigger] freq_prefix(self@, k) <= freq_prefix(self@, mid + 1) by {
                    lemma_freq_prefix_mono(self@, k, mid + 1);
                }
                assert forall|k: int| mid < k <= 256 implies freq_prefix(self@, mid + 1) <= #[trigger] freq_prefix(self@, k) by {
                    lemma_freq_prefix_mono(self@, mid + 1, k);
                }
            }
            if self.cum_freqs[mid + 1] <= cum {
                lo = mid + 1;
            } else {
                hi = mid;
            }
        }
        proof {
            lemma_first_above_is(self@, cum as int, 0, lo as int);
        }
        lo as u8
    }
}

proof fn lemma_initial_prefix(k: int)
    requires
        0 <= k <= 256,
    ensures
        freq_prefix(initial_table(), k) == k,
    decreases k,
{
    if k > 0 {
        lemma_initial_prefix(k - 1);
    }
}

proof fn lemma_first_above_is(f: Seq<u32>, v: int, s: int, r: int)
    requires
        0 <= s <= r <= 256,
        forall|k: int| 1 <= k <= r ==> #[trigger] freq_prefix(f, k) <= v,
        r < 256 ==> freq_prefix(f, r + 1) > v,
    ensures
        first_above(f, v, s) == r,
    decreases 256 - s,
{
    if s < r {
        lemma_first_above_is(f, v, s + 1, r);
    }
}

// ---------------------------------------------------------------------------
// Range coder
// ---------------------------------------------------------------------------
pub const HALF: u64 = 0x8000_0000;

pub const QUARTER: u64 = 0x4000_0000;

pub const THREE_QUARTERS: u64 = 0xC000_0000;

pub const TOP: u64 = 0xFFFF_FFFF;

/// `[low, high]` is an interval of 32-bit values.
pub open spec fn interval_ok(low: int, high: int) -> bool {
    0 <= low <= high <= TOP
}

/// The interval narrowed to the symbol that takes `[cum, cum + freq)` of
/// `total`.
pub open spec fn narrow(low: int, high: int, cum: int, freq: int, total: int) -> (int, int) {
    let range = high - low + 1;
    (low + range * cum / total, low + range * (cum + freq) / total - 1)
}

/// `bit`, then `pending` copies of its opposite.
pub open spec fn emit(bit: bool, pending: nat, bits: Seq<u8>) -> Seq<u8> {
    bits.push(if bit { 1u8 } else { 0u8 }) + Seq::new(pending, |i: int| if bit { 0u8 } else { 1u8 })
}

/// The encoder's state: interval, pending opposite bits, bits so far.
pub struct EncoderState {
    pub low: int,
    pub high: int,
    pub pending: nat,
    pub bits: Seq<u8>,
}

/// Widening the interval while it lies in one half, or straddles the
/// middle inside the middle half; bits go out as the halves are decided.
pub open spec fn enc_normalize(st: EncoderState) -> EncoderState
    decreases 0x1_0000_0000 - (st.high - st.low),
{
    let (low, high) = (st.low, st.high);
    if !interval_ok(low, high) {
        st
    } else if high < HALF {
        enc_normalize(EncoderState { low: 2 * low, high: 2 * high + 1, pending: 0, bits: emit(false, st.pending, st.bits) })
    } else if low >= HALF {
        enc_normalize(
            EncoderState {
                low: 2 * (low - HALF),
                high: 2 * (high - HALF) + 1,
                pending: 0,
                bits: emit(true, st.pending, st.bits),
            },
        )
    } else if low >= QUARTER && high < THREE_QUARTERS {
        enc_normalize(
            EncoderState {
                low: 2 * (low - QUARTER),
                high: 2 * (high - QUARTER) + 1,
                pending: st.pending + 1,
                bits: st.bits,
            },
        )
    } else {
        st
    }
}

/// Encoding one symbol.
pub open spec fn enc_step(st: EncoderState, cum: int, freq: int, total: int) -> EncoderState {
    let (low, high) = narrow(st.low, st.high, cum, freq, total);
    enc_normalize(EncoderState { low, high, pending: st.pending, bits: st.bits })
}

/// The encoder's final bits: the deciding bit and what is pending.
pub open spec fn enc_final_bits(st: EncoderState) -> Seq<u8> {
    emit(st.low >= QUARTER, st.pending + 1, st.bits)
}

/// Byte `j` of the bits packed most significant first.
pub open spec fn packed_byte(bits: Seq<u8>, j: int, i: int) -> int
    decreases i,
{
    if i <= 0 {
        0
    } else {
        let k = 8 * j + i - 1;
        packed_byte(bits, j, i - 1) + if k < bits.len() {
            bits[k] * vstd::arithmetic::power2::pow2((8 - i) as nat)
        } else {
            0
        }
    }
}

/// The bits packed eight to a byte, most significant first, the last byte
/// filled from the top.
pub open spec fn pack_bits(bits: Seq<u8>) -> Seq<u8> {
    Seq::new(((bits.len() + 7) / 8) as nat, |j: int| packed_byte(bits, j, 8) as u8)
}

/// What `finish` returns: the bit count, then the packed bits.
pub open spec fn enc_output(st: EncoderState) -> Seq<u8> {
    let bits = enc_final_bits(st);
    le_u32(bits.len() as u32) + pack_bits(bits)
}

/// A binary arithmetic coder over 32-bit intervals.
pub struct RangeEncoder {
    low: u64,
    high: u64,
    pending_bits: u32,
    output: Vec<u8>,
}

impl RangeEncoder {
    pub closed spec fn state(&self) -> EncoderState {
        EncoderState {
            low: self.low as int,
            high: self.high as int,
            pending: self.pending_bits as nat,
            bits: self.output@,
        }
    }

    /// The interval is normalized, every output entry is a bit, and there
    /// is room for another symbol's pending bits.
    pub closed spec fn wf(&self) -> bool {
        &&& interval_ok(self.low as int, self.high as int)
        &&& self.high - self.low + 1 > QUARTER
        &&& forall|i: int| 0 <= i < self.output@.len() ==> self.output@[i] <= 1
    }

    /// How many more pending bits the encoder can hold.
    pub closed spec fn pending_room(&self) -> int {
        u32::MAX - self.pending_bits
    }

    pub fn new() -> (enc: Self)
        ensures
            enc.wf(),
            enc.state() == (EncoderState { low: 0, high: TOP as int, pending: 0, bits: Seq::empty() }),
            enc.pending_room() == u32::MAX,
    {
        RangeEncoder { low: 0, high: 0xFFFFFFFF, pending_bits: 0, output: Vec::new() }
    }

    fn output_bit(&mut self, bit: bool)
        ensures
            final(self).output@ == emit(bit, old(self).pending_bits as nat, old(self).output@),
            final(self).pending_bits == 0,
            final(self).low == old(self).low,
            final(self).high == old(self).high,
    {
        if bit {
            self.output.push(1);
        } else {
            self.output.push(0);
        }
        let ghost start = self.output@;
        let ghost p = self.pending_bits;
        while self.pending_bits > 0
            invariant
                self.pending_bits <= p,
                self.low == old(self).low,
                self.high == old(self).high,
                self.output@ == start + Seq::new((p - self.pending_bits) as nat, |i: int| if bit { 0u8 } else { 1u8 }),
            decreases self.pending_bits,
        {
            self.output.push(if bit { 0 } else { 1 });
            self.pending_bits -= 1;
        }
    }

    /// Encodes the symbol that takes `[cum_freq, cum_freq + freq)` of
    /// `total`.
    pub fn encode(&mut self, cum_freq: u32, freq: u32, total: u32)
        requires
            old(self).wf(),
            old(self).pending_room() >= 32,
            1 <= freq,
            cum_freq + freq <= total,
            total <= 0x4000_0000,
        ensures
            final(self).wf(),
            final(self).state() == enc_step(old(self).state(), cum_freq as int, freq as int, total as int),
            final(self).pending_room() >= old(self).pending_room() - 32,
            old(self).state().bits.is_prefix_of(final(self).state().bits),
    {
        let ghost nw = narrow(self.low as int, self.high as int, cum_freq as int, freq as int, total as int);
        let ghost b0 = self.output@;
        proof {
            lemma_norm_prefix(
                EncoderState { low: nw.0, high: nw.1, pending: self.pending_bits as nat, bits: b0 },
            );
        }
        let range = self.high - self.low + 1;
        proof {
            lemma_narrow(self.low as int, self.high as int, cum_freq as int, freq as int, total as int);
        }
        self.high = self.low + (range * (cum_freq + freq) as u64) / total as u64 - 1;
        self.low = self.low + (range * cum_freq as u64) / total as u64;
        let ghost p0 = self.pending_bits;
        let ghost mut k: nat = 0;
        proof {
            vstd::arithmetic::power2::lemma2_to64();
        }
        loop
            invariant_except_break
                interval_ok(self.low as int, self.high as int),
                forall|i: int| 0 <= i < self.output@.len() ==> self.output@[i] <= 1,
                enc_normalize(self.state()) == enc_normalize(
                    EncoderState { low: nw.0, high: nw.1, pending: p0 as nat, bits: b0 },
                ),
                nw == narrow(old(self).low as int, old(self).high as int, cum_freq as int, freq as int, total as int),
                b0 == old(self).output@,
                self.high - self.low + 1 >= vstd::arithmetic::power2::pow2(k),
                self.pending_bits <= p0 + k,
                p0 == old(self).pending_bits,
                p0 <= u32::MAX - 32,
            ensures
                self.wf(),
                self.state() == enc_step(old(self).state(), cum_freq as int, freq as int, total as int),
                self.pending_bits <= p0 + 32,
            decreases 0x1_0000_0000 - (self.high - self.low),
        {
            proof {
                lemma_pow2_range_bound(k, (self.high - self.low + 1) as int);
            }
            proof {
                lemma_double(self.low, 0);
                lemma_double(self.high, 0);
            }
            if self.high < HALF {
                self.output_bit(false);
                self.low = self.low << 1;
                self.high = (self.high << 1) | 1;
            } else if self.low >= HALF {
                self.output_bit(true);
                let a = self.low - HALF;
                let b = self.high - HALF;
                proof {
                    lemma_double(a, 0);
                    lemma_double(b, 0);
                }
                self.low = a << 1;
                self.high = (b << 1) | 1;
            } else if self.low >= QUARTER && self.high < THREE_QUARTERS {
                assert(self.high - self.low + 1 <= 0x8000_0000);
                assert(k <= 31);
                self.pending_bits += 1;
                let a = self.low - QUARTER;
                let b = self.high - QUARTER;
                proof {
                    lemma_double(a, 0);
                    lemma_double(b, 0);
                }
                self.low = a << 1;
                self.high = (b << 1) | 1;
            } else {
                break;
            }
            proof {
                vstd::arithmetic::power2::lemma_pow2_unfold(k + 1);
                k = k + 1;
            }
        }
    }

    /// Flushes the deciding bit and the pending ones, then packs the bits:
    /// the bit count as four little-endian bytes, then the bits, most
    /// significant first.
    pub fn finish(self) -> (bytes: Vec<u8>)
        requires
            self.wf(),
            self.pending_room() >= 1,
        ensures
            bytes@ == enc_output(self.state()),
    {
        let mut this = self;
        this.pending_bits += 1;
        let bit = this.low >= QUARTER;
        this.output_bit(bit);
        let bits = this.output;
        let packed = pack(&bits);
        let mut result: Vec<u8> = Vec::new();
        push_u32_le(&mut result, bits.len() as u32);
        let mut packed = packed;
        result.append(&mut packed);
        result
    }
}

/// Packs bits (each 0 or 1) eight to a byte, most significant first.
fn pack(bits: &Vec<u8>) -> (bytes: Vec<u8>)
    requires
        forall|i: int| 0 <= i < bits@.len() ==> bits@[i] <= 1,
    ensures
        bytes@ == pack_bits(bits@),
{
    let n = bits.len();
    let count = n / 8 + if n % 8 == 0 { 0 } else { 1 };
    assert(count == (n + 7) / 8);
    let mut bytes: Vec<u8> = Vec::new();
    let mut j: usize = 0;
    while j < count
        invariant
            n == bits@.len(),
            count == (n + 7) / 8,
            forall|k: int| 0 <= k < bits@.len() ==> bits@[k] <= 1,
            j <= count,
            bytes@.len() == j,
            forall|q: int| 0 <= q < j ==> bytes@[q] == packed_byte(bits@, q, 8) as u8,
        decreases count - j,
    {
        let mut byte: u8 = 0;
        let mut i: u8 = 0;
        proof {
            lemma_u8_bit(0, 0);
        }
        while i < 8
            invariant
                n == bits@.len(),
                forall|k: int| 0 <= k < bits@.len() ==> bits@[k] <= 1,
                j < count,
                count == (n + 7) / 8,
                i <= 8,
                byte as int == packed_byte(bits@, j as int, i as int),
                byte & (0xFFu8 >> i) == 0,
            decreases 8 - i,
        {
            let k = 8 * j + i as usize;
            let ghost b0 = byte;
            if k < n {
                let bit = bits[k];
                let sh: u8 = 7 - i;
                let i1: u8 = i + 1;
                proof {
                    lemma_pack_bit(b0, bit, i, sh, i1);
                    vstd::arithmetic::power2::lemma2_to64();
                    vstd::arithmetic::power2::lemma_pow2_pos(sh as nat);
                    vstd::bits::lemma_u8_pow2_no_overflow(sh as nat);
                    if bit == 1 {
                        vstd::bits::lemma_u8_shl_is_mul(1, sh);
                        assert(bit << sh == bit * vstd::arithmetic::power2::pow2(sh as nat));
                    } else {
                        assert(bit == 0);
                        let p = vstd::arithmetic::power2::pow2(sh as nat);
                        assert(bit as int * p == 0) by (nonlinear_arith)
                            requires bit == 0;
                        assert(bit << sh == bit * vstd::arithmetic::power2::pow2(sh as nat));
                    }
                }
                byte = byte | (bit << sh);
            } else {
                let i1: u8 = i + 1;
                proof {
                    lemma_pack_bit(b0, 0, i, (7 - i) as u8, i1);
                }
            }
            i += 1;
        }
        bytes.push(byte);
        j += 1;
    }
    assert(bytes@ == pack_bits(bits@));
    bytes
}

/// The narrowed interval lies inside the old one and is not empty.
proof fn lemma_narrow(low: int, high: int, cum: int, freq: int, total: int)
    requires
        interval_ok(low, high),
        high - low + 1 > QUARTER,
        1 <= freq,
        cum >= 0,
        cum + freq <= total,
        total <= 0x4000_0000,
    ensures
        ({
            let range = high - low + 1;
            let (nl, nh) = narrow(low, high, cum, freq, total);
            &&& range * (cum + freq) <= u64::MAX
            &&& range * cum <= range * (cum + freq)
            &&& range * (cum + freq) / total >= 1
            &&& low <= nl <= nh <= high
        }),
{
    let r = high - low + 1;
    assert(r * (cum + freq) <= 0x1_0000_0000 * 0x4000_0000) by (nonlinear_arith)
        requires
            0 < r <= 0x1_0000_0000,
            0 <= cum + freq <= 0x4000_0000,
    ;
    assert(r * cum <= r * (cum + freq)) by (nonlinear_arith)
        requires
            0 < r,
            0 <= cum,
            0 <= freq,
    ;
    assert(r * (cum + freq) / total <= r) by (nonlinear_arith)
        requires
            0 < r,
            0 <= cum + freq <= total,
            0 < total,
    ;
    assert(r * cum / total + 1 <= r * (cum + freq) / total) by (nonlinear_arith)
        requires
            r >= total,
            0 < total,
            1 <= freq,
            0 <= cum,
    ;
    assert(r * cum / total >= 0) by (nonlinear_arith)
        requires
            r >= 0,
            cum >= 0,
            total > 0,
    ;
}

proof fn lemma_pow2_range_bound(k: nat, range: int)
    requires
        vstd::arithmetic::power2::pow2(k) <= range,
        range <= 0x1_0000_0000,
    ensures
        k <= 32,
        range <= 0x8000_0000 ==> k <= 31,
{
    vstd::arithmetic::power2::lemma2_to64();
    if k > 32 {
        vstd::arithmetic::power2::lemma_pow2_strictly_increases(32, k);
    }
    if range <= 0x8000_0000 && k > 31 {
        vstd::arithmetic::power2::lemma_pow2_strictly_increases(31, k);
    }
}

// ---------------------------------------------------------------------------
// Range decoder
// ---------------------------------------------------------------------------
/// The decoder's state: interval, the window of the code value, the bits
/// and the position of the next one.
pub struct DecoderState {
    pub low: int,
    pub high: int,
    pub value: int,
    pub bits: Seq<u8>,
    pub pos: int,
}

/// The next bit, zero past the end.
pub open spec fn next_bit(bits: Seq<u8>, pos: int) -> (int, int) {
    if 0 <= pos < bits.len() {
        (bits[pos] as int, pos + 1)
    } else {
        (0, pos)
    }
}

/// The decoder's widening, in step with the encoder's, shifting in a bit
/// each time.
pub open spec fn dec_normalize(st: DecoderState) -> DecoderState
    decreases 0x1_0000_0000 - (st.high - st.low),
{
    let (low, high) = (st.low, st.high);
    let (b, p) = next_bit(st.bits, st.pos);
    if !interval_ok(low, high) {
        st
    } else if high < HALF {
        dec_normalize(DecoderState { low: 2 * low, high: 2 * high + 1, value: 2 * st.value + b, bits: st.bits, pos: p })
    } else if low >= HALF {
        dec_normalize(
            DecoderState {
                low: 2 * (low - HALF),
                high: 2 * (high - HALF) + 1,
                value: 2 * (st.value - HALF) + b,
                bits: st.bits,
                pos: p,
            },
        )
    } else if low >= QUARTER && high < THREE_QUARTERS {
        dec_normalize(
            DecoderState {
                low: 2 * (low - QUARTER),
                high: 2 * (high - QUARTER) + 1,
                value: 2 * (st.value - QUARTER) + b,
                bits: st.bits,
                pos: p,
            },
        )
    } else {
        st
    }
}

/// Decoding one symbol that takes `[cum, cum + freq)` of `total`.
pub open spec fn dec_step(st: DecoderState, cum: int, freq: int, total: int) -> DecoderState {
    let (low, high) = narrow(st.low, st.high, cum, freq, total);
    dec_normalize(DecoderState { low, high, value: st.value, bits: st.bits, pos: st.pos })
}

/// Where the code value falls, scaled to `total`.
pub open spec fn freq_value(st: DecoderState, total: int) -> int {
    ((st.value - st.low + 1) * total - 1) / (st.high - st.low + 1)
}

/// The bits of `bytes`, most significant first.
pub open spec fn unpack_bits(bytes: Seq<u8>) -> Seq<u8> {
    Seq::new(8 * bytes.len(), |k: int| (bytes[k / 8] >> ((7 - k % 8) as u8)) & 1u8)
}

/// The bits a decoder keeps from `input`: after the four-byte count, that
/// many bits (at least one), as far as the bytes go.
pub open spec fn decoder_bits(input: Seq<u8>) -> Seq<u8> {
    let u = unpack_bits(input.skip(4));
    let bc = from_le_u32(input, 0) as int;
    let want = if bc < 1 { 1 } else { bc };
    u.take(if u.len() < want { u.len() as int } else { want })
}

/// The first `k` bits read as a number, zeros past the end.
pub open spec fn leading_value(bits: Seq<u8>, k: int) -> int
    decreases k,
{
    if k <= 0 {
        0
    } else {
        2 * leading_value(bits, k - 1) + next_bit(bits, k - 1).0
    }
}

/// The decoder's state before the first symbol.
pub open spec fn decoder_start(input: Seq<u8>) -> DecoderState {
    if input.len() < 4 {
        DecoderState { low: 0, high: TOP as int, value: 0, bits: Seq::empty(), pos: 0 }
    } else {
        let b = decoder_bits(input);
        DecoderState {
            low: 0,
            high: TOP as int,
            value: leading_value(b, 32),
            bits: b,
            pos: if b.len() < 32 { b.len() as int } else { 32 },
        }
    }
}

/// The arithmetic decoder matching `RangeEncoder`.
pub struct RangeDecoder {
    low: u64,
    high: u64,
    value: u64,
    bits: Vec<u8>,
    bit_pos: usize,
}

impl RangeDecoder {
    pub closed spec fn state(&self) -> DecoderState {
        DecoderState {
            low: self.low as int,
            high: self.high as int,
            value: self.value as int,
            bits: self.bits@,
            pos: self.bit_pos as int,
        }
    }

    /// The value lies in the interval, and the bits are bits.
    pub closed spec fn wf(&self) -> bool {
        &&& interval_ok(self.low as int, self.high as int)
        &&& self.low <= self.value <= self.high
        &&& self.bit_pos <= self.bits@.len()
        &&& forall|i: int| 0 <= i < self.bits@.len() ==> self.bits@[i] <= 1
    }

    pub fn new(input: &[u8]) -> (dec: Self)
        ensures
            dec.wf(),
            dec.state() == decoder_start(input@),
    {
        if input.len() < 4 {
            return RangeDecoder { low: 0, high: 0xFFFFFFFF, value: 0, bits: Vec::new(), bit_pos: 0 };
        }
        let bit_count = read_u32_le(input, 0) as usize;
        let ghost u = unpack_bits(input@.skip(4));
        let ghost want: int = if bit_count < 1 { 1 } else { bit_count as int };
        let mut bits: Vec<u8> = Vec::new();
        let mut idx: usize = 4;
        let n = input.len();
        while idx < n
            invariant_except_break
                bits@.len() == 8 * (idx - 4),
                bits@.len() < want,
            invariant
                n == input@.len(),
                4 <= idx <= n,
                u == unpack_bits(input@.skip(4)),
                want == if bit_count < 1 { 1 } else { bit_count as int },
                bits@ == u.take(bits@.len() as int),
                bits@.len() <= u.len(),
                forall|j: int| 0 <= j < bits@.len() ==> bits@[j] <= 1,
            ensures
                bits@ == u.take(bits@.len() as int),
                forall|j: int| 0 <= j < bits@.len() ==> bits@[j] <= 1,
                bits@.len() == if u.len() < want { u.len() as int } else { want },
            decreases n - idx,
        {
            let byte = input[idx];
            let mut i: u8 = 8;
            let mut stop = false;
            while i > 0
                invariant_except_break
                    bits@.len() == 8 * (idx - 4) + (8 - i),
                    bits@.len() < want,
                    !stop,
                invariant
                    n == input@.len(),
                    4 <= idx < n,
                    u == unpack_bits(input@.skip(4)),
                    u.len() == 8 * (n - 4),
                    want == if bit_count < 1 { 1 } else { bit_count as int },
                    byte == input@[idx as int],
                    i <= 8,
                    bits@ == u.take(bits@.len() as int),
                    bits@.len() <= u.len(),
                    forall|j: int| 0 <= j < bits@.len() ==> bits@[j] <= 1,
                ensures
                    bits@ == u.take(bits@.len() as int),
                    bits@.len() <= u.len(),
                    forall|j: int| 0 <= j < bits@.len() ==> bits@[j] <= 1,
                    stop ==> bits@.len() == want,
                    !stop ==> bits@.len() == 8 * (idx - 4) + 8 && bits@.len() < want,
                decreases i,
            {
                i -= 1;
                let ghost k = bits@.len() as int;
                proof {
                    assert(k / 8 == idx - 4 && k % 8 == 7 - i) by (nonlinear_arith)
                        requires
                            k == 8 * (idx - 4) + (7 - i),
                            0 <= i < 8,
                            idx >= 4,
                    ;
                    assert(input@.skip(4)[k / 8] == byte);
                }
                let b = (byte >> i) & 1;
                proof {
                    lemma_u8_bit(byte, i);
                }
                bits.push(b);
                assert(bits@ == u.take(bits@.len() as int));
                if bits.len() >= bit_count {
                    stop = true;
                    break;
                }
            }
            if stop {
                break;
            }
            idx += 1;
        }
        assert(bits@ == decoder_bits(input@));
        let mut dec = RangeDecoder { low: 0, high: 0xFFFFFFFF, value: 0, bits: bits, bit_pos: 0 };
        let mut k: usize = 0;
        proof {
            vstd::arithmetic::power2::lemma2_to64();
        }
        while k < 32
            invariant
                k <= 32,
                dec.low == 0,
                dec.high == 0xFFFFFFFF,
                forall|j: int| 0 <= j < dec.bits@.len() ==> dec.bits@[j] <= 1,
                dec.value == leading_value(dec.bits@, k as int),
                dec.bits@ == decoder_bits(input@),
                input@.len() >= 4,
                dec.value < vstd::arithmetic::power2::pow2(k as nat),
                dec.bit_pos as int == if k <= dec.bits@.len() { k as int } else { dec.bits@.len() as int },
            decreases 32 - k,
        {
            let ghost pos0 = dec.bit_pos as int;
            let b = dec.read_bit();
            let v = dec.value;
            proof {
                vstd::arithmetic::power2::lemma_pow2_unfold((k + 1) as nat);
                vstd::arithmetic::power2::lemma_pow2_strictly_increases(k as nat, 32);
                vstd::arithmetic::power2::lemma2_to64();
                assert(next_bit(dec.bits@, k as int).0 == b as int);
                assert(v < 0x1_0000_0000);
            }
            proof {
                lemma_double(v, b as u64);
            }
            dec.value = (v << 1) | b as u64;
            k += 1;
        }
        dec
    }

    fn read_bit(&mut self) -> (b: u8)
        requires
            forall|i: int| 0 <= i < old(self).bits@.len() ==> old(self).bits@[i] <= 1,
        ensures
            (b as int, final(self).bit_pos as int) == next_bit(old(self).bits@, old(self).bit_pos as int),
            b <= 1,
            final(self).bits@ == old(self).bits@,
            final(self).low == old(self).low,
            final(self).high == old(self).high,
            final(self).value == old(self).value,
    {
        if self.bit_pos < self.bits.len() {
            let bit = self.bits[self.bit_pos];
            self.bit_pos += 1;
            bit
        } else {
            0
        }
    }

    /// Where the code value falls when the interval is split into `total`
    /// parts.
    pub fn get_freq(&self, total: u32) -> (g: u32)
        requires
            self.wf(),
            total >= 1,
        ensures
            g == freq_value(self.state(), total as int),
            g < total,
    {
        let range = self.high - self.low + 1;
        proof {
            let w = self.value - self.low;
            let r = range as int;
            assert((w + 1) * total <= 0x1_0000_0000 * 0xFFFF_FFFF) by (nonlinear_arith)
                requires 0 <= w < r, r <= 0x1_0000_0000, total <= 0xFFFF_FFFF;
            assert(((w + 1) * total - 1) / r < total) by (nonlinear_arith)
                requires 0 <= w < r, total >= 1, r >= 1;
            assert(((w + 1) * total - 1) / r >= 0) by (nonlinear_arith)
                requires 0 <= w, total >= 1, r >= 1;
            assert((w + 1) * total >= 1) by (nonlinear_arith)
                requires 0 <= w, total >= 1;
        }
        (((self.value - self.low + 1) * total as u64 - 1) / range) as u32
    }

    /// Narrows to the symbol that takes `[cum_freq, cum_freq + freq)` of
    /// `total`; the code value must lie in that part.
    pub fn decode(&mut self, cum_freq: u32, freq: u32, total: u32)
        requires
            old(self).wf(),
            total >= 1,
            cum_freq + freq <= total,
            ({
                let st = old(self).state();
                let (nl, nh) = narrow(st.low, st.high, cum_freq as int, freq as int, total as int);
                nl <= st.value <= nh
            }),
        ensures
            final(self).wf(),
            final(self).state() == dec_step(old(self).state(), cum_freq as int, freq as int, total as int),
    {
        let ghost nw = narrow(self.low as int, self.high as int, cum_freq as int, freq as int, total as int);
        let range = self.high - self.low + 1;
        proof {
            let r = range as int;
            assert(r * (cum_freq + freq) <= 0x1_0000_0000 * 0xFFFF_FFFF) by (nonlinear_arith)
                requires 0 < r <= 0x1_0000_0000, 0 <= cum_freq + freq <= 0xFFFF_FFFF;
            assert(r * cum_freq <= r * (cum_freq + freq)) by (nonlinear_arith)
                requires 0 < r, 0 <= cum_freq, 0 <= freq;
            assert(r * (cum_freq + freq) / (total as int) <= r) by (nonlinear_arith)
                requires 0 < r, 0 <= cum_freq + freq <= total, 0 < total;
            assert(r * cum_freq / (total as int) >= 0) by (nonlinear_arith)
                requires 0 <= r, 0 <= cum_freq, 0 < total;
        }
        self.high = self.low + (range * (cum_freq + freq) as u64) / total as u64 - 1;
        self.low = self.low + (range * cum_freq as u64) / total as u64;
        loop
            invariant_except_break
                interval_ok(self.low as int, self.high as int),
                self.low <= self.value <= self.high,
                self.bit_pos <= self.bits@.len(),
                forall|i: int| 0 <= i < self.bits@.len() ==> self.bits@[i] <= 1,
                dec_normalize(self.state()) == dec_normalize(
                    DecoderState { low: nw.0, high: nw.1, value: old(self).value as int, bits: old(self).bits@, pos: old(self).bit_pos as int },
                ),
                nw == narrow(old(self).low as int, old(self).high as int, cum_freq as int, freq as int, total as int),
            ensures
                self.wf(),
                self.state() == dec_step(old(self).state(), cum_freq as int, freq as int, total as int),
            decreases 0x1_0000_0000 - (self.high - self.low),
        {
            proof {
                lemma_double(self.low, 0);
                lemma_double(self.high, 0);
            }
            if self.high < HALF {
                self.low = self.low << 1;
                self.high = (self.high << 1) | 1;
                let b = self.read_bit();
                let v = self.value;
                proof {
                    lemma_double(v, b as u64);
                }
                self.value = (v << 1) | b as u64;
            } else if self.low >= HALF {
                let a = self.low - HALF;
                let c = self.high - HALF;
                proof {
                    lemma_double(a, 0);
                    lemma_double(c, 0);
                }
                self.low = a << 1;
                self.high = (c << 1) | 1;
                let b = self.read_bit();
                let v = self.value - HALF;
                proof {
                    lemma_double(v, b as u64);
                }
                self.value = (v << 1) | b as u64;
            } else if self.low >= QUARTER && self.high < THREE_QUARTERS {
                let a = self.low - QUARTER;
                let c = self.high - QUARTER;
                proof {
                    lemma_double(a, 0);
                    lemma_double(c, 0);
                }
                self.low = a << 1;
                self.high = (c << 1) | 1;
                let b = self.read_bit();
                let v = self.value - QUARTER;
                proof {
                    lemma_double(v, b as u64);
                }
                self.value = (v << 1) | b as u64;
            } else {
                break;
            }
        }
    }
}

// ---------------------------------------------------------------------------
// The adaptive coder
// ---------------------------------------------------------------------------
/// A fresh encoder.
pub open spec fn encoder_start() -> EncoderState {
    EncoderState { low: 0, high: TOP as int, pending: 0, bits: Seq::empty() }
}

/// Encoding `data` with the adaptive table: the table and the encoder
/// afterwards.
pub open spec fn mix_encode_run(f: Seq<u32>, st: EncoderState, data: Seq<u8>) -> (Seq<u32>, EncoderState)
    decreases data.len(),
{
    if data.len() == 0 {
        (f, st)
    } else {
        let (f1, st1) = mix_encode_run(f, st, data.drop_last());
        let s = data.last() as int;
        (
            table_after(f1, s),
            enc_step(st1, freq_prefix(f1, s), f1[s] as int, freq_prefix(f1, 256)),
        )
    }
}

/// Decoding `n` symbols with the adaptive table: the table afterwards and
/// the symbols.
pub open spec fn mix_decode_run(f: Seq<u32>, st: DecoderState, n: nat) -> (Seq<u32>, Seq<u8>)
    decreases n,
{
    if n == 0 {
        (f, Seq::empty())
    } else {
        let t = freq_prefix(f, 256);
        let s = first_above(f, freq_value(st, t), 0);
        let (f2, rest) = mix_decode_run(
            table_after(f, s),
            dec_step(st, freq_prefix(f, s), f[s] as int, t),
            (n - 1) as nat,
        );
        (f2, seq![s as u8] + rest)
    }
}

/// The symbol found for a value below the total, with its range.
proof fn lemma_first_above_found(f: Seq<u32>, v: int)
    requires
        table_ok(f),
        0 <= v < freq_prefix(f, 256),
    ensures
        0 <= first_above(f, v, 0) < 256,
        freq_prefix(f, first_above(f, v, 0)) <= v < freq_prefix(f, first_above(f, v, 0) + 1),
{
    lemma_first_above_scan(f, v, 0);
}

proof fn lemma_first_above_scan(f: Seq<u32>, v: int, s: int)
    requires
        table_ok(f),
        0 <= s <= 256,
        0 <= v < freq_prefix(f, 256),
        freq_prefix(f, s) <= v,
    ensures
        s <= first_above(f, v, s) < 256,
        freq_prefix(f, first_above(f, v, s)) <= v < freq_prefix(f, first_above(f, v, s) + 1),
    decreases 256 - s,
{
    if s < 256 && freq_prefix(f, s + 1) <= v {
        lemma_first_above_scan(f, v, s + 1);
    }
}

/// The code value lies in the part of the interval that the symbol found
/// for it takes.
proof fn lemma_value_in_part(low: int, high: int, value: int, cum: int, freq: int, total: int)
    requires
        0 <= low <= value <= high,
        total >= 1,
        cum >= 0,
        freq >= 1,
        cum <= ((value - low + 1) * total - 1) / (high - low + 1) < cum + freq,
    ensures
        ({
            let (nl, nh) = narrow(low, high, cum, freq, total);
            nl <= value <= nh
        }),
{
    let r = high - low + 1;
    let w = value - low;
    let g = ((w + 1) * total - 1) / r;
    assert(cum * r <= (w + 1) * total - 1) by (nonlinear_arith)
        requires
            cum <= g,
            g == ((w + 1) * total - 1) / r,
            r >= 1,
            w >= 0,
            total >= 1,
    ;
    assert(r * cum / total <= w) by (nonlinear_arith)
        requires
            cum * r <= (w + 1) * total - 1,
            total >= 1,
            cum >= 0,
            r >= 1,
    ;
    assert((w + 1) * total <= (cum + freq) * r) by (nonlinear_arith)
        requires
            g < cum + freq,
            g == ((w + 1) * total - 1) / r,
            r >= 1,
            w >= 0,
            total >= 1,
    ;
    assert(w + 1 <= r * (cum + freq) / total) by (nonlinear_arith)
        requires
            (w + 1) * total <= (cum + freq) * r,
            total >= 1,
    ;
}

/// Adaptive arithmetic coding of bytes with an order-0 model.
pub struct AdaptiveMixCoder {
    freqs: FrequencyTable,
}

impl View for AdaptiveMixCoder {
    type V = Seq<u32>;

    closed spec fn view(&self) -> Seq<u32> {
        self.freqs@
    }
}

impl AdaptiveMixCoder {
    pub closed spec fn wf(&self) -> bool {
        self.freqs.wf()
    }

    pub fn new() -> (coder: Self)
        ensures
            coder.wf(),
            coder@ == initial_table(),
    {
        AdaptiveMixCoder { freqs: FrequencyTable::new() }
    }

    /// The frequency of `symbol` and the total, before the table learns
    /// the symbol.
    pub fn observe(&mut self, symbol: u8) -> (r: (u32, u32))
        requires
            old(self).wf(),
        ensures
            final(self).wf(),
            r.0 == old(self)@[symbol as int],
            r.1 == freq_prefix(old(self)@, 256),
            final(self)@ == table_after(old(self)@, symbol as int),
    {
        let f = self.freqs.get_freq(symbol);
        let t = self.freqs.get_total();
        self.freqs.update(symbol);
        (f, t)
    }

    /// Encodes `data`; the table learns from it as it goes.
    pub fn encode(&mut self, data: &[u8]) -> (out: Vec<u8>)
        requires
            old(self).wf(),
            data@.len() < 0x800_0000,
        ensures
            final(self).wf(),
            final(self)@ == mix_encode_run(old(self)@, encoder_start(), data@).0,
            out@ == enc_output(mix_encode_run(old(self)@, encoder_start(), data@).1),
    {
        let mut encoder = RangeEncoder::new();
        let mut i: usize = 0;
        while i < data.len()
            invariant
                i <= data@.len(),
                data@.len() < 0x800_0000,
                self.wf(),
                encoder.wf(),
                encoder.pending_room() >= 32 * (data@.len() - i) + 1,
                (self@, encoder.state()) == mix_encode_run(old(self)@, encoder_start(), data@.take(i as int)),
            decreases data@.len() - i,
        {
            let symbol = data[i];
            proof {
                assert(data@.take(i + 1).drop_last() == data@.take(i as int));
                lemma_freq_prefix_mono(self@, symbol as int + 1, 256);
                assert(freq_prefix(self@, symbol as int + 1) == freq_prefix(self@, symbol as int) + self@[symbol as int]);
            }
            let cum_freq = self.freqs.get_cum_freq(symbol);
            let freq = self.freqs.get_freq(symbol);
            let total = self.freqs.get_total();
            encoder.encode(cum_freq, freq, total);
            self.freqs.update(symbol);
            i += 1;
        }
        assert(data@.take(data@.len() as int) == data@);
        encoder.finish()
    }

    /// Decodes `len` symbols from `encoded`; the table learns as it goes.
    pub fn decode(&mut self, encoded: &[u8], len: usize) -> (out: Vec<u8>)
        requires
            old(self).wf(),
        ensures
            final(self).wf(),
            (final(self)@, out@) == mix_decode_run(old(self)@, decoder_start(encoded@), len as nat),
    {
        let mut decoder = RangeDecoder::new(encoded);
        let mut result: Vec<u8> = Vec::new();
        let ghost full = mix_decode_run(old(self)@, decoder_start(encoded@), len as nat);
        let mut k: usize = 0;
        while k < len
            invariant
                k <= len,
                self.wf(),
                decoder.wf(),
                full == mix_decode_run(old(self)@, decoder_start(encoded@), len as nat),
                full.0 == mix_decode_run(self@, decoder.state(), (len - k) as nat).0,
                full.1 == result@ + mix_decode_run(self@, decoder.state(), (len - k) as nat).1,
            decreases len - k,
        {
            let total = self.freqs.get_total();
            proof {
                lemma_freq_prefix_mono(self@, 0, 256);
            }
            let g = decoder.get_freq(total);
            let freq_val = if g < total - 1 { g } else { total - 1 };
            let symbol = self.freqs.find_symbol(freq_val);
            proof {
                lemma_first_above_found(self@, g as int);
            }
            let cum_freq = self.freqs.get_cum_freq(symbol);
            let freq = self.freqs.get_freq(symbol);
            proof {
                let st = decoder.state();
                assert(freq_prefix(self@, symbol as int + 1) == freq_prefix(self@, symbol as int) + self@[symbol as int]);
                lemma_freq_prefix_mono(self@, symbol as int + 1, 256);
                lemma_value_in_part(st.low, st.high, st.value, cum_freq as int, freq as int, total as int);
            }
            decoder.decode(cum_freq, freq, total);
            self.freqs.update(symbol);
            result.push(symbol);
            k += 1;
        }
        result
    }
}

impl Default for AdaptiveMixCoder {
    fn default() -> (coder: Self)
        ensures
            coder.wf(),
            coder@ == initial_table(),
    {
        AdaptiveMixCoder::new()
    }
}

/// What the adaptive coder makes of `data` from a fresh start.
pub open spec fn mix_encoded(data: Seq<u8>) -> Seq<u8> {
    enc_output(mix_encode_run(initial_table(), encoder_start(), data).1)
}

/// What the adaptive coder reads back, `n` symbols, from a fresh start.
pub open spec fn mix_decoded(encoded: Seq<u8>, n: nat) -> Seq<u8> {
    mix_decode_run(initial_table(), decoder_start(encoded), n).1
}

/// Adaptive arithmetic coding of bytes, the length stored in front.
pub struct AdaptiveMixBijection;

impl Bijection<Vec<u8>, Vec<u8>> for AdaptiveMixBijection {
    open spec fn applies_to(&self, source: Vec<u8>) -> bool {
        source@.len() < 0x800_0000
    }

    open spec fn reverts(&self, source: Vec<u8>) -> bool {
        source@.len() == 0 || source@.len() >= 4
    }

    fn apply(&self, source: Vec<u8>) -> (result: Vec<u8>)
        ensures
            source@.len() == 0 ==> result@.len() == 0,
            source@.len() > 0 ==> result@ == le_u32(source@.len() as u32) + mix_encoded(source@),
    {
        if source.len() == 0 {
            return Vec::new();
        }
        let mut coder = AdaptiveMixCoder::new();
        let mut encoded = coder.encode(source.as_slice());
        let mut result: Vec<u8> = Vec::new();
        push_u32_le(&mut result, source.len() as u32);
        result.append(&mut encoded);
        result
    }

    fn revert(&self, source: Vec<u8>) -> (out: Vec<u8>)
        ensures
            source@.len() == 0 ==> out@.len() == 0,
            source@.len() > 0 ==> out@ == mix_decoded(
                source@.subrange(4, source@.len() as int),
                from_le_u32(source@, 0) as nat,
            ),
    {
        if source.len() == 0 {
            return Vec::new();
        }
        let len = read_u32_le(source.as_slice(), 0) as usize;
        let encoded = vstd::slice::slice_subrange(source.as_slice(), 4, source.len());
        let mut coder = AdaptiveMixCoder::new();
        coder.decode(encoded, len)
    }
}

/// What the bijection over 64-bit values writes: nothing for nothing, else
/// the count as four bytes, then the low byte of each value through the
/// adaptive coder.
pub open spec fn mix_u64_output(values: Seq<u64>) -> Seq<u8> {
    if values.len() == 0 {
        Seq::empty()
    } else {
        le_u32(values.len() as u32) + mix_encoded(values.map_values(|v: u64| v as u8))
    }
}

/// What the bijection over 64-bit values reads back: nothing for nothing,
/// `None` for one to three bytes, else as many bytes as the count in front
/// says, each as a value.
pub open spec fn mix_u64_unframe(b: Seq<u8>) -> Option<Seq<u64>> {
    if b.len() == 0 {
        Some(Seq::empty())
    } else if b.len() < 4 {
        None
    } else {
        Some(
            mix_decoded(b.subrange(4, b.len() as int), from_le_u32(b, 0) as nat).map_values(
                |x: u8| x as u64,
            ),
        )
    }
}

/// Adaptive arithmetic coding of 64-bit values that fit in a byte; each
/// value is coded by its low byte.
pub struct AdaptiveMixU64Bijection;

impl Bijection<Vec<u64>, Vec<u8>> for AdaptiveMixU64Bijection {
    open spec fn applies_to(&self, source: Vec<u64>) -> bool {
        source@.len() < 0x800_0000
    }

    open spec fn reverts(&self, source: Vec<u8>) -> bool {
        source@.len() == 0 || source@.len() >= 4
    }

    fn apply(&self, source: Vec<u64>) -> (result: Vec<u8>)
        ensures
            result@ == mix_u64_output(source@),
    {
        if source.len() == 0 {
            return Vec::new();
        }
        let mut data: Vec<u8> = Vec::new();
        let mut i: usize = 0;
        while i < source.len()
            invariant
                i <= source@.len(),
                data@ == source@.take(i as int).map_values(|v: u64| v as u8),
            decreases source@.len() - i,
        {
            data.push(source[i] as u8);
            assert(source@.take(i + 1).map_values(|v: u64| v as u8) == source@.take(i as int).map_values(
                |v: u64| v as u8,
            ).push(source@[i as int] as u8));
            i += 1;
        }
        assert(source@.take(source@.len() as int) == source@);
        let mut coder = AdaptiveMixCoder::new();
        let mut encoded = coder.encode(data.as_slice());
        let mut result: Vec<u8> = Vec::new();
        push_u32_le(&mut result, source.len() as u32);
        result.append(&mut encoded);
        result
    }

    fn revert(&self, source: Vec<u8>) -> (out: Vec<u64>)
        ensures
            mix_u64_unframe(source@) == Some(out@),
    {
        if source.len() == 0 {
            return Vec::new();
        }
        let len = read_u32_le(source.as_slice(), 0) as usize;
        let encoded = vstd::slice::slice_subrange(source.as_slice(), 4, source.len());
        let mut coder = AdaptiveMixCoder::new();
        let decoded = coder.decode(encoded, len);
        let mut out: Vec<u64> = Vec::new();
        let mut i: usize = 0;
        while i < decoded.len()
            invariant
                i <= decoded@.len(),
                out@ == decoded@.take(i as int).map_values(|b: u8| b as u64),
            decreases decoded@.len() - i,
        {
            out.push(decoded[i] as u64);
            assert(decoded@.take(i + 1).map_values(|b: u8| b as u64) == decoded@.take(i as int).map_values(
                |b: u8| b as u64,
            ).push(decoded@[i as int] as u64));
            i += 1;
        }
        assert(decoded@.take(decoded@.len() as int) == decoded@);
        out
    }
}

// ---------------------------------------------------------------------------
// Reading back what the coder wrote
// ---------------------------------------------------------------------------
/// The bit at `i`, zero past the end.
pub open spec fn bit_at(f: Seq<u8>, i: int) -> int {
    next_bit(f, i).0
}

/// `k` bits from `a` read as a number, most significant first, zeros past
/// the end.
pub open spec fn bit_window(f: Seq<u8>, a: int, k: nat) -> int
    decreases k,
{
    if k == 0 {
        0
    } else {
        2 * bit_window(f, a, (k - 1) as nat) + bit_at(f, a + k - 1)
    }
}

/// The code value in the window of an encoder that has written `m` bits and
/// holds `p` pending: the bit at `m`, then the 31 after the pending ones.
pub open spec fn code_window(f: Seq<u8>, m: int, p: int) -> int {
    bit_at(f, m) * 0x8000_0000 + bit_window(f, m + p + 1, 31)
}

/// Every entry is a bit.
pub open spec fn all_bits(f: Seq<u8>) -> bool {
    forall|i: int| 0 <= i < f.len() ==> #[trigger] f[i] <= 1
}

/// The final bits agree with an encoder state: they begin with its bits,
/// reach past its pending ones, and those are the opposite of the bit
/// before them.
pub open spec fn bits_agree(f: Seq<u8>, st: EncoderState) -> bool {
    let m = st.bits.len() as int;
    &&& f.len() > m + st.pending
    &&& f.take(m) == st.bits
    &&& forall|i: int| 1 <= i <= st.pending ==> #[trigger] bit_at(f, m + i) == 1 - bit_at(f, m)
}

/// The code value lies in the encoder's interval.
pub open spec fn code_inside(f: Seq<u8>, st: EncoderState) -> bool {
    st.low <= code_window(f, st.bits.len() as int, st.pending as int) <= st.high
}

/// A decoder reading the final bits in step with an encoder state: the same
/// interval, the code value of the window, and the position past it.
pub open spec fn in_step(d: DecoderState, st: EncoderState, f: Seq<u8>) -> bool {
    let t = (st.bits.len() + st.pending + 32) as int;
    &&& d.low == st.low
    &&& d.high == st.high
    &&& d.bits == f
    &&& d.value == code_window(f, st.bits.len() as int, st.pending as int)
    &&& d.pos == if t < f.len() { t } else { f.len() as int }
}

proof fn lemma_bit_at(f: Seq<u8>, i: int)
    requires
        all_bits(f),
    ensures
        0 <= bit_at(f, i) <= 1,
        i >= f.len() ==> bit_at(f, i) == 0,
{
    if 0 <= i < f.len() {
        assert(f[i] <= 1);
    }
}

/// A window is its first bit above the window after it.
proof fn lemma_window_split(f: Seq<u8>, a: int, k: nat)
    requires
        all_bits(f),
    ensures
        bit_window(f, a, k + 1) == bit_at(f, a) * vstd::arithmetic::power2::pow2(k) + bit_window(f, a + 1, k),
        0 <= bit_window(f, a, k) < vstd::arithmetic::power2::pow2(k),
    decreases k,
{
    vstd::arithmetic::power2::lemma_pow2_unfold(k + 1);
    lemma_bit_at(f, a + k);
    lemma_bit_at(f, a);
    if k == 0 {
        vstd::arithmetic::power2::lemma2_to64();
        let b = bit_at(f, a);
        assert(b * vstd::arithmetic::power2::pow2(0) == b) by (nonlinear_arith)
            requires vstd::arithmetic::power2::pow2(0) == 1;
        assert(bit_window(f, a, 1) == 2 * bit_window(f, a, 0) + bit_at(f, a));
    } else {
        assert(bit_window(f, a, k + 1) == 2 * bit_window(f, a, k) + bit_at(f, a + k));
        assert(bit_window(f, a + 1, k) == 2 * bit_window(f, a + 1, (k - 1) as nat) + bit_at(f, a + k));
        lemma_window_split(f, a, (k - 1) as nat);
        lemma_window_split(f, a + 1, (k - 1) as nat);
        vstd::arithmetic::power2::lemma_pow2_unfold(k);
        lemma_bit_at(f, a + k - 1);
        let p = vstd::arithmetic::power2::pow2((k - 1) as nat);
        let q = vstd::arithmetic::power2::pow2(k);
        let b = bit_at(f, a);
        assert(b * q == 2 * (b * p)) by (nonlinear_arith)
            requires q == 2 * p;
    }
}

/// A window past the end reads zero.
proof fn lemma_window_zero(f: Seq<u8>, a: int, k: nat)
    requires
        a >= f.len(),
    ensures
        bit_window(f, a, k) == 0,
    decreases k,
{
    if k > 0 {
        lemma_window_zero(f, a, (k - 1) as nat);
    }
}

/// The windows of 32, 31 and 30 bits, split.
proof fn lemma_windows(f: Seq<u8>, a: int)
    requires
        all_bits(f),
    ensures
        bit_window(f, a, 32) == bit_at(f, a) * 0x8000_0000 + bit_window(f, a + 1, 31),
        bit_window(f, a, 31) == bit_at(f, a) * 0x4000_0000 + bit_window(f, a + 1, 30),
        bit_window(f, a, 32) == 2 * bit_window(f, a, 31) + bit_at(f, a + 31),
        bit_window(f, a, 31) == 2 * bit_window(f, a, 30) + bit_at(f, a + 30),
        0 <= bit_window(f, a, 31) < 0x8000_0000,
        0 <= bit_window(f, a, 30) < 0x4000_0000,
        0 <= bit_window(f, a + 1, 30) < 0x4000_0000,
        0 <= bit_window(f, a + 1, 31) < 0x8000_0000,
        0 <= bit_at(f, a) <= 1,
{
    vstd::arithmetic::power2::lemma2_to64();
    lemma_window_split(f, a, 31);
    lemma_window_split(f, a, 30);
    lemma_window_split(f, a + 1, 30);
    lemma_window_split(f, a + 1, 31);
    lemma_bit_at(f, a);
}

/// A table stays a table after it learns a symbol.
proof fn lemma_table_after_ok(f: Seq<u32>, s: int)
    requires
        table_ok(f),
        0 <= s < 256,
    ensures
        table_ok(table_after(f, s)),
{
    lemma_freq_prefix_mono(f, s + 1, 256);
    lemma_freq_prefix_mono(f, 0, s);
    assert(f[s] + 1 <= u32::MAX);
    let g = f.update(s, (f[s] + 1) as u32);
    lemma_freq_prefix_mono(f, 0, 256);
    lemma_freq_prefix_update(f, s, (f[s] + 1) as u32, 256);
    assert forall|i: int| 0 <= i < 256 implies g[i] >= 1 by {}
    if freq_prefix(g, 256) > TABLE_LIMIT {
        lemma_halved_ok(g, 256);
        assert forall|i: int| 0 <= i < 256 implies halved(g)[i] >= 1 by {}
    }
}

/// A code value inside a symbol's part of the interval scales to a value
/// inside the symbol's range of counts.
proof fn lemma_part_of_value(low: int, high: int, value: int, cum: int, freq: int, total: int)
    requires
        0 <= low <= high,
        total >= 1,
        cum >= 0,
        freq >= 1,
        narrow(low, high, cum, freq, total).0 <= value <= narrow(low, high, cum, freq, total).1,
    ensures
        cum <= ((value - low + 1) * total - 1) / (high - low + 1) < cum + freq,
{
    let r = high - low + 1;
    let w = value - low;
    let a = r * cum / total;
    let c = r * (cum + freq) / total;
    assert(a * total <= r * cum < (a + 1) * total) by (nonlinear_arith)
        requires a == r * cum / total, total >= 1, r >= 1, cum >= 0;
    assert(c * total <= r * (cum + freq)) by (nonlinear_arith)
        requires c == r * (cum + freq) / total, total >= 1, r >= 1, cum + freq >= 0;
    assert(w >= a && w + 1 <= c);
    assert((w + 1) * total >= (a + 1) * total) by (nonlinear_arith)
        requires w >= a, total >= 1;
    assert((w + 1) * total <= c * total) by (nonlinear_arith)
        requires w + 1 <= c, total >= 1;
    let n = (w + 1) * total - 1;
    assert(n >= r * cum);
    assert(n < r * (cum + freq));
    assert(cum <= n / r < cum + freq) by (nonlinear_arith)
        requires n >= r * cum, n < r * (cum + freq), r >= 1, cum >= 0;
}

/// Where the final bits agree with a normalized state and its window holds
/// the code value, the same holds of the state before normalizing.
proof fn lemma_norm_back(st: EncoderState, f: Seq<u8>)
    requires
        all_bits(f),
        bits_agree(f, enc_normalize(st)),
        code_inside(f, enc_normalize(st)),
    ensures
        bits_agree(f, st),
        code_inside(f, st),
    decreases 0x1_0000_0000 - (st.high - st.low),
{
    let low = st.low;
    let high = st.high;
    let m = st.bits.len() as int;
    let p = st.pending as int;
    if !interval_ok(low, high) {
    } else if high < HALF {
        let st2 = EncoderState { low: 2 * low, high: 2 * high + 1, pending: 0, bits: emit(false, st.pending, st.bits) };
        lemma_norm_back(st2, f);
        let b2 = st2.bits;
        assert(b2.len() == m + 1 + p);
        assert(f.take(m + 1 + p) == b2);
        assert(f.take(m) =~= st.bits) by {
            assert forall|i: int| 0 <= i < m implies f.take(m)[i] == st.bits[i] by {
                assert(f[i] == b2[i]);
            }
        }
        assert(bit_at(f, m) == 0) by {
            assert(f[m] == b2[m]);
        }
        assert forall|i: int| 1 <= i <= p implies #[trigger] bit_at(f, m + i) == 1 - bit_at(f, m) by {
            assert(f[m + i] == b2[m + i]);
        }
        lemma_windows(f, m + p + 1);
    } else if low >= HALF {
        let st2 = EncoderState {
            low: 2 * (low - HALF),
            high: 2 * (high - HALF) + 1,
            pending: 0,
            bits: emit(true, st.pending, st.bits),
        };
        lemma_norm_back(st2, f);
        let b2 = st2.bits;
        assert(b2.len() == m + 1 + p);
        assert(f.take(m + 1 + p) == b2);
        assert(f.take(m) =~= st.bits) by {
            assert forall|i: int| 0 <= i < m implies f.take(m)[i] == st.bits[i] by {
                assert(f[i] == b2[i]);
            }
        }
        assert(bit_at(f, m) == 1) by {
            assert(f[m] == b2[m]);
        }
        assert forall|i: int| 1 <= i <= p implies #[trigger] bit_at(f, m + i) == 1 - bit_at(f, m) by {
            assert(f[m + i] == b2[m + i]);
        }
        lemma_windows(f, m + p + 1);
    } else if low >= QUARTER && high < THREE_QUARTERS {
        let st2 = EncoderState {
            low: 2 * (low - QUARTER),
            high: 2 * (high - QUARTER) + 1,
            pending: st.pending + 1,
            bits: st.bits,
        };
        lemma_norm_back(st2, f);
        assert(bit_at(f, m + (p + 1)) == 1 - bit_at(f, m));
        lemma_windows(f, m + p + 1);
        lemma_windows(f, m + p + 2);
        lemma_bit_at(f, m + p + 1);
    }
}

/// A decoder in step with an encoder state stays in step while both
/// normalize, where the final bits agree with the normalized state and its
/// window holds the code value.
proof fn lemma_norm_forward(st: EncoderState, d: DecoderState, f: Seq<u8>)
    requires
        all_bits(f),
        bits_agree(f, enc_normalize(st)),
        code_inside(f, enc_normalize(st)),
        in_step(d, st, f),
    ensures
        in_step(dec_normalize(d), enc_normalize(st), f),
    decreases 0x1_0000_0000 - (st.high - st.low),
{
    lemma_norm_back(st, f);
    let low = st.low;
    let high = st.high;
    let m = st.bits.len() as int;
    let p = st.pending as int;
    let n = f.len() as int;
    let (b, q) = next_bit(f, d.pos);
    lemma_windows(f, m + p + 1);
    lemma_windows(f, m + p + 2);
    lemma_bit_at(f, m);
    lemma_bit_at(f, m + p + 1);
    lemma_bit_at(f, m + p + 32);
    assert(b == bit_at(f, m + p + 32));
    assert(q == if m + p + 33 < n { m + p + 33 } else { n });
    if !interval_ok(low, high) {
    } else if high < HALF {
        let st2 = EncoderState { low: 2 * low, high: 2 * high + 1, pending: 0, bits: emit(false, st.pending, st.bits) };
        let d2 = DecoderState { low: 2 * low, high: 2 * high + 1, value: 2 * d.value + b, bits: d.bits, pos: q };
        assert(bit_at(f, m) == 0);
        assert(in_step(d2, st2, f));
        lemma_norm_forward(st2, d2, f);
    } else if low >= HALF {
        let st2 = EncoderState {
            low: 2 * (low - HALF),
            high: 2 * (high - HALF) + 1,
            pending: 0,
            bits: emit(true, st.pending, st.bits),
        };
        let d2 = DecoderState {
            low: 2 * (low - HALF),
            high: 2 * (high - HALF) + 1,
            value: 2 * (d.value - HALF) + b,
            bits: d.bits,
            pos: q,
        };
        assert(bit_at(f, m) == 1);
        assert(in_step(d2, st2, f));
        lemma_norm_forward(st2, d2, f);
    } else if low >= QUARTER && high < THREE_QUARTERS {
        let st2 = EncoderState {
            low: 2 * (low - QUARTER),
            high: 2 * (high - QUARTER) + 1,
            pending: st.pending + 1,
            bits: st.bits,
        };
        let d2 = DecoderState {
            low: 2 * (low - QUARTER),
            high: 2 * (high - QUARTER) + 1,
            value: 2 * (d.value - QUARTER) + b,
            bits: d.bits,
            pos: q,
        };
        assert(bit_at(f, m + p + 1) == 1 - bit_at(f, m));
        assert(in_step(d2, st2, f));
        lemma_norm_forward(st2, d2, f);
    }
}

/// An encoder state after normalizing: the interval straddles the middle,
/// and not from within the middle half.
pub open spec fn settled(st: EncoderState) -> bool {
    &&& interval_ok(st.low, st.high)
    &&& st.low < HALF <= st.high
    &&& !(st.low >= QUARTER && st.high < THREE_QUARTERS)
}

/// Normalizing settles the interval, writes only bits, and shifts at most
/// 32 times, fewer the wider the interval already is.
proof fn lemma_norm_facts(st: EncoderState, k: nat)
    requires
        interval_ok(st.low, st.high),
        vstd::arithmetic::power2::pow2(k) <= st.high - st.low + 1,
        all_bits(st.bits),
    ensures
        settled(enc_normalize(st)),
        all_bits(enc_normalize(st).bits),
        enc_normalize(st).bits.len() + enc_normalize(st).pending + k <= st.bits.len() + st.pending + 32,
    decreases 0x1_0000_0000 - (st.high - st.low),
{
    let low = st.low;
    let high = st.high;
    lemma_pow2_range_bound(k, high - low + 1);
    vstd::arithmetic::power2::lemma_pow2_unfold(k + 1);
    if high < HALF {
        let st2 = EncoderState { low: 2 * low, high: 2 * high + 1, pending: 0, bits: emit(false, st.pending, st.bits) };
        assert(all_bits(st2.bits)) by {
            assert forall|i: int| 0 <= i < st2.bits.len() implies #[trigger] st2.bits[i] <= 1 by {
                if i < st.bits.len() {
                    assert(st2.bits[i] == st.bits[i]);
                }
            }
        }
        lemma_norm_facts(st2, k + 1);
    } else if low >= HALF {
        let st2 = EncoderState {
            low: 2 * (low - HALF),
            high: 2 * (high - HALF) + 1,
            pending: 0,
            bits: emit(true, st.pending, st.bits),
        };
        assert(all_bits(st2.bits)) by {
            assert forall|i: int| 0 <= i < st2.bits.len() implies #[trigger] st2.bits[i] <= 1 by {
                if i < st.bits.len() {
                    assert(st2.bits[i] == st.bits[i]);
                }
            }
        }
        lemma_norm_facts(st2, k + 1);
    } else if low >= QUARTER && high < THREE_QUARTERS {
        let st2 = EncoderState {
            low: 2 * (low - QUARTER),
            high: 2 * (high - QUARTER) + 1,
            pending: st.pending + 1,
            bits: st.bits,
        };
        lemma_norm_facts(st2, k + 1);
    }
}

/// Encoding one symbol, read backward: the final bits that agree with the
/// state after it agree with the state before it, whose window holds the
/// code value.
proof fn lemma_step_back(st: EncoderState, f: Seq<u8>, cum: int, freq: int, total: int)
    requires
        all_bits(f),
        settled(st),
        1 <= freq,
        0 <= cum,
        cum + freq <= total,
        total <= 0x4000_0000,
        bits_agree(f, enc_step(st, cum, freq, total)),
        code_inside(f, enc_step(st, cum, freq, total)),
    ensures
        bits_agree(f, st),
        code_inside(f, st),
        narrow(st.low, st.high, cum, freq, total).0 <= code_window(f, st.bits.len() as int, st.pending as int)
            <= narrow(st.low, st.high, cum, freq, total).1,
{
    let (nl, nh) = narrow(st.low, st.high, cum, freq, total);
    let nst = EncoderState { low: nl, high: nh, pending: st.pending, bits: st.bits };
    assert(enc_step(st, cum, freq, total) == enc_normalize(nst));
    lemma_norm_back(nst, f);
    lemma_narrow(st.low, st.high, cum, freq, total);
}

/// Decoding one symbol in step with its encoding: the decoder finds the
/// symbol's range and stays in step.
proof fn lemma_step(st: EncoderState, d: DecoderState, f: Seq<u8>, cum: int, freq: int, total: int)
    requires
        all_bits(f),
        settled(st),
        1 <= freq,
        0 <= cum,
        cum + freq <= total,
        total <= 0x4000_0000,
        bits_agree(f, enc_step(st, cum, freq, total)),
        code_inside(f, enc_step(st, cum, freq, total)),
        in_step(d, st, f),
    ensures
        cum <= freq_value(d, total) < cum + freq,
        in_step(dec_step(d, cum, freq, total), enc_step(st, cum, freq, total), f),
{
    lemma_step_back(st, f, cum, freq, total);
    let (nl, nh) = narrow(st.low, st.high, cum, freq, total);
    let nst = EncoderState { low: nl, high: nh, pending: st.pending, bits: st.bits };
    let nd = DecoderState { low: nl, high: nh, value: d.value, bits: d.bits, pos: d.pos };
    assert(dec_step(d, cum, freq, total) == dec_normalize(nd));
    lemma_narrow(st.low, st.high, cum, freq, total);
    lemma_norm_forward(nst, nd, f);
    lemma_part_of_value(st.low, st.high, d.value, cum, freq, total);
}

/// Decoding mirrors encoding: a decoder in step with the encoder, on bits
/// that agree with what the encoder writes for a symbol, finds that
/// symbol's range and stays in step.
pub proof fn law_decoder_mirrors_encoder(
    st: EncoderState,
    d: DecoderState,
    f: Seq<u8>,
    cum: int,
    freq: int,
    total: int,
)
    requires
        all_bits(f),
        settled(st),
        1 <= freq,
        0 <= cum,
        cum + freq <= total,
        total <= 0x4000_0000,
        bits_agree(f, enc_step(st, cum, freq, total)),
        code_inside(f, enc_step(st, cum, freq, total)),
        in_step(d, st, f),
    ensures
        cum <= freq_value(d, total) < cum + freq,
        in_step(dec_step(d, cum, freq, total), enc_step(st, cum, freq, total), f),
{
    lemma_step(st, d, f, cum, freq, total);
}

/// Normalizing only appends bits.
proof fn lemma_norm_prefix(st: EncoderState)
    ensures
        st.bits.is_prefix_of(enc_normalize(st).bits),
    decreases 0x1_0000_0000 - (st.high - st.low),
{
    let low = st.low;
    let high = st.high;
    if !interval_ok(low, high) {
    } else if high < HALF {
        let st2 = EncoderState { low: 2 * low, high: 2 * high + 1, pending: 0, bits: emit(false, st.pending, st.bits) };
        lemma_norm_prefix(st2);
        assert(st.bits.is_prefix_of(st2.bits)) by {
            assert forall|i: int| 0 <= i < st.bits.len() implies st2.bits[i] == st.bits[i] by {}
        }
    } else if low >= HALF {
        let st2 = EncoderState {
            low: 2 * (low - HALF),
            high: 2 * (high - HALF) + 1,
            pending: 0,
            bits: emit(true, st.pending, st.bits),
        };
        lemma_norm_prefix(st2);
        assert(st.bits.is_prefix_of(st2.bits)) by {
            assert forall|i: int| 0 <= i < st.bits.len() implies st2.bits[i] == st.bits[i] by {}
        }
    } else if low >= QUARTER && high < THREE_QUARTERS {
        let st2 = EncoderState {
            low: 2 * (low - QUARTER),
            high: 2 * (high - QUARTER) + 1,
            pending: st.pending + 1,
            bits: st.bits,
        };
        lemma_norm_prefix(st2);
    }
}

/// Every encoding step keeps the interval settled (below the middle at its
/// low end, at or above it at its high end, and not inside the middle
/// half), writes only bits, and only appends to the bits already written.
pub proof fn law_encode_step(st: EncoderState, cum: int, freq: int, total: int)
    requires
        settled(st),
        all_bits(st.bits),
        1 <= freq,
        0 <= cum,
        cum + freq <= total,
        total <= 0x4000_0000,
    ensures
        settled(enc_step(st, cum, freq, total)),
        all_bits(enc_step(st, cum, freq, total).bits),
        st.bits.is_prefix_of(enc_step(st, cum, freq, total).bits),
{
    lemma_narrow(st.low, st.high, cum, freq, total);
    let (nl, nh) = narrow(st.low, st.high, cum, freq, total);
    let nst = EncoderState { low: nl, high: nh, pending: st.pending, bits: st.bits };
    vstd::arithmetic::power2::lemma2_to64();
    lemma_norm_facts(nst, 0);
    lemma_norm_prefix(nst);
}

/// The table and the encoder after the first `k` symbols, from the table
/// `t0`.
pub open spec fn run_at(t0: Seq<u32>, data: Seq<u8>, k: int) -> (Seq<u32>, EncoderState) {
    mix_encode_run(t0, encoder_start(), data.take(k))
}

/// Along the run the table stays a table, the encoder settles, writes only
/// bits, and at most 32 of them, pending or written, per symbol.
proof fn lemma_run_facts(t0: Seq<u32>, data: Seq<u8>, k: int)
    requires
        table_ok(t0),
        0 <= k <= data.len(),
    ensures
        table_ok(run_at(t0, data, k).0),
        settled(run_at(t0, data, k).1),
        all_bits(run_at(t0, data, k).1.bits),
        run_at(t0, data, k).1.bits.len() + run_at(t0, data, k).1.pending <= 32 * k,
    decreases k,
{
    if k == 0 {
        assert(data.take(0) =~= Seq::<u8>::empty());
    } else {
        lemma_run_facts(t0, data, k - 1);
        assert(data.take(k).drop_last() =~= data.take(k - 1));
        let (f1, st1) = run_at(t0, data, k - 1);
        let s = data[k - 1] as int;
        assert(data.take(k).last() == data[k - 1]);
        let cum = freq_prefix(f1, s);
        let total = freq_prefix(f1, 256);
        lemma_freq_prefix_mono(f1, s + 1, 256);
        lemma_freq_prefix_mono(f1, 0, s);
        assert(freq_prefix(f1, s + 1) == cum + f1[s]);
        lemma_narrow(st1.low, st1.high, cum, f1[s] as int, total);
        let (nl, nh) = narrow(st1.low, st1.high, cum, f1[s] as int, total);
        let nst = EncoderState { low: nl, high: nh, pending: st1.pending, bits: st1.bits };
        vstd::arithmetic::power2::lemma2_to64();
        lemma_norm_facts(nst, 0);
        lemma_table_after_ok(f1, s);
    }
}

/// The final bits agree with the settled state they finish, whose window
/// holds their code value: a quarter or a half.
proof fn lemma_final_bits(st: EncoderState)
    requires
        settled(st),
        all_bits(st.bits),
    ensures
        all_bits(enc_final_bits(st)),
        enc_final_bits(st).len() == st.bits.len() + st.pending + 2,
        bits_agree(enc_final_bits(st), st),
        code_inside(enc_final_bits(st), st),
{
    let f = enc_final_bits(st);
    let m = st.bits.len() as int;
    let p = st.pending as int;
    let b = st.low >= QUARTER;
    assert(all_bits(f)) by {
        assert forall|i: int| 0 <= i < f.len() implies #[trigger] f[i] <= 1 by {
            if i < m {
                assert(f[i] == st.bits[i]);
            }
        }
    }
    assert(f.take(m) =~= st.bits) by {
        assert forall|i: int| 0 <= i < m implies f.take(m)[i] == st.bits[i] by {
            assert(f[i] == st.bits[i]);
        }
    }
    assert(bit_at(f, m) == if b { 1int } else { 0int });
    assert forall|i: int| 1 <= i <= p implies #[trigger] bit_at(f, m + i) == 1 - bit_at(f, m) by {}
    assert(bit_at(f, m + p + 1) == 1 - bit_at(f, m));
    lemma_windows(f, m + p + 1);
    lemma_window_zero(f, m + p + 2, 30);
}

/// Backward along the run: the final bits agree with every state of it,
/// whose window holds the code value.
proof fn lemma_back_run(t0: Seq<u32>, data: Seq<u8>, k: int)
    requires
        table_ok(t0),
        0 <= k <= data.len(),
    ensures
        bits_agree(enc_final_bits(run_at(t0, data, data.len() as int).1), run_at(t0, data, k).1),
        code_inside(enc_final_bits(run_at(t0, data, data.len() as int).1), run_at(t0, data, k).1),
    decreases data.len() - k,
{
    let n = data.len() as int;
    let fb = enc_final_bits(run_at(t0, data, n).1);
    lemma_run_facts(t0, data, n);
    lemma_final_bits(run_at(t0, data, n).1);
    if k < n {
        lemma_back_run(t0, data, k + 1);
        lemma_run_facts(t0, data, k);
        assert(data.take(k + 1).drop_last() =~= data.take(k));
        assert(data.take(k + 1).last() == data[k]);
        let (f1, st1) = run_at(t0, data, k);
        let s = data[k] as int;
        let cum = freq_prefix(f1, s);
        let total = freq_prefix(f1, 256);
        lemma_freq_prefix_mono(f1, s + 1, 256);
        lemma_freq_prefix_mono(f1, 0, s);
        assert(freq_prefix(f1, s + 1) == cum + f1[s]);
        lemma_step_back(st1, fb, cum, f1[s] as int, total);
    }
}

/// Forward along the run: a decoder in step with the encoder after `k`
/// symbols decodes the rest of them.
proof fn lemma_decode_from(t0: Seq<u32>, data: Seq<u8>, k: int, d: DecoderState)
    requires
        table_ok(t0),
        0 <= k <= data.len(),
        in_step(d, run_at(t0, data, k).1, enc_final_bits(run_at(t0, data, data.len() as int).1)),
    ensures
        mix_decode_run(run_at(t0, data, k).0, d, (data.len() - k) as nat) == (
            run_at(t0, data, data.len() as int).0,
            data.skip(k),
        ),
    decreases data.len() - k,
{
    let n = data.len() as int;
    let fb = enc_final_bits(run_at(t0, data, n).1);
    if k == n {
        assert(data.skip(k) =~= Seq::<u8>::empty());
    } else {
        lemma_run_facts(t0, data, n);
        lemma_final_bits(run_at(t0, data, n).1);
        lemma_run_facts(t0, data, k);
        lemma_back_run(t0, data, k + 1);
        assert(data.take(k + 1).drop_last() =~= data.take(k));
        assert(data.take(k + 1).last() == data[k]);
        let (f1, st1) = run_at(t0, data, k);
        let s = data[k] as int;
        let cum = freq_prefix(f1, s);
        let total = freq_prefix(f1, 256);
        lemma_freq_prefix_mono(f1, s + 1, 256);
        lemma_freq_prefix_mono(f1, 0, s);
        assert(freq_prefix(f1, s + 1) == cum + f1[s]);
        lemma_step(st1, d, fb, cum, f1[s] as int, total);
        let v = freq_value(d, total);
        assert forall|j: int| 1 <= j <= s implies #[trigger] freq_prefix(f1, j) <= v by {
            lemma_freq_prefix_mono(f1, j, s);
        }
        lemma_first_above_is(f1, v, 0, s);
        let d2 = dec_step(d, cum, f1[s] as int, total);
        lemma_decode_from(t0, data, k + 1, d2);
        assert(seq![s as u8] + data.skip(k + 1) =~= data.skip(k));
    }
}

/// One term of a packed byte.
proof fn lemma_packed_term(f: Seq<u8>, k: int, e: nat)
    requires
        0 <= k,
    ensures
        (if k < f.len() { f[k] * vstd::arithmetic::power2::pow2(e) } else { 0 }) == bit_at(f, k)
            * vstd::arithmetic::power2::pow2(e),
{
}

/// Byte `j` of the packed bits, as the sum of its eight bits.
proof fn lemma_packed_byte(f: Seq<u8>, j: int)
    requires
        all_bits(f),
        0 <= j,
    ensures
        packed_byte(f, j, 8) == bit_at(f, 8 * j) * 128 + bit_at(f, 8 * j + 1) * 64 + bit_at(f, 8 * j + 2)
            * 32 + bit_at(f, 8 * j + 3) * 16 + bit_at(f, 8 * j + 4) * 8 + bit_at(f, 8 * j + 5) * 4
            + bit_at(f, 8 * j + 6) * 2 + bit_at(f, 8 * j + 7),
{
    vstd::arithmetic::power2::lemma2_to64();
    let b = 8 * j;
    assert forall|i: int| 1 <= i <= 8 implies #[trigger] packed_byte(f, j, i) == packed_byte(f, j, i - 1)
        + bit_at(f, b + i - 1) * vstd::arithmetic::power2::pow2((8 - i) as nat) by {
        lemma_packed_term(f, b + i - 1, (8 - i) as nat);
    }
    assert(packed_byte(f, j, 0) == 0);
    assert(packed_byte(f, j, 1) == bit_at(f, b) * 128);
    assert(packed_byte(f, j, 2) == packed_byte(f, j, 1) + bit_at(f, b + 1) * 64);
    assert(packed_byte(f, j, 3) == packed_byte(f, j, 2) + bit_at(f, b + 2) * 32);
    assert(packed_byte(f, j, 4) == packed_byte(f, j, 3) + bit_at(f, b + 3) * 16);
    assert(packed_byte(f, j, 5) == packed_byte(f, j, 4) + bit_at(f, b + 4) * 8);
    assert(packed_byte(f, j, 6) == packed_byte(f, j, 5) + bit_at(f, b + 5) * 4);
    assert(packed_byte(f, j, 7) == packed_byte(f, j, 6) + bit_at(f, b + 6) * 2);
    assert(packed_byte(f, j, 8) == packed_byte(f, j, 7) + bit_at(f, b + 7) * 1);
}

/// Unpacking packed bits gives them back.
proof fn lemma_unpack_pack(f: Seq<u8>)
    requires
        all_bits(f),
    ensures
        unpack_bits(pack_bits(f)).len() >= f.len(),
        unpack_bits(pack_bits(f)).take(f.len() as int) == f,
{
    let u = unpack_bits(pack_bits(f));
    let bytes = pack_bits(f);
    assert forall|k: int| 0 <= k < f.len() implies u[k] == f[k] by {
        let j = k / 8;
        let t = k % 8;
        assert(k == 8 * j + t && 0 <= t < 8);
        lemma_packed_byte(f, j);
        let c0 = bit_at(f, 8 * j) as u8;
        let c1 = bit_at(f, 8 * j + 1) as u8;
        let c2 = bit_at(f, 8 * j + 2) as u8;
        let c3 = bit_at(f, 8 * j + 3) as u8;
        let c4 = bit_at(f, 8 * j + 4) as u8;
        let c5 = bit_at(f, 8 * j + 5) as u8;
        let c6 = bit_at(f, 8 * j + 6) as u8;
        let c7 = bit_at(f, 8 * j + 7) as u8;
        lemma_bit_at(f, 8 * j);
        lemma_bit_at(f, 8 * j + 1);
        lemma_bit_at(f, 8 * j + 2);
        lemma_bit_at(f, 8 * j + 3);
        lemma_bit_at(f, 8 * j + 4);
        lemma_bit_at(f, 8 * j + 5);
        lemma_bit_at(f, 8 * j + 6);
        lemma_bit_at(f, 8 * j + 7);
        crate::bitops::lemma_unpack_byte(c0, c1, c2, c3, c4, c5, c6, c7);
        assert(bytes[j] == (c0 * 128 + c1 * 64 + c2 * 32 + c3 * 16 + c4 * 8 + c5 * 4 + c6 * 2 + c7) as u8);
        assert(u[k] == (bytes[j] >> ((7 - t) as u8)) & 1u8);
        assert(f[k] == bit_at(f, 8 * j + t));
    }
    assert(u.take(f.len() as int) =~= f);
}

/// Reading the first bits as a number is reading a window at the start.
proof fn lemma_leading_window(f: Seq<u8>, k: nat)
    ensures
        leading_value(f, k as int) == bit_window(f, 0, k),
    decreases k,
{
    if k > 0 {
        lemma_leading_window(f, (k - 1) as nat);
    }
}

/// A fresh decoder on what the encoder wrote is in step with the fresh
/// encoder.
proof fn lemma_decoder_start(st: EncoderState)
    requires
        settled(st),
        all_bits(st.bits),
        st.bits.len() + st.pending + 2 <= u32::MAX,
    ensures
        in_step(decoder_start(enc_output(st)), encoder_start(), enc_final_bits(st)),
{
    let f = enc_final_bits(st);
    lemma_final_bits(st);
    let input = enc_output(st);
    let n = f.len();
    assert(input =~= Seq::<u8>::empty() + le_u32(n as u32) + pack_bits(f));
    crate::bytes::lemma_le_u32_roundtrip(n as u32, Seq::empty(), pack_bits(f));
    assert(input.skip(4) =~= pack_bits(f));
    lemma_unpack_pack(f);
    assert(decoder_bits(input) == f);
    lemma_leading_window(f, 32);
    lemma_windows(f, 0);
}

/// Two coders that share a model, any table the coder keeps: decoding what
/// one wrote for `data`, as many symbols as it was given, gives `data`
/// back and leaves the decoder's table where the encoder's is.
pub proof fn law_mix_shared_roundtrip(t0: Seq<u32>, data: Seq<u8>)
    requires
        table_ok(t0),
        data.len() < 0x800_0000,
    ensures
        mix_decode_run(t0, decoder_start(enc_output(mix_encode_run(t0, encoder_start(), data).1)), data.len() as nat)
            == (mix_encode_run(t0, encoder_start(), data).0, data),
{
    let n = data.len() as int;
    assert(data.take(n) =~= data);
    assert(data.take(0) =~= Seq::<u8>::empty());
    lemma_run_facts(t0, data, n);
    lemma_decoder_start(run_at(t0, data, n).1);
    lemma_decode_from(t0, data, 0, decoder_start(enc_output(mix_encode_run(t0, encoder_start(), data).1)));
    assert(data.skip(0) =~= data);
}

/// Decoding what the adaptive coder wrote, as many symbols as it was given,
/// gives them back.
pub proof fn law_mix_roundtrip(data: Seq<u8>)
    requires
        data.len() < 0x800_0000,
    ensures
        mix_decoded(mix_encoded(data), data.len()) == data,
{
    lemma_initial_prefix(256);
    law_mix_shared_roundtrip(initial_table(), data);
}

/// What the byte bijection writes, the length in front, decodes to the
/// bytes.
pub proof fn law_mix_bytes_roundtrip(data: Seq<u8>)
    requires
        0 < data.len() < 0x800_0000,
    ensures
        ({
            let r = le_u32(data.len() as u32) + mix_encoded(data);
            mix_decoded(r.subrange(4, r.len() as int), from_le_u32(r, 0) as nat) == data
        }),
{
    let r = le_u32(data.len() as u32) + mix_encoded(data);
    crate::bytes::lemma_le_u32_roundtrip(data.len() as u32, Seq::empty(), mix_encoded(data));
    assert(Seq::<u8>::empty() + le_u32(data.len() as u32) + mix_encoded(data) =~= r);
    assert(r.subrange(4, r.len() as int) =~= mix_encoded(data));
    law_mix_roundtrip(data);
}

/// What the bijection over 64-bit values writes decodes to them, where
/// each fits in a byte.
pub proof fn law_mix_u64_roundtrip(values: Seq<u64>)
    requires
        values.len() < 0x800_0000,
        forall|i: int| 0 <= i < values.len() ==> #[trigger] values[i] < 256,
    ensures
        mix_u64_unframe(mix_u64_output(values)) == Some(values),
{
    if values.len() > 0 {
        let data = values.map_values(|v: u64| v as u8);
        law_mix_bytes_roundtrip(data);
        assert(data.map_values(|b: u8| b as u64) =~= values);
    } else {
        assert(values =~= Seq::<u64>::empty());
    }
}

// ---------------------------------------------------------------------------
// The range coder over any sequence of intervals
// ---------------------------------------------------------------------------
/// Intervals that the range coder takes: each a cumulative count, a count
/// of at least one and a total, the part inside the total and the total
/// within 2^30.
pub open spec fn intervals_ok(ivs: Seq<(int, int, int)>) -> bool {
    forall|i: int|
        0 <= i < ivs.len() ==> {
            &&& 0 <= (#[trigger] ivs[i]).0
            &&& 1 <= ivs[i].1
            &&& ivs[i].0 + ivs[i].1 <= ivs[i].2 <= 0x4000_0000
        }
}

/// The encoder after coding the intervals, in order, from a fresh start.
pub open spec fn enc_run(ivs: Seq<(int, int, int)>) -> EncoderState
    decreases ivs.len(),
{
    if ivs.len() == 0 {
        encoder_start()
    } else {
        let (c, f, t) = ivs.last();
        enc_step(enc_run(ivs.drop_last()), c, f, t)
    }
}

/// The decoder `d` after stepping over the intervals, in order.
pub open spec fn dec_run(d: DecoderState, ivs: Seq<(int, int, int)>) -> DecoderState
    decreases ivs.len(),
{
    if ivs.len() == 0 {
        d
    } else {
        let (c, f, t) = ivs.last();
        dec_step(dec_run(d, ivs.drop_last()), c, f, t)
    }
}

/// Along the intervals the encoder settles, writes only bits, and at most
/// 32 of them, pending or written, per interval.
proof fn lemma_enc_run_facts(ivs: Seq<(int, int, int)>, k: int)
    requires
        intervals_ok(ivs),
        0 <= k <= ivs.len(),
    ensures
        settled(enc_run(ivs.take(k))),
        all_bits(enc_run(ivs.take(k)).bits),
        enc_run(ivs.take(k)).bits.len() + enc_run(ivs.take(k)).pending <= 32 * k,
    decreases k,
{
    if k == 0 {
        assert(ivs.take(0) =~= Seq::<(int, int, int)>::empty());
    } else {
        lemma_enc_run_facts(ivs, k - 1);
        assert(ivs.take(k).drop_last() =~= ivs.take(k - 1));
        assert(ivs.take(k).last() == ivs[k - 1]);
        let st1 = enc_run(ivs.take(k - 1));
        let (c, f, t) = ivs[k - 1];
        lemma_narrow(st1.low, st1.high, c, f, t);
        let (nl, nh) = narrow(st1.low, st1.high, c, f, t);
        let nst = EncoderState { low: nl, high: nh, pending: st1.pending, bits: st1.bits };
        vstd::arithmetic::power2::lemma2_to64();
        lemma_norm_facts(nst, 0);
    }
}

/// Backward along the intervals: the final bits agree with every state,
/// whose window holds the code value.
proof fn lemma_enc_run_back(ivs: Seq<(int, int, int)>, k: int)
    requires
        intervals_ok(ivs),
        0 <= k <= ivs.len(),
    ensures
        bits_agree(enc_final_bits(enc_run(ivs)), enc_run(ivs.take(k))),
        code_inside(enc_final_bits(enc_run(ivs)), enc_run(ivs.take(k))),
    decreases ivs.len() - k,
{
    let n = ivs.len() as int;
    let fb = enc_final_bits(enc_run(ivs));
    assert(ivs.take(n) =~= ivs);
    lemma_enc_run_facts(ivs, n);
    lemma_final_bits(enc_run(ivs));
    if k < n {
        lemma_enc_run_back(ivs, k + 1);
        lemma_enc_run_facts(ivs, k);
        assert(ivs.take(k + 1).drop_last() =~= ivs.take(k));
        assert(ivs.take(k + 1).last() == ivs[k]);
        let (c, f, t) = ivs[k];
        lemma_step_back(enc_run(ivs.take(k)), fb, c, f, t);
    }
}

/// Forward along the intervals: a decoder in step with the encoder after
/// `k` intervals finds each of the rest in turn.
proof fn lemma_dec_run_from(ivs: Seq<(int, int, int)>, d0: DecoderState, k: int)
    requires
        intervals_ok(ivs),
        0 <= k <= ivs.len(),
        in_step(dec_run(d0, ivs.take(k)), enc_run(ivs.take(k)), enc_final_bits(enc_run(ivs))),
    ensures
        forall|j: int|
            k <= j < ivs.len() ==> (#[trigger] ivs[j]).0 <= freq_value(dec_run(d0, ivs.take(j)), ivs[j].2)
                < ivs[j].0 + ivs[j].1,
    decreases ivs.len() - k,
{
    let n = ivs.len() as int;
    let fb = enc_final_bits(enc_run(ivs));
    if k < n {
        assert(ivs.take(n) =~= ivs);
        lemma_enc_run_facts(ivs, n);
        lemma_final_bits(enc_run(ivs));
        lemma_enc_run_facts(ivs, k);
        lemma_enc_run_back(ivs, k + 1);
        assert(ivs.take(k + 1).drop_last() =~= ivs.take(k));
        assert(ivs.take(k + 1).last() == ivs[k]);
        let (c, f, t) = ivs[k];
        lemma_step(enc_run(ivs.take(k)), dec_run(d0, ivs.take(k)), fb, c, f, t);
        lemma_dec_run_from(ivs, d0, k + 1);
    }
}

/// The range decoder recovers every interval that the range encoder coded,
/// in order: a fresh decoder on what a fresh encoder wrote for the
/// intervals, after stepping over the first `i` of them, reads a count
/// inside interval `i`.
pub proof fn law_range_roundtrip(ivs: Seq<(int, int, int)>)
    requires
        intervals_ok(ivs),
        ivs.len() < 0x800_0000,
    ensures
        forall|i: int|
            0 <= i < ivs.len() ==> (#[trigger] ivs[i]).0 <= freq_value(
                dec_run(decoder_start(enc_output(enc_run(ivs))), ivs.take(i)),
                ivs[i].2,
            ) < ivs[i].0 + ivs[i].1,
{
    let n = ivs.len() as int;
    let d0 = decoder_start(enc_output(enc_run(ivs)));
    assert(ivs.take(n) =~= ivs);
    assert(ivs.take(0) =~= Seq::<(int, int, int)>::empty());
    lemma_enc_run_facts(ivs, n);
    lemma_decoder_start(enc_run(ivs));
    lemma_dec_run_from(ivs, d0, 0);
}

} // verus!
