//! A sorted sequence stored as its smallest value and the number of times
//! each value from there on occurs.
use crate::bijection::Bijection;
use crate::bitops::lemma_i64_u64_roundtrip;
use vstd::prelude::*;

verus! {

pub open spec fn sorted_i64(s: Seq<i64>) -> bool {
    forall|i: int, j: int| 0 <= i <= j < s.len() ==> s[i] <= s[j]
}

/// How many elements of `s` equal `v`.
pub open spec fn count_in(s: Seq<i64>, v: int) -> nat
    decreases s.len(),
{
    if s.len() == 0 {
        0
    } else {
        count_in(s.drop_last(), v) + if s.last() == v {
            1nat
        } else {
            0nat
        }
    }
}

/// `n` copies of `v`.
pub open spec fn repeat(v: i64, n: nat) -> Seq<i64> {
    Seq::new(n, |i: int| v)
}

/// Value `start + k` repeated `counts[k]` times, for each `k` in order.
pub open spec fn expand(start: int, counts: Seq<u64>) -> Seq<i64>
    decreases counts.len(),
{
    if counts.len() == 0 {
        Seq::empty()
    } else {
        expand(start, counts.drop_last()) + repeat(
            (start + counts.len() - 1) as i64,
            counts.last() as nat,
        )
    }
}

/// The sum of the counts.
pub open spec fn sum_u64(s: Seq<u64>) -> int
    decreases s.len(),
{
    if s.len() == 0 {
        0
    } else {
        sum_u64(s.drop_last()) + s.last()
    }
}

/// The histogram of a sorted sequence: its first value, then the count of
/// each value from the first to the last.
pub open spec fn histogram(s: Seq<i64>) -> Seq<u64> {
    if s.len() == 0 {
        Seq::empty()
    } else {
        seq![s[0] as u64] + Seq::new(
            (s.last() - s[0] + 1) as nat,
            |k: int| count_in(s, s[0] + k) as u64,
        )
    }
}

/// Sorted values stored as a histogram.
pub struct HistogramBijection;

/// The sequences a histogram is taken of: sorted, spanning at most fifty
/// million values.
pub open spec fn histogram_accepts(s: Seq<i64>) -> bool {
    sorted_i64(s) && (s.len() > 0 ==> s.last() - s[0] + 1 <= 50_000_000)
}

/// The histograms that expand within 64 bits.
pub open spec fn histogram_reverts(h: Seq<u64>) -> bool {
    h.len() > 0 ==> {
        &&& sum_u64(h.drop_first()) <= u64::MAX
        &&& (h[0] as i64) + h.len() - 1 <= i64::MAX
    }
}

/// The sequence a histogram stands for.
pub open spec fn histogram_expand(h: Seq<u64>) -> Seq<i64> {
    if h.len() == 0 {
        Seq::empty()
    } else {
        expand((h[0] as i64) as int, h.drop_first())
    }
}

/// Whether a sequence is taken: sorted, spanning at most fifty million
/// values.
pub fn histogram_takes(s: &Vec<i64>) -> (b: bool)
    ensures
        b == histogram_accepts(s@),
{
    let mut i: usize = 1;
    while i < s.len()
        invariant
            1 <= i,
            i <= s@.len() || s@.len() == 0,
            forall|a: int, b: int| 0 <= a <= b < i && b < s@.len() ==> s@[a] <= s@[b],
        decreases s@.len() - i,
    {
        if s[i - 1] > s[i] {
            return false;
        }
        i += 1;
    }
    if s.len() == 0 {
        return true;
    }
    let first = s[0];
    let last = s[s.len() - 1];
    if first > i64::MAX - 49_999_999 {
        true
    } else {
        last <= first + 49_999_999
    }
}

/// Whether a histogram expands within 64 bits.
pub fn histogram_expands(h: &Vec<u64>) -> (b: bool)
    ensures
        b == histogram_reverts(h@),
{
    if h.len() == 0 {
        return true;
    }
    let ghost counts = h@.drop_first();
    let mut total: u64 = 0;
    let mut t: usize = 1;
    while t < h.len()
        invariant
            counts == h@.drop_first(),
            h@.len() > 0,
            1 <= t <= h@.len(),
            total == sum_u64(counts.take(t - 1)),
        decreases h@.len() - t,
    {
        proof {
            assert(counts.take(t as int).drop_last() == counts.take(t - 1));
            assert(counts.take(t as int).last() == h@[t as int]);
        }
        if h[t] > u64::MAX - total {
            proof {
                lemma_sum_prefix_le(counts, t as int);
            }
            return false;
        }
        total = total + h[t];
        t += 1;
    }
    proof {
        assert(counts.take(counts.len() as int) == counts);
    }
    let v = h[0] as i64;
    let n = (h.len() - 1) as u64;
    let limit: u64 = if v >= 0 {
        (i64::MAX - v) as u64
    } else {
        (i64::MAX as u64) + ((-(v + 1)) as u64) + 1
    };
    n <= limit
}

impl Bijection<Vec<i64>, Vec<u64>> for HistogramBijection {
    open spec fn applies_to(&self, source: Vec<i64>) -> bool {
        histogram_accepts(source@)
    }

    open spec fn reverts(&self, source: Vec<u64>) -> bool {
        histogram_reverts(source@)
    }

    fn apply(&self, source: Vec<i64>) -> (output: Vec<u64>)
        ensures
            output@ == histogram(source@),
    {
        if source.len() == 0 {
            return Vec::new();
        }
        let ghost s = source@;
        let min = source[0];
        let max = source[source.len() - 1];
        let mut i: usize = 0;
        while i < source.len() - 1
            invariant
                s == source@,
                sorted_i64(s),
                s.len() > 0,
            decreases source.len() - i,
        {
            if source[i] > source[i + 1] {
                assert(false);
            }
            i += 1;
        }
        let range = (max - min + 1) as usize;
        let mut counts: Vec<u64> = vec![0u64; range];
        let mut j: usize = 0;
        while j < source.len()
            invariant
                s == source@,
                sorted_i64(s),
                s.len() > 0,
                min == s[0],
                max == s.last(),
                range == max - min + 1,
                range <= 50_000_000,
                j <= s.len(),
                counts@.len() == range,
                forall|k: int| 0 <= k < range ==> #[trigger] counts@[k] == count_in(s.take(j as int), min + k),
                forall|k: int| 0 <= k < range ==> #[trigger] count_in(s.take(j as int), min + k) <= j,
            decreases s.len() - j,
        {
            let val = source[j];
            assert(min <= val <= max);
            let idx = (val - min) as usize;
            proof {
                assert(s.take(j + 1).drop_last() == s.take(j as int));
                assert forall|k: int| 0 <= k < range implies #[trigger] count_in(s.take(j + 1), min + k)
                    == count_in(s.take(j as int), min + k) + if k == idx { 1nat } else { 0nat } by {}
            }
            counts.set(idx, counts[idx] + 1);
            j += 1;
        }
        assert(s.take(s.len() as int) == s);
        let mut output: Vec<u64> = Vec::new();
        output.push(min as u64);
        output.append(&mut counts);
        assert(output@ == histogram(s));
        output
    }

    fn revert(&self, source: Vec<u64>) -> (output: Vec<i64>)
        ensures
            output@ == histogram_expand(source@),
    {
        if source.len() == 0 {
            return Vec::new();
        }
        let ghost counts = source@.drop_first();
        let min = source[0] as i64;
        let mut total: u64 = 0;
        let mut t: usize = 1;
        while t < source.len()
            invariant
                counts == source@.drop_first(),
                self.reverts(source),
                source@.len() > 0,
                1 <= t <= source@.len(),
                total == sum_u64(counts.take(t - 1)),
            decreases source@.len() - t,
        {
            proof {
                assert(counts.take(t as int).drop_last() == counts.take(t - 1));
                lemma_sum_prefix_le(counts, t as int);
            }
            total = total + source[t];
            t += 1;
        }
        let mut output: Vec<i64> = Vec::with_capacity(total as usize);
        let mut current_val = min;
        let mut k: usize = 1;
        while k < source.len()
            invariant
                counts == source@.drop_first(),
                self.reverts(source),
                source@.len() > 0,
                min == source@[0] as i64,
                1 <= k <= source@.len(),
                current_val == min + k - 1,
                output@ == expand(min as int, counts.take(k - 1)),
            decreases source@.len() - k,
        {
            let count = source[k];
            let mut c: u64 = 0;
            proof {
                assert(counts.take(k as int).drop_last() == counts.take(k - 1));
            }
            while c < count
                invariant
                    c <= count,
                    current_val == min + k - 1,
                    output@ == expand(min as int, counts.take(k - 1)) + repeat(current_val, c as nat),
                decreases count - c,
            {
                output.push(current_val);
                assert(repeat(current_val, (c + 1) as nat) == repeat(current_val, c as nat).push(current_val));
                c += 1;
            }
            assert(output@ == expand(min as int, counts.take(k as int)));
            current_val += 1;
            k += 1;
        }
        assert(counts.take(counts.len() as int) == counts);
        output
    }
}

pub open spec fn zeros(n: nat) -> Seq<u64> {
    Seq::new(n, |i: int| 0u64)
}

pub proof fn lemma_expand_trailing_zeros(start: int, c: Seq<u64>, z: nat)
    ensures
        expand(start, c + zeros(z)) == expand(start, c),
    decreases z,
{
    if z == 0 {
        assert(c + zeros(0) == c);
    } else {
        lemma_expand_trailing_zeros(start, c, (z - 1) as nat);
        assert((c + zeros(z)).drop_last() == c + zeros((z - 1) as nat));
        assert(repeat((start + (c + zeros(z)).len() - 1) as i64, 0) == Seq::<i64>::empty());
    }
}

pub proof fn lemma_count_absent(s: Seq<i64>, v: int)
    requires
        forall|i: int| 0 <= i < s.len() ==> s[i] != v,
    ensures
        count_in(s, v) == 0,
    decreases s.len(),
{
    if s.len() > 0 {
        lemma_count_absent(s.drop_last(), v);
    }
}

/// The histogram of a sorted sequence over a window that holds all of its
/// values expands back to the sequence.
pub proof fn lemma_expand_counts(s: Seq<i64>, start: int, r: nat)
    requires
        sorted_i64(s),
        s.len() < u64::MAX,
        forall|i: int| 0 <= i < s.len() ==> start <= #[trigger] s[i] < start + r,
    ensures
        expand(start, Seq::new(r, |k: int| count_in(s, start + k) as u64)) == s,
    decreases s.len(),
{
    let cs = Seq::new(r, |k: int| count_in(s, start + k) as u64);
    if s.len() == 0 {
        assert(cs == Seq::<u64>::empty() + zeros(r));
        lemma_expand_trailing_zeros(start, Seq::empty(), r);
    } else {
        let t = s.drop_last();
        let x = s.last();
        let m = x - start;
        assert forall|i: int| 0 <= i < t.len() implies start <= #[trigger] t[i] < start + r && t[i] <= x by {
            assert(s[i] == t[i]);
        }
        lemma_expand_counts(t, start, r);
        let ct = Seq::new(r, |k: int| count_in(t, start + k) as u64);
        let a = Seq::new(m as nat, |k: int| count_in(t, start + k) as u64);
        let zs = zeros((r - m - 1) as nat);
        assert forall|k: int| m < k < r implies #[trigger] count_in(s, start + k) == 0 && count_in(t, start + k) == 0 by {
            lemma_count_absent(s, start + k);
            lemma_count_absent(t, start + k);
        }
        assert(count_in(s, x as int) == count_in(t, x as int) + 1);
        lemma_count_le_len(t, x as int);
        let n0 = count_in(t, x as int);
        assert forall|k: int| 0 <= k < r implies #[trigger] cs[k] == (a.push((n0 + 1) as u64) + zs)[k] by {
            lemma_count_le_len(s, start + k);
            if k < m {
                assert(count_in(s, start + k) == count_in(t, start + k));
            }
        }
        assert(cs == a.push((n0 + 1) as u64) + zs);
        assert forall|k: int| 0 <= k < r implies #[trigger] ct[k] == (a.push(n0 as u64) + zs)[k] by {
            lemma_count_le_len(t, start + k);
            if k > m {
                assert(count_in(s, start + k) == 0);
            }
        }
        assert(ct == a.push(n0 as u64) + zs);
        lemma_expand_trailing_zeros(start, a.push((count_in(t, x as int) + 1) as u64), zs.len());
        lemma_expand_trailing_zeros(start, a.push(count_in(t, x as int) as u64), zs.len());
        assert(a.push((count_in(t, x as int) + 1) as u64).drop_last() == a);
        assert(a.push(count_in(t, x as int) as u64).drop_last() == a);
        let n = count_in(t, x as int);
        assert(repeat(x, n + 1) == repeat(x, n).push(x));
        assert(s == t.push(x));
    }
}

pub proof fn lemma_count_le_len(s: Seq<i64>, v: int)
    ensures
        count_in(s, v) <= s.len(),
    decreases s.len(),
{
    if s.len() > 0 {
        lemma_count_le_len(s.drop_last(), v);
    }
}

/// A sorted sequence is restored from its histogram.
pub proof fn law_histogram_roundtrip(s: Seq<i64>)
    requires
        sorted_i64(s),
        0 < s.len() < u64::MAX,
        s.last() < i64::MAX,
    ensures
        expand(((histogram(s)[0] as i64) as int), histogram(s).drop_first()) == s,
        sum_u64(histogram(s).drop_first()) == s.len(),
        (histogram(s)[0] as i64) + histogram(s).len() - 1 <= i64::MAX,
{
    let h = histogram(s);
    let x0 = s[0];
    lemma_i64_u64_roundtrip(x0);
    let r = (s.last() - s[0] + 1) as nat;
    assert forall|i: int| 0 <= i < s.len() implies s[0] <= #[trigger] s[i] < s[0] + r by {}
    assert(h.drop_first() == Seq::new(r, |k: int| count_in(s, s[0] + k) as u64));
    lemma_expand_counts(s, s[0] as int, r);
    lemma_expand_len(s[0] as int, h.drop_first());
}

pub proof fn lemma_expand_len(start: int, c: Seq<u64>)
    ensures
        expand(start, c).len() == sum_u64(c),
    decreases c.len(),
{
    if c.len() > 0 {
        lemma_expand_len(start, c.drop_last());
    }
}

/// The counts of a prefix add up to no more than all the counts.
pub proof fn lemma_sum_prefix_le(s: Seq<u64>, i: int)
    requires
        0 <= i <= s.len(),
    ensures
        sum_u64(s.take(i)) <= sum_u64(s),
    decreases s.len() - i,
{
    if i < s.len() {
        lemma_sum_prefix_le(s, i + 1);
        assert(s.take(i + 1).drop_last() == s.take(i));
    } else {
        assert(s.take(i) == s);
    }
}

/// Every sorted sequence whose last value lies at most 49,999,999 above
/// its first, spanning at most fifty million values, is taken by the
/// histogram coder, whatever that span within the limit.
pub proof fn law_histogram_span_accepted(s: Seq<i64>)
    requires
        forall|i: int, j: int| 0 <= i <= j < s.len() ==> s[i] <= s[j],
        s.len() > 0 ==> s.last() - s[0] < 50_000_000,
    ensures
        histogram_accepts(s),
{
}

} // verus!
