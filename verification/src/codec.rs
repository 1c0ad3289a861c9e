//! The event codec: each column coded on its own, the parts framed by their
//! lengths.
use crate::ans::{
    ans_byte_accepts, ans_byte_output, ans_byte_unframe, ans_u64_accepts, ans_u64_complete,
    ans_u64_output, ans_u64_unframe, byte_table, law_ans_byte_output_roundtrip,
    law_ans_u64_output_roundtrip, table_complete, AnsBijection, AnsU64Bijection,
};
use crate::bijection::{law_vint_roundtrip, try_decode_vints, Bijection, VIntBijection};
use crate::monotonic::zstd_vints;
use crate::vint::vint_encode_all;
use crate::compress::{zstd_decoded, zstd_output, ZStdBijection};
use crate::vint::{lemma_vint_part_at, read_part, read_vint, try_read_part, vint_bytes, vint_part, write_vint};
use vstd::prelude::*;

verus! {

// ---------------------------------------------------------------------------
// Three-byte indices, split into columns
// ---------------------------------------------------------------------------
/// The low and middle byte of each index, one index after the other.
pub open spec fn u24_low_mid(s: Seq<u64>) -> Seq<u8> {
    Seq::new(2 * s.len(), |k: int| ((s[k / 2] as nat / if k % 2 == 0 { 1nat } else { 256nat }) % 256) as u8)
}

/// The high byte of each index.
pub open spec fn u24_high(s: Seq<u64>) -> Seq<u8> {
    s.map_values(|x: u64| ((x as nat / 0x1_0000) % 256) as u8)
}

/// The two columns framed: the compressed low and middle bytes, then the
/// coded high bytes, each after its length.
pub open spec fn u24_frame(low: Seq<u8>, high: Seq<u8>) -> Seq<u8> {
    vint_bytes(low.len() as u64) + low + vint_bytes(high.len() as u64) + high
}

/// What the columns of `indices` are written as: nothing for nothing,
/// else the frame of the compressed low and middle bytes and the coded high
/// bytes.
pub open spec fn u24_output(indices: Seq<u64>, result: Seq<u8>) -> bool {
    &&& indices.len() == 0 ==> result.len() == 0
    &&& indices.len() > 0 ==> exists|low: Seq<u8>|
        #[trigger] zstd_output(u24_low_mid(indices), low) && result == u24_frame(
            low,
            ans_byte_output(u24_high(indices)),
        )
}

/// Indices of at most 24 bits in two columns: the low and middle bytes
/// compressed, the high bytes coded by rANS.
pub fn encode_u24_columnar(indices: &[u64]) -> (result: Vec<u8>)
    requires
        ans_byte_accepts(u24_high(indices@)),
    ensures
        u24_output(indices@, result@),
{
    match try_encode_u24_columnar(indices) {
        Some(result) => result,
        None => Vec::new(),
    }
}

/// Writes the two columns, or gives `None` where the high bytes are not
/// taken by the byte coder.
pub fn try_encode_u24_columnar(indices: &[u64]) -> (result: Option<Vec<u8>>)
    ensures
        result is Some <==> ans_byte_accepts(u24_high(indices@)),
        result matches Some(r) ==> u24_output(indices@, r@),
{
    if indices.len() == 0 {
        proof {
            assert(u24_high(indices@) =~= Seq::<u8>::empty());
        }
        return Some(Vec::new());
    }
    let mut low_bytes: Vec<u8> = Vec::new();
    let mut high_bytes: Vec<u8> = Vec::new();
    let mut i: usize = 0;
    while i < indices.len()
        invariant
            i <= indices@.len(),
            low_bytes@ == u24_low_mid(indices@.take(i as int)),
            high_bytes@ == u24_high(indices@.take(i as int)),
        decreases indices@.len() - i,
    {
        let idx = indices[i];
        low_bytes.push((idx % 256) as u8);
        low_bytes.push(((idx / 256) % 256) as u8);
        high_bytes.push(((idx / 0x1_0000) % 256) as u8);
        proof {
            let t = indices@.take(i + 1);
            assert(t.drop_last() == indices@.take(i as int));
            assert(low_bytes@ =~= u24_low_mid(t)) by {
                assert forall|k: int| 0 <= k < 2 * t.len() implies low_bytes@[k] == u24_low_mid(t)[k] by {
                    if k < 2 * i {
                        assert(t[k / 2] == indices@.take(i as int)[k / 2]);
                    }
                }
            }
            assert(high_bytes@ =~= u24_high(t));
        }
        i += 1;
    }
    assert(indices@.take(indices@.len() as int) == indices@);
    let c_low = ZStdBijection.apply(low_bytes);
    let mut c_high = match AnsBijection.try_apply(high_bytes) {
        Some(c) => c,
        None => return None,
    };
    let mut result: Vec<u8> = Vec::new();
    write_vint(c_low.len() as u64, &mut result);
    let ghost low = c_low@;
    let mut c_low = c_low;
    result.append(&mut c_low);
    write_vint(c_high.len() as u64, &mut result);
    result.append(&mut c_high);
    assert(result@ == u24_frame(low, ans_byte_output(u24_high(indices@))));
    Some(result)
}

/// The indices that two columns give back: each from its low and middle
/// byte and its high byte.
pub open spec fn u24_join(low: Seq<u8>, high: Seq<u8>) -> Seq<u64> {
    Seq::new(high.len(), |i: int| (low[2 * i] + 256 * low[2 * i + 1] + 0x1_0000 * high[i]) as u64)
}

/// What decoding two columns gives; `None` where a part cannot be read or
/// the low column is too short.
pub open spec fn u24_unframe(d: Seq<u8>) -> Option<Seq<u64>> {
    if d.len() == 0 {
        Some(Seq::empty())
    } else {
        match vint_part(d, 0) {
            None => None,
            Some((cl, o1)) => match vint_part(d, o1) {
                None => None,
                Some((ch, _)) => match zstd_decoded(cl) {
                    None => None,
                    Some(low) => match ans_byte_unframe(ch) {
                        None => None,
                        Some(high) => if low.len() < 2 * high.len() {
                            None
                        } else {
                            Some(u24_join(low, high))
                        },
                    },
                },
            },
        }
    }
}

/// Reads the two columns back into indices.
pub fn decode_u24_columnar(data: &[u8]) -> (indices: Vec<u64>)
    requires
        u24_unframe(data@) is Some,
    ensures
        u24_unframe(data@) == Some(indices@),
{
    match try_decode_u24_columnar(data) {
        Some(indices) => indices,
        None => Vec::new(),
    }
}

/// Reads the two columns back into indices, or gives `None` where they
/// cannot be read.
pub fn try_decode_u24_columnar(data: &[u8]) -> (indices: Option<Vec<u64>>)
    ensures
        match indices {
            Some(v) => u24_unframe(data@) == Some(v@),
            None => u24_unframe(data@) is None,
        },
{
    if data.len() == 0 {
        return Some(Vec::new());
    }
    let mut offset: usize = 0;
    let c_low = match try_read_part(data, &mut offset) {
        Some(p) => p,
        None => return None,
    };
    let c_high = match try_read_part(data, &mut offset) {
        Some(p) => p,
        None => return None,
    };
    let low_bytes = match ZStdBijection.try_revert(c_low) {
        Some(v) => v,
        None => return None,
    };
    let high_bytes = match AnsBijection.try_revert(c_high) {
        Some(v) => v,
        None => return None,
    };
    let count = high_bytes.len();
    let lowlen = low_bytes.len();
    if lowlen / 2 < count {
        return None;
    }
    let mut indices: Vec<u64> = Vec::new();
    let mut i: usize = 0;
    while i < count
        invariant
            count == high_bytes@.len(),
            lowlen == low_bytes@.len(),
            low_bytes@.len() >= 2 * count,
            i <= count,
            indices@ == u24_join(low_bytes@, high_bytes@).take(i as int),
        decreases count - i,
    {
        let low = low_bytes[2 * i] as u64;
        let mid = low_bytes[2 * i + 1] as u64;
        let high = high_bytes[i] as u64;
        indices.push(low + 256 * mid + 0x1_0000 * high);
        assert(indices@ =~= u24_join(low_bytes@, high_bytes@).take(i + 1));
        i += 1;
    }
    assert(indices@ =~= u24_join(low_bytes@, high_bytes@));
    Some(indices)
}

/// Indices below 2^24 come back from their low, middle and high bytes.
pub proof fn law_u24_columns(s: Seq<u64>)
    requires
        forall|i: int| 0 <= i < s.len() ==> #[trigger] s[i] < 0x100_0000,
    ensures
        u24_join(u24_low_mid(s), u24_high(s)) == s,
{
    let j = u24_join(u24_low_mid(s), u24_high(s));
    assert forall|i: int| 0 <= i < s.len() implies j[i] == s[i] by {
        let x = s[i] as nat;
        assert(u24_low_mid(s)[2 * i] == (x % 256) as u8);
        assert(u24_low_mid(s)[2 * i + 1] == ((x / 256) % 256) as u8);
        assert(u24_high(s)[i] == ((x / 0x1_0000) % 256) as u8);
        assert(x % 256 + 256 * ((x / 256) % 256) + 0x1_0000 * ((x / 0x1_0000) % 256) == x) by (nonlinear_arith)
            requires
                x < 0x100_0000,
        ;
    }
    assert(j =~= s);
}


// ---------------------------------------------------------------------------
// Repository indices: the most frequent as symbols, the rest on their own
// ---------------------------------------------------------------------------
/// The symbol that stands for an index outside the most frequent.
pub const OTHER_SYMBOL: u16 = 2047;

/// How many times `v` occurs in `s`.
pub open spec fn count_of(s: Seq<u64>, v: u64) -> nat
    decreases s.len(),
{
    if s.len() == 0 {
        0
    } else {
        count_of(s.drop_last(), v) + if s.last() == v {
            1nat
        } else {
            0nat
        }
    }
}

/// `a` ranks before `b`: it occurs more often, or as often and is smaller.
pub open spec fn ranks_before(s: Seq<u64>, a: u64, b: u64) -> bool {
    count_of(s, a) > count_of(s, b) || (count_of(s, a) == count_of(s, b) && a < b)
}

/// `o` lists the distinct values of `s`, the most frequent first, ties
/// smallest first.
pub open spec fn is_frequency_order(o: Seq<u64>, s: Seq<u64>) -> bool {
    &&& forall|i: int, j: int| 0 <= i < j < o.len() ==> ranks_before(s, #[trigger] o[i], #[trigger] o[j])
    &&& forall|v: u64| o.contains(v) <==> s.contains(v)
}

/// Where `v` stands in `o`.
pub open spec fn rank_of(o: Seq<u64>, v: u64) -> int {
    choose|i: int| 0 <= i < o.len() && o[i] == v
}

/// The symbol of a value: its rank among the most frequent, or the other
/// symbol.
pub open spec fn symbol_of(o: Seq<u64>, v: u64) -> u16 {
    if rank_of(o, v) < OTHER_SYMBOL {
        rank_of(o, v) as u16
    } else {
        OTHER_SYMBOL
    }
}

/// The most frequent values, at most 2047 of them.
pub open spec fn repo_top(o: Seq<u64>) -> Seq<u64> {
    o.take(if o.len() < 2047 { o.len() as int } else { 2047 })
}

pub open spec fn repo_symbols(o: Seq<u64>, s: Seq<u64>) -> Seq<u16> {
    s.map_values(|v: u64| symbol_of(o, v))
}

/// The symbols as 64-bit values, as the symbol coder takes them.
pub open spec fn repo_symbol_values(o: Seq<u64>, s: Seq<u64>) -> Seq<u64> {
    repo_symbols(o, s).map_values(|x: u16| x as u64)
}

/// The values that get the other symbol, in order.
pub open spec fn repo_others(o: Seq<u64>, s: Seq<u64>) -> Seq<u64>
    decreases s.len(),
{
    if s.len() == 0 {
        Seq::empty()
    } else {
        repo_others(o, s.drop_last()) + if symbol_of(o, s.last()) == OTHER_SYMBOL {
            seq![s.last()]
        } else {
            Seq::empty()
        }
    }
}

/// The values that symbols stand for: each symbol's entry in `top`, and for
/// the other symbol the next of `others`; `None` where a symbol points past
/// `top` or the others run out.
pub open spec fn restore_symbols(top: Seq<u64>, syms: Seq<u64>, others: Seq<u64>) -> Option<Seq<u64>>
    decreases syms.len(),
{
    if syms.len() == 0 {
        Some(Seq::empty())
    } else if syms[0] == OTHER_SYMBOL as u64 {
        if others.len() == 0 {
            None
        } else {
            match restore_symbols(top, syms.drop_first(), others.drop_first()) {
                Some(rest) => Some(seq![others[0]] + rest),
                None => None,
            }
        }
    } else if syms[0] < top.len() {
        match restore_symbols(top, syms.drop_first(), others) {
            Some(rest) => Some(seq![top[syms[0] as int]] + rest),
            None => None,
        }
    } else {
        None
    }
}

/// Calls `sort` on the vector. Claims what std documents of it: the same
/// pairs come out, in lexicographic order.
#[verifier::external_body]
fn sort_pairs(v: &mut Vec<(u64, u64)>)
    ensures
        final(v)@.to_multiset() == old(v)@.to_multiset(),
        forall|i: int, j: int|
            0 <= i < j < final(v)@.len() ==> (#[trigger] final(v)@[i]).0 < (#[trigger] final(v)@[j]).0 || (
            final(v)@[i].0 == final(v)@[j].0 && final(v)@[i].1 <= final(v)@[j].1),
{
    v.sort();
}

proof fn lemma_count_of_le(s: Seq<u64>, v: u64)
    ensures
        count_of(s, v) <= s.len(),
    decreases s.len(),
{
    if s.len() > 0 {
        lemma_count_of_le(s.drop_last(), v);
    }
}

/// The distinct values of `values`, most frequent first.
fn frequency_order(values: &Vec<u64>) -> (o: Vec<u64>)
    ensures
        is_frequency_order(o@, values@),
{
    broadcast use vstd::std_specs::hash::group_hash_axioms;
    let mut freq: std::collections::HashMap<u64, u64> = std::collections::HashMap::new();
    let mut i: usize = 0;
    while i < values.len()
        invariant
            i <= values@.len(),
            forall|v: u64| #[trigger] count_of(values@.take(i as int), v) == if freq@.contains_key(v) {
                freq@[v] as nat
            } else {
                0nat
            },
        decreases values@.len() - i,
    {
        let v = values[i];
        proof {
            assert(values@.take(i + 1).drop_last() == values@.take(i as int));
            assert(values@.take(i + 1).last() == v);
            lemma_count_of_le(values@.take(i as int), v);
        }
        let c: u64 = match freq.get(&v) {
            Some(c) => *c,
            None => 0,
        };
        freq.insert(v, c + 1);
        i += 1;
        proof {
            assert forall|w: u64| #[trigger] count_of(values@.take(i as int), w) == if freq@.contains_key(w) {
                freq@[w] as nat
            } else {
                0nat
            } by {
                assert(count_of(values@.take(i as int), w) == count_of(values@.take(i - 1), w) + if w == v {
                    1nat
                } else {
                    0nat
                });
            }
        }
    }
    assert(values@.take(values@.len() as int) == values@);
    let distinct = crate::sorting::sorted_distinct(values);
    let n = distinct.len();
    let mut pairs: Vec<(u64, u64)> = Vec::new();
    let mut k: usize = 0;
    while k < n
        invariant
            k <= n,
            n == distinct@.len(),
            forall|v: u64| #[trigger] count_of(values@, v) == if freq@.contains_key(v) {
                freq@[v] as nat
            } else {
                0nat
            },
            pairs@.len() == k,
            forall|p: int| 0 <= p < k ==> #[trigger] pairs@[p] == ((u64::MAX - count_of(values@, distinct@[p])) as u64, distinct@[p]),
        decreases n - k,
    {
        let v = distinct[k];
        proof {
            lemma_count_of_le(values@, v);
        }
        let c: u64 = match freq.get(&v) {
            Some(c) => *c,
            None => 0,
        };
        pairs.push((u64::MAX - c, v));
        k += 1;
    }
    let ghost before = pairs@;
    proof {
        assert(before.no_duplicates()) by {
            assert forall|a: int, b: int| 0 <= a < before.len() && 0 <= b < before.len() && a != b implies before[a] != before[b] by {
                if a < b {
                    assert(distinct@[a] < distinct@[b]);
                } else {
                    assert(distinct@[b] < distinct@[a]);
                }
            }
        }
        before.lemma_multiset_has_no_duplicates();
    }
    sort_pairs(&mut pairs);
    let ghost after = pairs@;
    proof {
        broadcast use vstd::seq_lib::group_to_multiset_ensures;

        after.lemma_multiset_has_no_duplicates_conv();
        assert forall|r: int| 0 <= r < after.len() implies exists|p: int|
            0 <= p < n && #[trigger] after[r] == before[p] by {
            assert(after.contains(after[r]));
            assert(after.to_multiset().count(after[r]) > 0);
            assert(before.to_multiset().count(after[r]) > 0);
            assert(before.contains(after[r]));
        }
    }
    let mut o: Vec<u64> = Vec::new();
    let mut r: usize = 0;
    while r < pairs.len()
        invariant
            pairs@ == after,
            r <= after.len(),
            o@ == after.take(r as int).map_values(|t: (u64, u64)| t.1),
        decreases after.len() - r,
    {
        o.push(pairs[r].1);
        assert(o@ =~= after.take(r + 1).map_values(|t: (u64, u64)| t.1));
        r += 1;
    }
    proof {
        broadcast use vstd::seq_lib::group_to_multiset_ensures;

        assert(after.take(after.len() as int) == after);
        assert(after.to_multiset().len() == before.to_multiset().len());
        assert(after.len() == n);
        assert forall|a: int, b: int| 0 <= a < b < o@.len() implies ranks_before(values@, #[trigger] o@[a], #[trigger] o@[b]) by {
            let pa = choose|p: int| 0 <= p < n && after[a] == before[p];
            let pb = choose|p: int| 0 <= p < n && after[b] == before[p];
            assert(after[a] != after[b]);
            lemma_count_of_le(values@, distinct@[pa]);
            lemma_count_of_le(values@, distinct@[pb]);
        }
        assert forall|v: u64| o@.contains(v) <==> values@.contains(v) by {
            if o@.contains(v) {
                let r = choose|r: int| 0 <= r < o@.len() && o@[r] == v;
                let p = choose|p: int| 0 <= p < n && after[r] == before[p];
                assert(distinct@.contains(v));
            }
            if values@.contains(v) {
                assert(distinct@.contains(v));
                let p = choose|p: int| 0 <= p < n && distinct@[p] == v;
                assert(before.contains(before[p]));
                assert(before.to_multiset().count(before[p]) > 0);
                assert(after.to_multiset().count(before[p]) > 0);
                assert(after.contains(before[p]));
                let r = choose|r: int| 0 <= r < after.len() && after[r] == before[p];
                assert(o@[r] == v);
            }
        }
    }
    o
}


/// In a frequency order each value stands at one place.
proof fn lemma_rank_of(o: Seq<u64>, s: Seq<u64>, r: int)
    requires
        is_frequency_order(o, s),
        0 <= r < o.len(),
    ensures
        rank_of(o, o[r]) == r,
{
    let i = rank_of(o, o[r]);
    assert(0 <= i < o.len() && o[i] == o[r]);
    if i < r {
        assert(ranks_before(s, o[i], o[r]));
    } else if i > r {
        assert(ranks_before(s, o[r], o[i]));
    }
}

/// The most frequent values, the symbol of each value and the values that
/// get the other symbol.
fn rank_repo_indices(values: &Vec<u64>) -> (res: (Vec<u64>, Vec<u64>, Vec<u64>))
    ensures
        exists|o: Seq<u64>|
            {
                &&& #[trigger] is_frequency_order(o, values@)
                &&& res.0@ == repo_top(o)
                &&& res.1@ == repo_symbol_values(o, values@)
                &&& res.2@ == repo_others(o, values@)
            },
{
    broadcast use vstd::std_specs::hash::group_hash_axioms;
    let order = frequency_order(values);
    let ghost o = order@;
    let top_count = if order.len() < 2047 { order.len() } else { 2047 };
    let mut index_to_symbol: std::collections::HashMap<u64, u16> = std::collections::HashMap::new();
    let mut r: usize = 0;
    while r < top_count
        invariant
            is_frequency_order(o, values@),
            order@ == o,
            top_count <= o.len(),
            top_count <= 2047,
            r <= top_count,
            forall|v: u64|
                #[trigger] index_to_symbol@.contains_key(v) <==> (o.contains(v) && rank_of(o, v) < r),
            forall|v: u64| #[trigger] index_to_symbol@.contains_key(v) ==> index_to_symbol@[v] == rank_of(o, v) as u16,
        decreases top_count - r,
    {
        let v = order[r];
        proof {
            lemma_rank_of(o, values@, r as int);
        }
        index_to_symbol.insert(v, r as u16);
        r += 1;
        proof {
            assert forall|w: u64| #[trigger] index_to_symbol@.contains_key(w) <==> (o.contains(w) && rank_of(o, w) < r) by {
                if w == v {
                    assert(o.contains(v));
                } else if o.contains(w) && rank_of(o, w) == r - 1 {
                    let k = rank_of(o, w);
                    assert(0 <= k < o.len() && o[k] == w);
                    assert(o[r - 1] == v);
                }
            }
        }
    }
    let mut top: Vec<u64> = Vec::new();
    let mut t: usize = 0;
    while t < top_count
        invariant
            order@ == o,
            top_count <= o.len(),
            t <= top_count,
            top@ == o.take(t as int),
        decreases top_count - t,
    {
        top.push(order[t]);
        assert(top@ =~= o.take(t + 1));
        t += 1;
    }
    let mut symbols: Vec<u64> = Vec::new();
    let mut others: Vec<u64> = Vec::new();
    let mut i: usize = 0;
    while i < values.len()
        invariant
            is_frequency_order(o, values@),
            top_count == if o.len() < 2047 { o.len() as int } else { 2047 },
            forall|v: u64|
                #[trigger] index_to_symbol@.contains_key(v) <==> (o.contains(v) && rank_of(o, v) < top_count),
            forall|v: u64| #[trigger] index_to_symbol@.contains_key(v) ==> index_to_symbol@[v] == rank_of(o, v) as u16,
            i <= values@.len(),
            symbols@ == repo_symbol_values(o, values@.take(i as int)),
            others@ == repo_others(o, values@.take(i as int)),
        decreases values@.len() - i,
    {
        let v = values[i];
        let sym: u16 = match index_to_symbol.get(&v) {
            Some(s) => *s,
            None => OTHER_SYMBOL,
        };
        proof {
            assert(values@.contains(v));
            assert(o.contains(v));
            let k = rank_of(o, v);
            assert(0 <= k < o.len() && o[k] == v);
            assert(sym == symbol_of(o, v));
            assert(values@.take(i + 1).drop_last() == values@.take(i as int));
        }
        symbols.push(sym as u64);
        if sym == OTHER_SYMBOL {
            others.push(v);
        }
        proof {
            assert(symbols@ =~= repo_symbol_values(o, values@.take(i + 1)));
            assert(others@ =~= repo_others(o, values@.take(i + 1)));
        }
        i += 1;
    }
    assert(values@.take(values@.len() as int) == values@);
    (top, symbols, others)
}

/// What restoring gives after the values already restored.
pub open spec fn restored_after(done: Seq<u64>, rest: Option<Seq<u64>>) -> Option<Seq<u64>> {
    match rest {
        Some(r) => Some(done + r),
        None => None,
    }
}

/// The values that the symbols stand for, or `None` where a symbol has no
/// value.
fn restore_repo_indices(top: &Vec<u64>, symbols: &Vec<u64>, others: &Vec<u64>) -> (out: Option<Vec<u64>>)
    ensures
        match out {
            Some(v) => restore_symbols(top@, symbols@, others@) == Some(v@),
            None => restore_symbols(top@, symbols@, others@) is None,
        },
{
    let mut out: Vec<u64> = Vec::new();
    let mut i: usize = 0;
    let mut j: usize = 0;
    let olen = others.len();
    let tlen = top.len();
    assert(symbols@.skip(0) =~= symbols@);
    assert(others@.skip(0) =~= others@);
    assert(out@ + Seq::<u64>::empty() =~= out@);
    while i < symbols.len()
        invariant
            i <= symbols@.len(),
            j <= others@.len(),
            olen == others@.len(),
            tlen == top@.len(),
            restore_symbols(top@, symbols@, others@) == restored_after(
                out@,
                restore_symbols(top@, symbols@.skip(i as int), others@.skip(j as int)),
            ),
        decreases symbols@.len() - i,
    {
        let ghost rs = symbols@.skip(i as int);
        let ghost ro = others@.skip(j as int);
        proof {
            assert(rs.drop_first() =~= symbols@.skip(i + 1));
            assert(ro.len() > 0 ==> ro.drop_first() =~= others@.skip(j + 1));
        }
        let sym = symbols[i];
        assert(rs[0] == sym);
        if sym == OTHER_SYMBOL as u64 {
            if j >= olen {
                assert(restore_symbols(top@, rs, ro) is None);
                return None;
            }
            assert(ro[0] == others@[j as int]);
            let ghost before = out@;
            out.push(others[j]);
            proof {
                match restore_symbols(top@, rs.drop_first(), ro.drop_first()) {
                    Some(r) => {
                        assert(out@ + r =~= before + (seq![ro[0]] + r));
                    },
                    None => {},
                }
            }
            j += 1;
        } else {
            if sym >= tlen as u64 {
                assert(restore_symbols(top@, rs, ro) is None);
                return None;
            }
            assert((sym as usize) as int == sym as int);
            let ghost before = out@;
            out.push(top[sym as usize]);
            proof {
                match restore_symbols(top@, rs.drop_first(), ro) {
                    Some(r) => {
                        assert(out@ + r =~= before + (seq![top@[sym as int]] + r));
                    },
                    None => {},
                }
            }
        }
        i += 1;
    }
    assert(symbols@.skip(i as int) =~= Seq::<u64>::empty());
    assert(out@ + Seq::<u64>::empty() =~= out@);
    Some(out)
}

/// The others of a sequence, taken from its front.
proof fn lemma_repo_others_front(o: Seq<u64>, s: Seq<u64>)
    requires
        s.len() > 0,
    ensures
        repo_others(o, s) == (if symbol_of(o, s[0]) == OTHER_SYMBOL {
            seq![s[0]]
        } else {
            Seq::empty()
        }) + repo_others(o, s.drop_first()),
    decreases s.len(),
{
    if s.len() > 1 {
        lemma_repo_others_front(o, s.drop_last());
        assert(s.drop_last().drop_first() =~= s.drop_first().drop_last());
        assert(s.drop_last()[0] == s[0]);
    } else {
        assert(s.drop_first() =~= Seq::<u64>::empty());
        assert(s.drop_last() =~= Seq::<u64>::empty());
    }
}

/// The symbols, the most frequent values and the others give the values back.
pub proof fn law_repo_symbols_roundtrip(o: Seq<u64>, s: Seq<u64>)
    requires
        is_frequency_order(o, s),
    ensures
        restore_symbols(
            repo_top(o),
            repo_symbol_values(o, s),
            repo_others(o, s),
        ) == Some(s),
{
    lemma_restore_suffix(o, s, s);
}

proof fn lemma_restore_suffix(o: Seq<u64>, s: Seq<u64>, t: Seq<u64>)
    requires
        is_frequency_order(o, s),
        forall|v: u64| t.contains(v) ==> s.contains(v),
    ensures
        restore_symbols(
            repo_top(o),
            repo_symbol_values(o, t),
            repo_others(o, t),
        ) == Some(t),
    decreases t.len(),
{
    let syms = repo_symbol_values(o, t);
    if t.len() == 0 {
        assert(syms =~= Seq::<u64>::empty());
        assert(t =~= Seq::<u64>::empty());
    } else {
        let rest = t.drop_first();
        assert forall|v: u64| rest.contains(v) implies s.contains(v) by {
            let k = choose|k: int| 0 <= k < rest.len() && rest[k] == v;
            assert(t[k + 1] == v);
        }
        lemma_restore_suffix(o, s, rest);
        lemma_repo_others_front(o, t);
        assert(syms.drop_first() =~= repo_symbol_values(o, rest));
        assert(t.contains(t[0]));
        assert(o.contains(t[0]));
        let k = rank_of(o, t[0]);
        assert(0 <= k < o.len() && o[k] == t[0]);
        assert(seq![t[0]] + rest =~= t);
        if symbol_of(o, t[0]) == OTHER_SYMBOL {
            assert(syms[0] == OTHER_SYMBOL as u64);
            assert((seq![t[0]] + repo_others(o, rest)).drop_first() =~= repo_others(o, rest));
        } else {
            assert(syms[0] == k);
            assert(repo_top(o)[k] == t[0]);
            assert(Seq::<u64>::empty() + repo_others(o, rest) =~= repo_others(o, rest));
        }
    }
}


/// Three parts, each after its length.
pub open spec fn frame3(a: Seq<u8>, b: Seq<u8>, c: Seq<u8>) -> Seq<u8> {
    vint_bytes(a.len() as u64) + a + vint_bytes(b.len() as u64) + b + vint_bytes(c.len() as u64) + c
}

/// `result` codes the repository indices `s` in the frequency order `o`:
/// the compressed most frequent values, the coded symbols, and the others
/// in columns.
pub open spec fn hybrid_encoded(s: Seq<u64>, o: Seq<u64>, result: Seq<u8>) -> bool {
    &&& is_frequency_order(o, s)
    &&& exists|cm: Seq<u8>, cs: Seq<u8>, co: Seq<u8>|
        {
            &&& #[trigger] zstd_output(vint_encode_all(repo_top(o)), cm)
            &&& #[trigger] ans_u64_output(repo_symbol_values(o, s), cs)
            &&& #[trigger] u24_output(repo_others(o, s), co)
            &&& result == frame3(cm, cs, co)
        }
}

/// The indices that the coders take: the symbols within the 64-bit coder's
/// limits and the high bytes of the others within the byte coder's.
pub open spec fn hybrid_accepts(s: Seq<u64>) -> bool {
    forall|o: Seq<u64>|
        #[trigger] is_frequency_order(o, s) ==> {
            &&& ans_u64_accepts(repo_symbol_values(o, s))
            &&& ans_byte_accepts(u24_high(repo_others(o, s)))
        }
}

/// Repository indices: the 2047 most frequent as symbols, the others in
/// three-byte columns.
pub fn encode_repo_indices_hybrid(repo_indices: &Vec<u64>) -> (result: Vec<u8>)
    requires
        hybrid_accepts(repo_indices@),
    ensures
        exists|o: Seq<u64>| #[trigger] hybrid_encoded(repo_indices@, o, result@),
{
    match try_encode_repo_indices_hybrid(repo_indices) {
        Some(result) => result,
        None => Vec::new(),
    }
}

/// Writes the repository indices, or gives `None` where their symbols or
/// the high bytes of the others are not taken by the coders.
pub fn try_encode_repo_indices_hybrid(repo_indices: &Vec<u64>) -> (result: Option<Vec<u8>>)
    ensures
        result is Some <==> hybrid_accepts(repo_indices@),
        result matches Some(r) ==> exists|o: Seq<u64>| #[trigger] hybrid_encoded(repo_indices@, o, r@),
{
    let (top, symbols, others) = rank_repo_indices(repo_indices);
    let ghost o = choose|o: Seq<u64>|
        {
            &&& #[trigger] is_frequency_order(o, repo_indices@)
            &&& top@ == repo_top(o)
            &&& symbols@ == repo_symbol_values(o, repo_indices@)
            &&& others@ == repo_others(o, repo_indices@)
        };
    let c_symbols = match AnsU64Bijection.try_apply(symbols) {
        Some(c) => c,
        None => return None,
    };
    let c_other = match try_encode_u24_columnar(others.as_slice()) {
        Some(c) => c,
        None => return None,
    };
    proof {
        assert forall|o2: Seq<u64>| #[trigger] is_frequency_order(o2, repo_indices@) implies {
            &&& ans_u64_accepts(repo_symbol_values(o2, repo_indices@))
            &&& ans_byte_accepts(u24_high(repo_others(o2, repo_indices@)))
        } by {
            lemma_frequency_order_unique(o2, o, repo_indices@);
        }
    }
    let c_mapping = ZStdBijection.apply(VIntBijection.apply(top));
    let mut result: Vec<u8> = Vec::new();
    let ghost cm = c_mapping@;
    let ghost cs = c_symbols@;
    let ghost co = c_other@;
    write_vint(c_mapping.len() as u64, &mut result);
    let mut c_mapping = c_mapping;
    result.append(&mut c_mapping);
    write_vint(c_symbols.len() as u64, &mut result);
    let mut c_symbols = c_symbols;
    result.append(&mut c_symbols);
    write_vint(c_other.len() as u64, &mut result);
    let mut c_other = c_other;
    result.append(&mut c_other);
    assert(result@ == frame3(cm, cs, co));
    assert(hybrid_encoded(repo_indices@, o, result@));
    let out = Some(result);
    assert(out matches Some(r) && hybrid_encoded(repo_indices@, o, r@));
    out
}

/// A sequence has one frequency order.
pub proof fn lemma_frequency_order_unique(a: Seq<u64>, b: Seq<u64>, s: Seq<u64>)
    requires
        is_frequency_order(a, s),
        is_frequency_order(b, s),
    ensures
        a == b,
{
    lemma_frequency_order_tail(a, b, s);
}

/// Two lists ordered by frequency that hold the same values are the same.
proof fn lemma_frequency_order_tail(a: Seq<u64>, b: Seq<u64>, s: Seq<u64>)
    requires
        forall|i: int, j: int| 0 <= i < j < a.len() ==> ranks_before(s, #[trigger] a[i], #[trigger] a[j]),
        forall|i: int, j: int| 0 <= i < j < b.len() ==> ranks_before(s, #[trigger] b[i], #[trigger] b[j]),
        forall|v: u64| a.contains(v) <==> b.contains(v),
    ensures
        a == b,
    decreases a.len() + b.len(),
{
    if a.len() == 0 || b.len() == 0 {
        if a.len() > 0 {
            assert(a.contains(a[0]));
        }
        if b.len() > 0 {
            assert(b.contains(b[0]));
        }
        assert(a =~= b);
    } else {
        assert(a.contains(a[0]) && b.contains(b[0]));
        let i = choose|i: int| 0 <= i < b.len() && b[i] == a[0];
        let j = choose|j: int| 0 <= j < a.len() && a[j] == b[0];
        if i > 0 {
            assert(ranks_before(s, b[0], b[i]));
        }
        if j > 0 {
            assert(ranks_before(s, a[0], a[j]));
        }
        assert(a[0] == b[0]);
        let ra = a.drop_first();
        let rb = b.drop_first();
        assert forall|v: u64| ra.contains(v) <==> rb.contains(v) by {
            if ra.contains(v) {
                let k = choose|k: int| 0 <= k < ra.len() && ra[k] == v;
                assert(a[k + 1] == v && ranks_before(s, a[0], v));
                assert(b.contains(v));
                let m = choose|m: int| 0 <= m < b.len() && b[m] == v;
                assert(m != 0);
                assert(rb[m - 1] == v);
            }
            if rb.contains(v) {
                let k = choose|k: int| 0 <= k < rb.len() && rb[k] == v;
                assert(b[k + 1] == v && ranks_before(s, b[0], v));
                assert(a.contains(v));
                let m = choose|m: int| 0 <= m < a.len() && a[m] == v;
                assert(m != 0);
                assert(ra[m - 1] == v);
            }
        }
        assert forall|x: int, y: int| 0 <= x < y < ra.len() implies ranks_before(s, #[trigger] ra[x], #[trigger] ra[y]) by {
            assert(ra[x] == a[x + 1] && ra[y] == a[y + 1]);
        }
        assert forall|x: int, y: int| 0 <= x < y < rb.len() implies ranks_before(s, #[trigger] rb[x], #[trigger] rb[y]) by {
            assert(rb[x] == b[x + 1] && rb[y] == b[y + 1]);
        }
        lemma_frequency_order_tail(ra, rb, s);
        assert forall|k: int| 0 <= k < a.len() implies a[k] == b[k] by {
            if k > 0 {
                assert(a[k] == ra[k - 1] && b[k] == rb[k - 1]);
            }
        }
        assert(a =~= b);
    }
}

/// What decoding the repository indices gives; `None` where a part cannot
/// be read or a symbol has no value.
pub open spec fn hybrid_unframe(d: Seq<u8>) -> Option<Seq<u64>> {
    match vint_part(d, 0) {
        None => None,
        Some((cm, o1)) => match vint_part(d, o1) {
            None => None,
            Some((cs, o2)) => match vint_part(d, o2) {
                None => None,
                Some((co, _)) => match zstd_vints(cm) {
                    None => None,
                    Some(top) => match ans_u64_unframe(cs) {
                        None => None,
                        Some(syms) => match u24_unframe(co) {
                            None => None,
                            Some(others) => restore_symbols(top, syms, others),
                        },
                    },
                },
            },
        },
    }
}

/// Reads the repository indices back.
pub fn decode_repo_indices_hybrid(data: &[u8]) -> (indices: Vec<u64>)
    requires
        hybrid_unframe(data@) is Some,
    ensures
        hybrid_unframe(data@) == Some(indices@),
{
    match try_decode_repo_indices_hybrid(data) {
        Some(indices) => indices,
        None => Vec::new(),
    }
}

/// Reads the repository indices back, or gives `None` where they cannot be
/// read.
pub fn try_decode_repo_indices_hybrid(data: &[u8]) -> (indices: Option<Vec<u64>>)
    ensures
        match indices {
            Some(v) => hybrid_unframe(data@) == Some(v@),
            None => hybrid_unframe(data@) is None,
        },
{
    let mut offset: usize = 0;
    let c_mapping = match try_read_part(data, &mut offset) {
        Some(p) => p,
        None => return None,
    };
    let c_symbols = match try_read_part(data, &mut offset) {
        Some(p) => p,
        None => return None,
    };
    let c_other = match try_read_part(data, &mut offset) {
        Some(p) => p,
        None => return None,
    };
    let mapping = match ZStdBijection.try_revert(c_mapping) {
        Some(m) => m,
        None => return None,
    };
    let top = match try_decode_vints(mapping.as_slice()) {
        Some(t) => t,
        None => return None,
    };
    let symbols = match AnsU64Bijection.try_revert(c_symbols) {
        Some(v) => v,
        None => return None,
    };
    let others = match try_decode_u24_columnar(c_other.as_slice()) {
        Some(v) => v,
        None => return None,
    };
    restore_repo_indices(&top, &symbols, &others)
}

// ---------------------------------------------------------------------------
// Reading back what was written
// ---------------------------------------------------------------------------
/// The two columns decode to the indices, where each is below 2^24, the
/// table of the high bytes fills the scale.
#[verifier::spinoff_prover]
#[verifier::rlimit(40)]
pub proof fn law_u24_output_roundtrip(s: Seq<u64>, co: Seq<u8>)
    requires
        forall|i: int| 0 <= i < s.len() ==> #[trigger] s[i] < 0x100_0000,
        s.len() <= u32::MAX,
        co.len() <= usize::MAX,
        ans_byte_accepts(u24_high(s)),
        s.len() > 0 ==> table_complete(byte_table(u24_high(s))),
        u24_output(s, co),
    ensures
        u24_unframe(co) == Some(s),
{
    if s.len() > 0 {
        let low = choose|low: Seq<u8>|
            #[trigger] zstd_output(u24_low_mid(s), low) && co == u24_frame(
                low,
                ans_byte_output(u24_high(s)),
            );
        let hb = ans_byte_output(u24_high(s));
        let tail = vint_bytes(hb.len() as u64) + hb;
        assert(co =~= Seq::<u8>::empty() + vint_bytes(low.len() as u64) + low + tail);
        lemma_vint_part_at(Seq::empty(), low, tail);
        let pre = vint_bytes(low.len() as u64) + low;
        assert(co =~= pre + vint_bytes(hb.len() as u64) + hb + Seq::<u8>::empty());
        lemma_vint_part_at(pre, hb, Seq::empty());
        law_ans_byte_output_roundtrip(u24_high(s));
        law_u24_columns(s);
    } else {
        assert(s =~= Seq::<u64>::empty());
    }
}

/// Each value left to the columns is one of the indices.
proof fn lemma_others_in(o: Seq<u64>, s: Seq<u64>)
    ensures
        repo_others(o, s).len() <= s.len(),
        forall|j: int| 0 <= j < repo_others(o, s).len() ==> s.contains(#[trigger] repo_others(o, s)[j]),
    decreases s.len(),
{
    if s.len() > 0 {
        let t = s.drop_last();
        lemma_others_in(o, t);
        let r = repo_others(o, s);
        let rt = repo_others(o, t);
        assert forall|j: int| 0 <= j < r.len() implies s.contains(#[trigger] r[j]) by {
            if j < rt.len() {
                assert(r[j] == rt[j]);
                assert(t.contains(rt[j]));
                let k = choose|k: int| 0 <= k < t.len() && t[k] == rt[j];
                assert(s[k] == t[k]);
            } else {
                assert(r[j] == s.last());
                assert(s[s.len() - 1] == s.last());
            }
        }
    }
}

/// No more values get the other symbol than there are values.
proof fn lemma_repo_others_len(o: Seq<u64>, s: Seq<u64>)
    ensures
        repo_others(o, s).len() <= s.len(),
    decreases s.len(),
{
    if s.len() > 0 {
        lemma_repo_others_len(o, s.drop_last());
    }
}

/// One to 4096 repository indices, each below 2^24, decode from what the
/// hybrid coder wrote for them: both tables then fill the scale.
pub proof fn law_hybrid_short_roundtrip(s: Seq<u64>, o: Seq<u64>, out: Seq<u8>)
    requires
        0 < s.len() <= 4096,
        out.len() <= usize::MAX,
        forall|i: int| 0 <= i < s.len() ==> #[trigger] s[i] < 0x100_0000,
        hybrid_accepts(s),
        hybrid_encoded(s, o, out),
    ensures
        hybrid_unframe(out) == Some(s),
{
    crate::ans::lemma_ans_u64_short(repo_symbol_values(o, s));
    lemma_repo_others_len(o, s);
    if repo_others(o, s).len() > 0 {
        crate::ans::law_ans_byte_short_roundtrip(u24_high(repo_others(o, s)));
    }
    law_hybrid_roundtrip(s, o, out);
}

/// The repository indices decode from what the hybrid coder wrote, where
/// each is below 2^24 and the tables fill the scale.
#[verifier::spinoff_prover]
#[verifier::rlimit(40)]
pub proof fn law_hybrid_roundtrip(s: Seq<u64>, o: Seq<u64>, out: Seq<u8>)
    requires
        s.len() <= u32::MAX,
        out.len() <= usize::MAX,
        forall|i: int| 0 <= i < s.len() ==> #[trigger] s[i] < 0x100_0000,
        hybrid_accepts(s),
        hybrid_encoded(s, o, out),
        ans_u64_complete(repo_symbol_values(o, s)),
        repo_others(o, s).len() > 0 ==> table_complete(byte_table(u24_high(repo_others(o, s)))),
    ensures
        hybrid_unframe(out) == Some(s),
{
    let top = repo_top(o);
    let syms = repo_symbol_values(o, s);
    let others = repo_others(o, s);
    let (cm, cs, co) = choose|cm: Seq<u8>, cs: Seq<u8>, co: Seq<u8>|
        {
            &&& #[trigger] zstd_output(vint_encode_all(top), cm)
            &&& #[trigger] ans_u64_output(syms, cs)
            &&& #[trigger] u24_output(others, co)
            &&& out == frame3(cm, cs, co)
        };
    let t1 = vint_bytes(cs.len() as u64) + cs + vint_bytes(co.len() as u64) + co;
    assert(out =~= Seq::<u8>::empty() + vint_bytes(cm.len() as u64) + cm + t1);
    lemma_vint_part_at(Seq::empty(), cm, t1);
    let p1 = vint_bytes(cm.len() as u64) + cm;
    let t2 = vint_bytes(co.len() as u64) + co;
    assert(out =~= p1 + vint_bytes(cs.len() as u64) + cs + t2);
    lemma_vint_part_at(p1, cs, t2);
    let p2 = p1 + vint_bytes(cs.len() as u64) + cs;
    assert(out =~= p2 + vint_bytes(co.len() as u64) + co + Seq::<u8>::empty());
    lemma_vint_part_at(p2, co, Seq::empty());
    law_vint_roundtrip(top);
    assert(zstd_vints(cm) == Some(top));
    assert(ans_u64_accepts(syms) && ans_byte_accepts(u24_high(others)));
    law_ans_u64_output_roundtrip(syms, cs);
    lemma_others_in(o, s);
    assert forall|i: int| 0 <= i < others.len() implies #[trigger] others[i] < 0x100_0000 by {
        assert(s.contains(others[i]));
    }
    law_u24_output_roundtrip(others, co);
    law_repo_symbols_roundtrip(o, s);
}

// ---------------------------------------------------------------------------
// Columns over few repositories are taken whatever their length
// ---------------------------------------------------------------------------
/// Increasing values below `b` number at most `b`.
proof fn lemma_increasing_below(u: Seq<u64>, b: int)
    requires
        0 <= b,
        crate::sorting::strictly_increasing(u),
        forall|i: int| 0 <= i < u.len() ==> #[trigger] u[i] < b,
    ensures
        u.len() <= b,
{
    if u.len() > 0 {
        lemma_increasing_at_least(u, u.len() - 1);
        assert(u[u.len() - 1] < b);
    }
}

proof fn lemma_increasing_at_least(u: Seq<u64>, i: int)
    requires
        crate::sorting::strictly_increasing(u),
        0 <= i < u.len(),
    ensures
        u[i] >= i,
    decreases i,
{
    if i > 0 {
        lemma_increasing_at_least(u, i - 1);
        assert(u[i - 1] < u[i]);
    }
}

/// A frequency order lists each distinct value once.
proof fn lemma_frequency_order_len(o: Seq<u64>, s: Seq<u64>)
    requires
        is_frequency_order(o, s),
    ensures
        o.len() == s.to_set().len(),
{
    assert(o.no_duplicates()) by {
        assert forall|i: int, j: int| 0 <= i < o.len() && 0 <= j < o.len() && i != j implies o[i] != o[j] by {
            if i < j {
                assert(ranks_before(s, o[i], o[j]));
            } else {
                assert(ranks_before(s, o[j], o[i]));
            }
        }
    }
    o.unique_seq_to_set();
    assert(o.to_set() =~= s.to_set()) by {
        assert forall|v: u64| o.to_set().contains(v) <==> s.to_set().contains(v) by {
            assert(o.contains(v) <==> s.contains(v));
        }
    }
}

/// No value gets the other symbol where every value has a symbol of its
/// own.
proof fn lemma_no_others(o: Seq<u64>, s: Seq<u64>)
    requires
        forall|i: int| 0 <= i < s.len() ==> symbol_of(o, #[trigger] s[i]) != OTHER_SYMBOL,
    ensures
        repo_others(o, s) == Seq::<u64>::empty(),
    decreases s.len(),
{
    if s.len() > 0 {
        let t = s.drop_last();
        assert forall|i: int| 0 <= i < t.len() implies symbol_of(o, #[trigger] t[i]) != OTHER_SYMBOL by {
            assert(t[i] == s[i]);
        }
        lemma_no_others(o, t);
        assert(symbol_of(o, s[s.len() - 1]) != OTHER_SYMBOL);
        assert(repo_others(o, s) =~= Seq::<u64>::empty());
    }
}

/// A column of repository indices with at most 64 distinct values, fewer
/// than 2^32 of them, is taken by the hybrid coder whatever its length:
/// each value gets a symbol of its own, the symbols fill the rank table,
/// and no value is left for the three-byte columns.
pub proof fn law_hybrid_few_accepts(s: Seq<u64>)
    requires
        s.len() < u32::MAX,
        s.to_set().len() <= 64,
    ensures
        hybrid_accepts(s),
        forall|o: Seq<u64>| #[trigger] is_frequency_order(o, s) ==> repo_others(o, s).len() == 0,
{
    assert forall|o: Seq<u64>| #[trigger] is_frequency_order(o, s) implies {
        &&& ans_u64_accepts(repo_symbol_values(o, s))
        &&& ans_byte_accepts(u24_high(repo_others(o, s)))
        &&& repo_others(o, s).len() == 0
    } by {
        lemma_frequency_order_len(o, s);
        let syms = repo_symbol_values(o, s);
        assert forall|i: int| 0 <= i < s.len() implies symbol_of(o, #[trigger] s[i]) != OTHER_SYMBOL
            && symbol_of(o, s[i]) < 64 by {
            assert(s.contains(s[i]));
            assert(o.contains(s[i]));
            let k = rank_of(o, s[i]);
            assert(0 <= k < o.len() && o[k] == s[i]);
        }
        lemma_no_others(o, s);
        assert(u24_high(repo_others(o, s)) =~= Seq::<u8>::empty());
        assert(ans_byte_accepts(Seq::<u8>::empty()));
        if s.len() > 0 {
            assert forall|u: Seq<u64>| #[trigger] crate::sorting::is_dictionary_of(u, syms) implies u.len() <= 64 by {
                assert forall|i: int| 0 <= i < u.len() implies #[trigger] u[i] < 64 by {
                    assert(u.contains(u[i]));
                    assert(syms.contains(u[i]));
                    let k = choose|k: int| 0 <= k < syms.len() && syms[k] == u[i];
                    assert(symbol_of(o, s[k]) < 64);
                }
                lemma_increasing_below(u, 64);
            }
            crate::ans::lemma_ans_u64_small_dictionary(syms);
        }
    }
}

} // verus!
