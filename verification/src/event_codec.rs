//! The codec over columns: each column coded on its own, the seven parts
//! framed by their lengths.
use crate::adaptive_mix::{law_mix_u64_roundtrip, mix_u64_output, mix_u64_unframe, AdaptiveMixU64Bijection};
use crate::ans::{
    ans_byte_accepts, ans_byte_output, ans_byte_unframe, ans_u64_complete, byte_table,
    law_ans_byte_output_roundtrip, table_complete, AnsBijection,
};
use crate::bic::{bic_fits, bic_output, bic_unframe, BicBijection};
use crate::bijection::{
    try_decode_vints, as_signed, delta_at, fits_i64, i64s, law_positive_delta_roundtrip, prefix_sum, vint_decode_all, vint_well_grouped, Bijection,
    PositiveDeltaBijection, VIntBijection,
};
use crate::bytes::{from_le_u32, le_u32, push_u32_le, read_u32_le};
use crate::codec::{
    try_decode_repo_indices_hybrid, try_encode_repo_indices_hybrid, hybrid_accepts,
    hybrid_encoded, hybrid_unframe, is_frequency_order, law_hybrid_roundtrip, repo_others,
    repo_symbol_values, u24_high,
};
use crate::columnar::{str_bytes, ColumnarEvents};
use crate::compress::{zstd_decoded, zstd_output, ZStdBijection};
use crate::lines::{
    decode_lines, join_strings, join_with, next_sep, split_bytes, split_lines, strings_bytes,
    strings_from_pieces, views,
};
use crate::monotonic::{
    delta_sums, delta_sums_fit, law_perm_roundtrip, perm_accepts, perm_output,
    perm_sorted, perm_unframe, u64s_as_i64, MonotonicPermutationBijection,
};
use crate::histogram::histogram;
use crate::vint::{
    read_part, read_vint, try_read_part, vint_readable, vint_bytes, vint_encode_all, vint_end, vint_part, vint_readable_at,
    vint_value, write_vint,
};
use vstd::prelude::*;

verus! {

// ---------------------------------------------------------------------------
// Event ids: the first difference as a variable-length integer, the rest
// by adaptive arithmetic coding
// ---------------------------------------------------------------------------
/// The differences between neighbouring ids, the first id first.
pub open spec fn id_deltas(ids: Seq<i64>) -> Seq<u64> {
    Seq::new(ids.len(), |k: int| delta_at(i64s(ids), k) as u64)
}

/// The ids that the id coder takes: non-decreasing, the differences within
/// 63 bits, and no more than 2^27 of them.
pub open spec fn ids_accepts(ids: Seq<i64>) -> bool {
    &&& forall|i: int| 0 <= i < ids.len() ==> 0 <= #[trigger] delta_at(i64s(ids), i) <= i64::MAX
    &&& ids.len() <= 0x800_0000
}

/// What the ids are written as: the first difference, then the others by
/// their low bytes through the adaptive coder.
pub open spec fn ids_output(ids: Seq<i64>, out: Seq<u8>) -> bool {
    &&& ids.len() == 0 ==> out.len() == 0
    &&& ids.len() > 0 ==> out == vint_bytes(id_deltas(ids)[0] as usize as u64) + mix_u64_output(
        id_deltas(ids).drop_first(),
    )
}

/// Codes the ids, or gives `None` where they are not taken.
fn encode_event_ids(ids: &Vec<i64>) -> (out: Option<Vec<u8>>)
    ensures
        out is Some <==> ids_accepts(ids@),
        out matches Some(o) ==> ids_output(ids@, o@),
{
    if ids.len() > 0x800_0000 {
        return None;
    }
    let deltas = match PositiveDeltaBijection.try_apply(ids.clone()) {
        Some(d) => d,
        None => return None,
    };
    assert(deltas@ =~= id_deltas(ids@));
    let mut out: Vec<u8> = Vec::new();
    if deltas.len() > 0 {
        write_vint(deltas[0] as usize as u64, &mut out);
        let rest = vstd::slice::slice_to_vec(vstd::slice::slice_subrange(deltas.as_slice(), 1, deltas.len()));
        assert(rest@ =~= id_deltas(ids@).drop_first());
        let mut coded = AdaptiveMixU64Bijection.apply(rest);
        let ghost c = coded@;
        assert(c == mix_u64_output(id_deltas(ids@).drop_first()));
        out.append(&mut coded);
        assert(out@ == vint_bytes(id_deltas(ids@)[0] as usize as u64) + c);
    }
    Some(out)
}

#[verifier::spinoff_prover]
/// The ids decode from what the id coder wrote, where the first id fits a
/// `usize` and every other difference fits in a byte (the coder keeps the
/// low byte of each).
pub proof fn law_ids_roundtrip(ids: Seq<i64>, out: Seq<u8>)
    requires
        0 < ids.len(),
        out.len() <= usize::MAX,
        ids_accepts(ids),
        ids[0] <= usize::MAX,
        forall|i: int| 1 <= i < ids.len() ==> #[trigger] delta_at(i64s(ids), i) < 256,
        ids_output(ids, out),
    ensures
        ids_unframe(out) == Some(ids),
{
    reveal(ids_unframe);
    let ds = id_deltas(ids);
    let rest = mix_u64_output(ds.drop_first());
    assert(delta_at(i64s(ids), 0) == ids[0]);
    assert(ds[0] == ids[0] as u64);
    let d0 = ds[0] as usize as u64;
    assert(d0 == ds[0]);
    assert(out =~= Seq::<u8>::empty() + vint_bytes(d0) + rest);
    crate::vint::lemma_vint_bytes_at(Seq::empty(), d0, rest);
    let e = vint_end(out, 0).unwrap();
    assert(out.skip(e + 1) =~= rest);
    if ds.len() > 1 {
        assert forall|i: int| 0 <= i < ds.drop_first().len() implies #[trigger] ds.drop_first()[i] < 256 by {
            assert(ds.drop_first()[i] == ds[i + 1]);
            assert(delta_at(i64s(ids), i + 1) < 256);
        }
        law_mix_u64_roundtrip(ds.drop_first());
        assert(mix_u64_unframe(rest) == Some(ds.drop_first()));
    } else {
        assert(ds.drop_first() =~= Seq::<u64>::empty());
        assert(mix_u64_unframe(rest) == Some(ds.drop_first()));
    }
    assert(seq![d0] + ds.drop_first() =~= ds);
    law_positive_delta_roundtrip(ids);
    assert(delta_sums(ds) =~= ids);
}

/// What decoding the ids gives: the first difference, the rest decoded,
/// then summed; `None` where a step cannot be carried out.
#[verifier::opaque]
pub open spec fn ids_unframe(p: Seq<u8>) -> Option<Seq<i64>> {
    if !vint_readable_at(p, 0) {
        None
    } else {
        let e = vint_end(p, 0).unwrap();
        let first = vint_value(p, 0, e + 1) as usize as u64;
        match mix_u64_unframe(p.skip(e + 1)) {
            None => None,
            Some(rest) => {
                let deltas = seq![first] + rest;
                if delta_sums_fit(deltas) {
                    Some(delta_sums(deltas))
                } else {
                    None
                }
            },
        }
    }
}

/// Decodes the ids, or gives `None` where they cannot be decoded.
fn decode_event_ids(p: &[u8]) -> (ids: Option<Vec<i64>>)
    ensures
        match ids {
            Some(v) => ids_unframe(p@) == Some(v@),
            None => ids_unframe(p@) is None,
        },
{
    reveal(ids_unframe);
    if !vint_readable(p, 0) {
        return None;
    }
    let mut offset: usize = 0;
    let first = read_vint(p, &mut offset) as usize as u64;
    proof {
        crate::vint::lemma_vint_end_facts(p@, 0);
    }
    let rest_bytes = vstd::slice::slice_to_vec(vstd::slice::slice_subrange(p, offset, p.len()));
    assert(rest_bytes@ =~= p@.skip(offset as int));
    if rest_bytes.len() > 0 && rest_bytes.len() < 4 {
        return None;
    }
    let mut rest = AdaptiveMixU64Bijection.revert(rest_bytes);
    let ghost r = rest@;
    assert(mix_u64_unframe(p@.skip(offset as int)) == Some(r));
    let mut deltas: Vec<u64> = Vec::new();
    deltas.push(first);
    deltas.append(&mut rest);
    assert(deltas@ =~= seq![first] + r);
    let ids = match PositiveDeltaBijection.try_revert(deltas) {
        Some(v) => v,
        None => return None,
    };
    assert(ids@ =~= delta_sums(seq![first] + r));
    Some(ids)
}

// ---------------------------------------------------------------------------
// Repository ids: the distinct ones by interpolative coding, the positions
// of the repeated ones as differences
// ---------------------------------------------------------------------------
/// Where `ids` repeats the id before.
pub open spec fn dup_positions(ids: Seq<u64>) -> Seq<u64>
    decreases ids.len(),
{
    if ids.len() == 0 {
        Seq::empty()
    } else {
        let k = ids.len() - 1;
        dup_positions(ids.drop_last()) + if k > 0 && ids[k] == ids[k - 1] {
            seq![k as u64]
        } else {
            Seq::empty()
        }
    }
}

/// The ids without the repeats.
pub open spec fn unique_ids(ids: Seq<u64>) -> Seq<u64>
    decreases ids.len(),
{
    if ids.len() == 0 {
        Seq::empty()
    } else {
        let k = ids.len() - 1;
        unique_ids(ids.drop_last()) + if k > 0 && ids[k] == ids[k - 1] {
            Seq::empty()
        } else {
            seq![ids[k]]
        }
    }
}

/// Positions as differences, the first as it is.
pub open spec fn position_deltas(p: Seq<u64>) -> Seq<u64> {
    Seq::new(p.len(), |i: int| if i == 0 { p[0] } else { (p[i] as u32 - p[i - 1] as u32) as u64 })
}

/// The repository ids that the coder takes: fewer than 2^32, and the
/// distinct ones fitting the interpolative coder.
pub open spec fn repo_ids_accepts(ids: Seq<u64>) -> bool {
    &&& ids.len() <= u32::MAX
    &&& unique_ids(ids).len() > 0 ==> bic_fits(unique_ids(ids), 0, unique_ids(ids).last() as int)
}

/// What the repository ids are written as: the number of repeats, the
/// length of their coded differences, the differences, then the distinct
/// ids coded.
pub open spec fn repo_ids_output(ids: Seq<u64>, out: Seq<u8>) -> bool {
    exists|bic: Seq<u8>|
        #[trigger] bic_output(unique_ids(ids), bic) && out == le_u32(dup_positions(ids).len() as u32)
            + vint_bytes(vint_encode_all(position_deltas(dup_positions(ids))).len() as u64)
            + vint_encode_all(position_deltas(dup_positions(ids))) + bic
}

/// Codes the repository ids, or gives `None` where they are not taken.
fn encode_repo_ids(ids: &Vec<u64>) -> (out: Option<Vec<u8>>)
    ensures
        out is Some <==> repo_ids_accepts(ids@),
        out matches Some(o) ==> repo_ids_output(ids@, o@),
{
    if ids.len() > 0xffff_ffff {
        return None;
    }
    let mut unique: Vec<u64> = Vec::new();
    let mut dups: Vec<u64> = Vec::new();
    let mut i: usize = 0;
    while i < ids.len()
        invariant
            i <= ids@.len(),
            ids@.len() <= u32::MAX,
            unique@ == unique_ids(ids@.take(i as int)),
            dups@ == dup_positions(ids@.take(i as int)),
            forall|k: int| 0 <= k < dups@.len() ==> #[trigger] dups@[k] < i,
            forall|a: int, b: int| 0 <= a < b < dups@.len() ==> #[trigger] dups@[a] < #[trigger] dups@[b],
        decreases ids@.len() - i,
    {
        let ghost t = ids@.take(i + 1);
        proof {
            assert(t.drop_last() == ids@.take(i as int));
        }
        if i > 0 && ids[i] == ids[i - 1] {
            dups.push(i as u64);
        } else {
            unique.push(ids[i]);
        }
        proof {
            assert(unique@ =~= unique_ids(t));
            assert(dups@ =~= dup_positions(t));
        }
        i += 1;
    }
    assert(ids@.take(ids@.len() as int) == ids@);
    let mut deltas: Vec<u64> = Vec::new();
    let mut k: usize = 0;
    while k < dups.len()
        invariant
            k <= dups@.len(),
            dups@ == dup_positions(ids@),
            ids@.len() <= u32::MAX,
            forall|j: int| 0 <= j < dups@.len() ==> #[trigger] dups@[j] < ids@.len(),
            forall|a: int, b: int| 0 <= a < b < dups@.len() ==> #[trigger] dups@[a] < #[trigger] dups@[b],
            deltas@ == position_deltas(dups@).take(k as int),
        decreases dups@.len() - k,
    {
        if k == 0 {
            deltas.push(dups[0]);
        } else {
            let a = dups[k] as u32;
            let b = dups[k - 1] as u32;
            deltas.push((a - b) as u64);
        }
        assert(deltas@ =~= position_deltas(dups@).take(k + 1));
        k += 1;
    }
    assert(deltas@ =~= position_deltas(dups@));
    let bic = match BicBijection.try_apply(unique) {
        Some(b) => b,
        None => return None,
    };
    let dup_encoded = VIntBijection.apply(deltas);
    let mut out: Vec<u8> = Vec::new();
    push_u32_le(&mut out, dups.len() as u32);
    write_vint(dup_encoded.len() as u64, &mut out);
    let mut dup_encoded = dup_encoded;
    out.append(&mut dup_encoded);
    let ghost b = bic@;
    let mut bic = bic;
    out.append(&mut bic);
    assert(bic_output(unique_ids(ids@), b));
    Some(out)
}

/// Positions from their differences, while the sums stay within 64 bits.
pub open spec fn position_sums(d: Seq<u64>) -> Seq<int> {
    Seq::new(d.len(), |i: int| prefix_sum(d.map_values(|x: u64| x as int), i + 1))
}

/// The ids rebuilt: at each of the first `n` positions the repeat of the id
/// before where the position is listed, else the next distinct id; with how
/// many distinct ids were used; `None` where a repeat has nothing before it
/// or the distinct ids run out.
pub open spec fn rebuild_ids(unique: Seq<u64>, dups: Seq<int>, n: nat) -> Option<(Seq<u64>, int)>
    decreases n,
{
    if n == 0 {
        Some((Seq::empty(), 0))
    } else {
        match rebuild_ids(unique, dups, (n - 1) as nat) {
            None => None,
            Some((acc, k)) => if dups.contains(n - 1) {
                if acc.len() == 0 {
                    None
                } else {
                    Some((acc.push(acc.last()), k))
                }
            } else if k < unique.len() {
                Some((acc.push(unique[k]), k + 1))
            } else {
                None
            },
        }
    }
}

/// What decoding the repository ids gives; `None` where a step cannot be
/// carried out.
#[verifier::opaque]
pub open spec fn repo_ids_unframe(p: Seq<u8>) -> Option<Seq<u64>> {
    if p.len() < 4 {
        None
    } else {
        match vint_part(p, 4) {
            None => None,
            Some((dup_encoded, o)) => if !vint_well_grouped(dup_encoded) {
                None
            } else {
                let d = vint_decode_all(dup_encoded);
                let sums = position_sums(d);
                if !(forall|i: int| 0 <= i < sums.len() ==> #[trigger] sums[i] <= u64::MAX) {
                    None
                } else {
                    let bic = p.skip(o);
                    match bic_unframe_or_empty(bic) {
                        None => None,
                        Some(unique) => if unique.len() + d.len() > usize::MAX {
                            None
                        } else {
                            let dups = sums.map_values(|x: int| (x as u64) as usize as int);
                            match rebuild_ids(unique, dups, (unique.len() + d.len()) as nat) {
                                None => None,
                                Some((ids, _)) => Some(ids),
                            }
                        },
                    }
                }
            },
        }
    }
}

/// Decoding interpolative coding: nothing for nothing.
pub open spec fn bic_unframe_or_empty(b: Seq<u8>) -> Option<Seq<u64>> {
    if b.len() == 0 {
        Some(Seq::empty())
    } else {
        bic_unframe(b)
    }
}


/// The positions as indices.
pub open spec fn dups_of(sums: Seq<int>) -> Seq<int> {
    sums.map_values(|x: int| (x as u64) as usize as int)
}

/// Rebuilding fewer ids succeeds where rebuilding more does.
proof fn lemma_rebuild_prefix(unique: Seq<u64>, dups: Seq<int>, n: nat, m: nat)
    requires
        n <= m,
        rebuild_ids(unique, dups, m) is Some,
    ensures
        rebuild_ids(unique, dups, n) is Some,
    decreases m - n,
{
    if n < m {
        lemma_rebuild_prefix(unique, dups, n + 1, m);
    }
}

/// The repeats are listed at increasing positions, each after an equal id,
/// every repeat is listed, and the distinct ids and the repeats together are
/// as many as the ids.
proof fn lemma_dup_positions(s: Seq<u64>)
    requires
        s.len() <= u32::MAX,
    ensures
        forall|j: int|
            0 <= j < dup_positions(s).len() ==> 0 < #[trigger] dup_positions(s)[j] < s.len() && s[
                dup_positions(s)[j] as int] == s[dup_positions(s)[j] - 1],
        forall|a: int, b: int|
            0 <= a < b < dup_positions(s).len() ==> #[trigger] dup_positions(s)[a]
                < #[trigger] dup_positions(s)[b],
        forall|k: int|
            0 < k < s.len() && s[k] == s[k - 1] ==> #[trigger] dup_positions(s).contains(k as u64),
        unique_ids(s).len() + dup_positions(s).len() == s.len(),
    decreases s.len(),
{
    if s.len() > 0 {
        let t = s.drop_last();
        lemma_dup_positions(t);
        let k = s.len() - 1;
        let dt = dup_positions(t);
        let ds = dup_positions(s);
        assert forall|i: int| 0 <= i < t.len() implies t[i] == s[i] by {}
        if k > 0 && s[k] == s[k - 1] {
            assert(ds == dt.push(k as u64));
            assert(ds.contains(k as u64)) by {
                assert(ds[dt.len() as int] == k as u64);
            }
            assert forall|j: int| 0 <= j < ds.len() implies 0 < #[trigger] ds[j] < s.len() && s[ds[j] as int] == s[ds[j] - 1] by {
                if j < dt.len() {
                    assert(ds[j] == dt[j]);
                    assert(dt[j] < t.len());
                    assert(t[dt[j] as int] == t[dt[j] - 1]);
                }
            }
            assert forall|a: int, b: int| 0 <= a < b < ds.len() implies #[trigger] ds[a] < #[trigger] ds[b] by {
                assert(ds[a] == dt[a]);
                assert(dt[a] < t.len());
                if b < dt.len() {
                    assert(ds[b] == dt[b]);
                }
            }
            assert forall|m: int| 0 < m < s.len() && s[m] == s[m - 1] implies #[trigger] ds.contains(m as u64) by {
                if m < k {
                    assert(t[m] == t[m - 1]);
                    assert(dt.contains(m as u64));
                    let j = choose|j: int| 0 <= j < dt.len() && dt[j] == m as u64;
                    assert(ds[j] == m as u64);
                }
            }
        } else {
            assert(ds == dt);
            assert forall|j: int| 0 <= j < ds.len() implies 0 < #[trigger] ds[j] < s.len() && s[ds[j] as int] == s[ds[j] - 1] by {
                assert(t[dt[j] as int] == t[dt[j] - 1]);
            }
            assert forall|m: int| 0 < m < s.len() && s[m] == s[m - 1] implies #[trigger] ds.contains(m as u64) by {
                if m < k {
                    assert(t[m] == t[m - 1]);
                    assert(dt.contains(m as u64));
                }
            }
        }
    }
}

/// The distinct ids of a prefix begin the distinct ids of a longer prefix.
proof fn lemma_unique_prefix(s: Seq<u64>, k: int, m: int)
    requires
        0 <= k <= m <= s.len(),
    ensures
        unique_ids(s.take(k)).len() <= unique_ids(s.take(m)).len(),
        unique_ids(s.take(m)).take(unique_ids(s.take(k)).len() as int) == unique_ids(s.take(k)),
    decreases m - k,
{
    if k < m {
        lemma_unique_prefix(s, k, m - 1);
        assert(s.take(m).drop_last() =~= s.take(m - 1));
        let a = unique_ids(s.take(k));
        let b = unique_ids(s.take(m - 1));
        let c = unique_ids(s.take(m));
        assert(c.take(a.len() as int) =~= b.take(a.len() as int));
    } else {
        assert(unique_ids(s.take(m)).take(unique_ids(s.take(k)).len() as int) =~= unique_ids(s.take(k)));
    }
}

/// Rebuilding from the distinct ids and the listed repeats gives each prefix
/// of the ids back.
proof fn lemma_rebuild(ids: Seq<u64>, dups: Seq<int>, k: int)
    requires
        0 <= k <= ids.len(),
        ids.len() <= u32::MAX,
        dups == dup_positions(ids).map_values(|x: u64| x as int),
    ensures
        rebuild_ids(unique_ids(ids), dups, k as nat) == Some(
            (ids.take(k), unique_ids(ids.take(k)).len() as int),
        ),
    decreases k,
{
    if k == 0 {
        assert(ids.take(0) =~= Seq::<u64>::empty());
    } else {
        let i = k - 1;
        lemma_rebuild(ids, dups, i);
        lemma_dup_positions(ids);
        let u = unique_ids(ids);
        let dp = dup_positions(ids);
        let acc = ids.take(i);
        let c = unique_ids(ids.take(i)).len() as int;
        assert(ids.take(k).drop_last() =~= acc);
        lemma_unique_prefix(ids, k, ids.len() as int);
        assert(ids.take(ids.len() as int) =~= ids);
        if i > 0 && ids[i] == ids[i - 1] {
            assert(dp.contains(i as u64));
            let j = choose|j: int| 0 <= j < dp.len() && dp[j] == i as u64;
            assert(dups[j] == i);
            assert(dups.contains(i));
            assert(acc.push(acc.last()) =~= ids.take(k));
        } else {
            assert(!dups.contains(i)) by {
                if dups.contains(i) {
                    let j = choose|j: int| 0 <= j < dups.len() && dups[j] == i;
                    assert(dp[j] as int == i);
                }
            }
            assert(unique_ids(ids.take(k)) == unique_ids(acc).push(ids[i]));
            assert(u.take(c + 1)[c] == ids[i]);
            assert(acc.push(ids[i]) =~= ids.take(k));
        }
    }
}

/// Positions from differences of increasing positions below 2^32 are the
/// positions again.
proof fn lemma_position_sums(p: Seq<u64>)
    requires
        forall|j: int| 0 <= j < p.len() ==> #[trigger] p[j] <= u32::MAX,
        forall|a: int, b: int| 0 <= a < b < p.len() ==> #[trigger] p[a] < #[trigger] p[b],
    ensures
        position_sums(position_deltas(p)) == p.map_values(|x: u64| x as int),
{
    let d = position_deltas(p);
    let ds = d.map_values(|x: u64| x as int);
    assert forall|i: int| 0 <= i < p.len() implies prefix_sum(ds, i + 1) == p[i] as int by {
        lemma_position_prefix(p, i);
    }
    assert(position_sums(d) =~= p.map_values(|x: u64| x as int));
}

proof fn lemma_position_prefix(p: Seq<u64>, i: int)
    requires
        0 <= i < p.len(),
        forall|j: int| 0 <= j < p.len() ==> #[trigger] p[j] <= u32::MAX,
        forall|a: int, b: int| 0 <= a < b < p.len() ==> #[trigger] p[a] < #[trigger] p[b],
    ensures
        prefix_sum(position_deltas(p).map_values(|x: u64| x as int), i + 1) == p[i] as int,
    decreases i,
{
    let ds = position_deltas(p).map_values(|x: u64| x as int);
    assert(prefix_sum(ds, i + 1) == prefix_sum(ds, i) + ds[i]);
    if i == 0 {
        assert(ds[0] == p[0]);
    } else {
        lemma_position_prefix(p, i - 1);
        assert(p[i - 1] < p[i]);
        assert(p[i] as u32 == p[i] && p[i - 1] as u32 == p[i - 1]);
        assert(ds[i] == p[i] - p[i - 1]);
    }
}

/// The repository ids decode from what their coder wrote.
pub proof fn law_repo_ids_roundtrip(ids: Seq<u64>, out: Seq<u8>)
    requires
        repo_ids_accepts(ids),
        out.len() <= usize::MAX,
        repo_ids_output(ids, out),
    ensures
        repo_ids_unframe(out) == Some(ids),
{
    reveal(repo_ids_unframe);
    let u = unique_ids(ids);
    let dp = dup_positions(ids);
    let pd = position_deltas(dp);
    let enc = vint_encode_all(pd);
    let bic = choose|bic: Seq<u8>|
        #[trigger] bic_output(u, bic) && out == le_u32(dp.len() as u32) + vint_bytes(enc.len() as u64) + enc + bic;
    lemma_dup_positions(ids);
    let head = le_u32(dp.len() as u32);
    assert(head.len() == 4);
    assert(out =~= head + vint_bytes(enc.len() as u64) + enc + bic);
    crate::vint::lemma_vint_part_at(head, enc, bic);
    let o = 4 + vint_bytes(enc.len() as u64).len() + enc.len();
    assert(out.skip(o as int) =~= bic);
    crate::bijection::law_vint_roundtrip(pd);
    assert forall|j: int| 0 <= j < dp.len() implies #[trigger] dp[j] <= u32::MAX by {}
    lemma_position_sums(dp);
    let sums = position_sums(pd);
    assert forall|i: int| 0 <= i < sums.len() implies #[trigger] sums[i] <= u64::MAX by {}
    if u.len() > 0 {
        crate::bic::law_bic_roundtrip(u, bic, (8 * bic.len() - crate::bic::bic_stream(u).len()) as nat);
    }
    assert(bic_unframe_or_empty(bic) == Some(u));
    let dups = dups_of(sums);
    assert(dups =~= dp.map_values(|x: u64| x as int));
    lemma_rebuild(ids, dups, ids.len() as int);
    assert(ids.take(ids.len() as int) =~= ids);
}

/// Decodes the repository ids, or gives `None` where they cannot be
/// decoded.
fn decode_repo_ids(p: &[u8]) -> (ids: Option<Vec<u64>>)
    ensures
        match ids {
            Some(v) => repo_ids_unframe(p@) == Some(v@),
            None => repo_ids_unframe(p@) is None,
        },
{
    reveal(repo_ids_unframe);
    broadcast use vstd::std_specs::hash::group_hash_axioms;
    if p.len() < 4 {
        return None;
    }
    let mut offset: usize = 4;
    let dup_encoded = match try_read_part(p, &mut offset) {
        Some(d) => d,
        None => return None,
    };
    let bic_bytes = vstd::slice::slice_to_vec(vstd::slice::slice_subrange(p, offset, p.len()));
    assert(bic_bytes@ =~= p@.skip(offset as int));
    let dup_deltas = match try_decode_vints(dup_encoded.as_slice()) {
        Some(d) => d,
        None => return None,
    };
    let ghost sums = position_sums(dup_deltas@);
    let ghost dups = dups_of(sums);
    let mut dup_set: std::collections::HashSet<usize> = std::collections::HashSet::new();
    let mut pos: u64 = 0;
    let mut k: usize = 0;
    while k < dup_deltas.len()
        invariant
            k <= dup_deltas@.len(),
            sums == position_sums(dup_deltas@),
            dups == dups_of(sums),
            p@.len() >= 4,
            vint_part(p@, 4) == Some((dup_encoded@, offset as int)),
            vint_well_grouped(dup_encoded@),
            dup_deltas@ == vint_decode_all(dup_encoded@),
            forall|i: int| 0 <= i < k ==> #[trigger] sums[i] <= u64::MAX,
            pos == if k == 0 { 0 } else { sums[k - 1] },
            forall|x: usize| dup_set@.contains(x) <==> dups.take(k as int).contains(x as int),
        decreases dup_deltas@.len() - k,
    {
        proof {
            let ds = dup_deltas@.map_values(|x: u64| x as int);
            assert(prefix_sum(ds, k + 1) == prefix_sum(ds, k as int) + ds[k as int]);
            if k > 0 {
                assert(sums[k - 1] == prefix_sum(ds, k as int));
            }
        }
        if dup_deltas[k] > u64::MAX - pos {
            assert(sums[k as int] > u64::MAX);
            reveal(repo_ids_unframe);
            return None;
        }
        pos = pos + dup_deltas[k];
        let ghost before = dup_set@;
        dup_set.insert(pos as usize);
        proof {
            assert(dup_set@ == before.insert(pos as usize));
            assert(dups[k as int] == (pos as usize) as int);
            let t0 = dups.take(k as int);
            let t1 = dups.take(k + 1);
            assert(t1 =~= t0.push(dups[k as int]));
            assert forall|x: usize| dup_set@.contains(x) <==> t1.contains(x as int) by {
                assert(before.contains(x) <==> t0.contains(x as int));
                if t1.contains(x as int) {
                    let j = choose|j: int| 0 <= j < t1.len() && t1[j] == x as int;
                    if j < k {
                        assert(t0[j] == x as int);
                    }
                }
                if t0.contains(x as int) {
                    let j = choose|j: int| 0 <= j < t0.len() && t0[j] == x as int;
                    assert(t1[j] == x as int);
                }
                if x == pos as usize {
                    assert(t1[k as int] == x as int);
                }
            }
        }
        k += 1;
    }
    assert(dups.take(dups.len() as int) =~= dups);
    let ghost bic_seq = bic_bytes@;
    let unique = match BicBijection.try_revert(bic_bytes) {
        Some(u) => u,
        None => return None,
    };
    assert(bic_unframe_or_empty(bic_seq) == Some(unique@));
    if unique.len() > usize::MAX - dup_deltas.len() {
        return None;
    }
    let total = unique.len() + dup_deltas.len();
    let mut result: Vec<u64> = Vec::new();
    let mut next: usize = 0;
    let mut i: usize = 0;
    while i < total
        invariant
            i <= total,
            total == unique@.len() + dups.len(),
            repo_ids_unframe(p@) is Some ==> rebuild_ids(unique@, dups, total as nat) is Some,
            repo_ids_unframe(p@) is None <==> rebuild_ids(unique@, dups, total as nat) is None,
            rebuild_ids(unique@, dups, i as nat) == Some((result@, next as int)),
            forall|x: usize| dup_set@.contains(x) <==> dups.contains(x as int),
        decreases total - i,
    {
        proof {
            if rebuild_ids(unique@, dups, total as nat) is Some {
                lemma_rebuild_prefix(unique@, dups, (i + 1) as nat, total as nat);
            }
        }
        if dup_set.contains(&i) {
            if result.len() == 0 {
                assert(rebuild_ids(unique@, dups, (i + 1) as nat) is None);
                return None;
            }
            let last = result[result.len() - 1];
            result.push(last);
        } else {
            if next >= unique.len() {
                assert(rebuild_ids(unique@, dups, (i + 1) as nat) is None);
                return None;
            }
            result.push(unique[next]);
            next += 1;
        }
        i += 1;
    }
    Some(result)
}

// ---------------------------------------------------------------------------
// Names: strings joined by newlines, compressed
// ---------------------------------------------------------------------------
/// The byte that separates the strings of a list.
pub const NEWLINE: u8 = 10;

/// The error that decoding reports: a list of names that is not UTF-8.
#[derive(Debug, Clone, Copy, PartialEq, Eq)]
pub enum CodecError {
    InvalidUtf8,
}

/// The strings of a list, joined by newlines.
pub open spec fn lines_block(v: Seq<String>) -> Seq<u8> {
    join_with(strings_bytes(v), NEWLINE)
}

/// The owners and the suffixes, each joined by newlines, a zero byte between.
pub open spec fn names_block(owners: Seq<String>, suffixes: Seq<String>) -> Seq<u8> {
    lines_block(owners) + seq![0u8] + lines_block(suffixes)
}

/// The text that a block of newline-joined strings spells; `None` where it is
/// not UTF-8.
pub open spec fn block_lines(b: Seq<u8>) -> Option<Seq<Seq<char>>> {
    decode_lines(split_lines(b, NEWLINE))
}

/// The suffixes that the bytes after the zero byte spell: where there are
/// none, one empty suffix for each owner.
pub open spec fn suffix_lines(owners: Seq<Seq<char>>, b: Seq<u8>) -> Option<Seq<Seq<char>>> {
    if b.len() == 0 {
        Some(Seq::new(owners.len(), |i: int| Seq::<char>::empty()))
    } else {
        block_lines(b)
    }
}

/// What decoding the names gives: `None` where the block is no zstd frame or
/// has no zero byte; an error where the owners or the suffixes are not UTF-8.
#[verifier::opaque]
pub open spec fn names_unframe(p: Seq<u8>) -> Option<Result<(Seq<Seq<char>>, Seq<Seq<char>>), CodecError>> {
    match zstd_decoded(p) {
        None => None,
        Some(b) => {
            let z = next_sep(b, 0, 0);
            if z >= b.len() {
                None
            } else {
                match block_lines(b.take(z)) {
                    None => Some(Err(CodecError::InvalidUtf8)),
                    Some(owners) => match suffix_lines(owners, b.skip(z + 1)) {
                        None => Some(Err(CodecError::InvalidUtf8)),
                        Some(suffixes) => Some(Ok((owners, suffixes))),
                    },
                }
            }
        },
    }
}

/// A list of strings that hold no newline, other than a single empty
/// string, is read back from its block.
pub proof fn law_lines_roundtrip(v: Seq<String>)
    requires
        forall|i: int| 0 <= i < v.len() ==> !str_bytes(#[trigger] v[i]).contains(NEWLINE),
        !(v.len() == 1 && v[0]@.len() == 0),
    ensures
        block_lines(lines_block(v)) == Some(views(v)),
{
    let parts = strings_bytes(v);
    assert forall|i: int| 0 <= i < parts.len() implies !(#[trigger] parts[i]).contains(NEWLINE) by {
        assert(parts[i] == str_bytes(v[i]));
    }
    if v.len() == 1 {
        let c = v[0]@;
        assert(str_bytes(v[0]) == vstd::utf8::encode_scalar(c[0] as u32) + vstd::utf8::encode_utf8(c.drop_first()));
        assert(vstd::utf8::encode_scalar(c[0] as u32).len() > 0);
        assert(parts[0].len() > 0);
    }
    crate::lines::law_split_join(parts, NEWLINE);
    crate::lines::lemma_decode_strings(v);
}

/// No string of the list holds a newline or a zero byte.
pub open spec fn plain_strings(v: Seq<String>) -> bool {
    forall|i: int|
        0 <= i < v.len() ==> !str_bytes(#[trigger] v[i]).contains(NEWLINE) && !str_bytes(v[i]).contains(0u8)
}

/// A string's bytes are empty exactly when it is.
proof fn lemma_str_bytes_empty(s: String)
    ensures
        str_bytes(s).len() == 0 <==> s@.len() == 0,
{
    let c = s@;
    if c.len() > 0 {
        assert(str_bytes(s) == vstd::utf8::encode_scalar(c[0] as u32) + vstd::utf8::encode_utf8(c.drop_first()));
        assert(vstd::utf8::encode_scalar(c[0] as u32).len() > 0);
    }
}

/// The block of strings is empty only for no strings or one empty string.
proof fn lemma_lines_block_empty(v: Seq<String>)
    ensures
        lines_block(v).len() == 0 ==> v.len() == 0 || (v.len() == 1 && v[0]@.len() == 0),
{
    if v.len() == 1 {
        lemma_str_bytes_empty(v[0]);
        assert(lines_block(v) == strings_bytes(v)[0]);
    } else if v.len() >= 2 {
        assert(lines_block(v).len() >= strings_bytes(v)[0].len() + 1);
    }
}

/// Owners and suffixes, as many of each, that hold no newline or zero byte,
/// the owners not a single empty string, are read back from their block.
pub proof fn law_names_roundtrip(owners: Seq<String>, suffixes: Seq<String>, out: Seq<u8>)
    requires
        owners.len() == suffixes.len(),
        plain_strings(owners),
        plain_strings(suffixes),
        !(owners.len() == 1 && owners[0]@.len() == 0),
        zstd_output(names_block(owners, suffixes), out),
    ensures
        names_unframe(out) == Some(
            Ok::<(Seq<Seq<char>>, Seq<Seq<char>>), CodecError>((views(owners), views(suffixes))),
        ),
{
    reveal(names_unframe);
    let ob = lines_block(owners);
    let sb = lines_block(suffixes);
    let b = names_block(owners, suffixes);
    let op = strings_bytes(owners);
    assert forall|i: int| 0 <= i < op.len() implies !(#[trigger] op[i]).contains(0u8) by {
        assert(op[i] == str_bytes(owners[i]));
    }
    crate::lines::lemma_join_avoids(op, NEWLINE, 0u8);
    assert forall|k: int| 0 <= k < ob.len() implies b[k] != 0u8 by {
        assert(b[k] == ob[k]);
    }
    assert(b[ob.len() as int] == 0u8);
    crate::lines::lemma_next_sep_at(b, 0u8, 0, ob.len() as int);
    assert(b.take(ob.len() as int) =~= ob);
    assert(b.skip(ob.len() + 1 as int) =~= sb);
    law_lines_roundtrip(owners);
    lemma_lines_block_empty(suffixes);
    if sb.len() == 0 {
        if suffixes.len() == 1 {
            assert(suffixes[0]@ =~= Seq::<char>::empty());
            assert(views(suffixes) =~= Seq::new(1, |i: int| Seq::<char>::empty()));
        } else {
            assert(views(suffixes) =~= Seq::<Seq<char>>::empty());
        }
        assert(suffix_lines(views(owners), sb) == Some(views(suffixes)));
    } else {
        law_lines_roundtrip(suffixes);
    }
}

fn encode_repo_names(owners: &Vec<String>, suffixes: &Vec<String>) -> (out: Vec<u8>)
    ensures
        zstd_output(names_block(owners@, suffixes@), out@),
{
    let mut combined = join_strings(owners, NEWLINE);
    combined.push(0);
    let mut tail = join_strings(suffixes, NEWLINE);
    combined.append(&mut tail);
    assert(combined@ =~= names_block(owners@, suffixes@));
    ZStdBijection.apply(combined)
}

/// The strings of a newline-joined block; an error where it is not UTF-8.
fn lines_from_block(b: &[u8]) -> (r: Result<Vec<String>, CodecError>)
    ensures
        match r {
            Ok(v) => block_lines(b@) == Some(views(v@)),
            Err(_) => block_lines(b@) is None,
        },
{
    let pieces = split_bytes(b, NEWLINE);
    match strings_from_pieces(&pieces) {
        Some(v) => Ok(v),
        None => Err(CodecError::InvalidUtf8),
    }
}

/// Decodes the owners and suffixes; `None` where the block is no zstd frame
/// or has no zero byte, an error where they are not UTF-8.
fn decode_repo_names(p: Vec<u8>) -> (r: Option<Result<(Vec<String>, Vec<String>), CodecError>>)
    ensures
        match r {
            None => names_unframe(p@) is None,
            Some(Ok((o, s))) => names_unframe(p@) == Some(
                Ok::<(Seq<Seq<char>>, Seq<Seq<char>>), CodecError>((views(o@), views(s@))),
            ),
            Some(Err(e)) => names_unframe(p@) == Some(
                Err::<(Seq<Seq<char>>, Seq<Seq<char>>), CodecError>(e),
            ),
        },
{
    reveal(names_unframe);
    let ghost frame = p@;
    let names = match ZStdBijection.try_revert(p) {
        Some(v) => v,
        None => return None,
    };
    let n = names.len();
    let mut z: usize = 0;
    proof {
        crate::lines::lemma_next_sep_bounds(names@, 0, 0);
    }
    while z < n && names[z] != 0
        invariant
            n == names@.len(),
            z <= next_sep(names@, 0, 0),
            forall|k: int| 0 <= k < z ==> names@[k] != 0,
        decreases n - z,
    {
        proof {
            crate::lines::lemma_next_sep_bounds(names@, 0, 0);
        }
        z += 1;
    }
    proof {
        crate::lines::lemma_next_sep_bounds(names@, 0, 0);
    }
    if z >= n {
        return None;
    }
    assert(z == next_sep(names@, 0, 0));
    let owner_bytes = vstd::slice::slice_subrange(names.as_slice(), 0, z);
    assert(owner_bytes@ =~= names@.take(z as int));
    let owners = match lines_from_block(owner_bytes) {
        Ok(v) => v,
        Err(e) => return Some(Err(e)),
    };
    let suffix_bytes = vstd::slice::slice_subrange(names.as_slice(), z + 1, n);
    assert(suffix_bytes@ =~= names@.skip(z + 1));
    let suffixes = if suffix_bytes.len() == 0 {
        let mut v: Vec<String> = Vec::new();
        let mut i: usize = 0;
        while i < owners.len()
            invariant
                i <= owners@.len(),
                v@.len() == i,
                forall|k: int| 0 <= k < i ==> (#[trigger] v@[k])@ == Seq::<char>::empty(),
            decreases owners@.len() - i,
        {
            v.push(String::new());
            i += 1;
        }
        assert(views(v@) =~= Seq::new(views(owners@).len(), |i: int| Seq::<char>::empty()));
        v
    } else {
        match lines_from_block(suffix_bytes) {
            Ok(v) => v,
            Err(e) => return Some(Err(e)),
        }
    };
    Some(Ok((owners, suffixes)))
}

// ---------------------------------------------------------------------------
// The codec: seven parts, each after its length
// ---------------------------------------------------------------------------
/// The parts, each after its length as a variable-length integer.
pub open spec fn frame_parts(parts: Seq<Seq<u8>>) -> Seq<u8>
    decreases parts.len(),
{
    if parts.len() == 0 {
        Seq::empty()
    } else {
        vint_bytes(parts[0].len() as u64) + parts[0] + frame_parts(parts.drop_first())
    }
}

/// The `n` parts read from `off` on; `None` where one cannot be read.
pub open spec fn read_parts(b: Seq<u8>, off: int, n: nat) -> Option<Seq<Seq<u8>>>
    decreases n,
{
    if n == 0 {
        Some(Seq::empty())
    } else {
        match vint_part(b, off) {
            None => None,
            Some((p, o)) => match read_parts(b, o, (n - 1) as nat) {
                None => None,
                Some(rest) => Some(seq![p] + rest),
            },
        }
    }
}

/// Parts written after their lengths are read back, after any prefix.
proof fn lemma_frame_read(pre: Seq<u8>, parts: Seq<Seq<u8>>)
    requires
        forall|i: int| 0 <= i < parts.len() ==> #[trigger] parts[i].len() <= usize::MAX,
    ensures
        read_parts(pre + frame_parts(parts), pre.len() as int, parts.len()) == Some(parts),
    decreases parts.len(),
{
    if parts.len() == 0 {
        assert(read_parts(pre + frame_parts(parts), pre.len() as int, 0) == Some(Seq::<Seq<u8>>::empty()));
        assert(parts =~= Seq::<Seq<u8>>::empty());
    } else {
        let p = parts[0];
        let tail = parts.drop_first();
        let rest = frame_parts(tail);
        let s = pre + frame_parts(parts);
        assert(s =~= pre + vint_bytes(p.len() as u64) + p + rest);
        crate::vint::lemma_vint_part_at(pre, p, rest);
        let pre2 = pre + vint_bytes(p.len() as u64) + p;
        assert(s =~= pre2 + rest);
        assert forall|i: int| 0 <= i < tail.len() implies #[trigger] tail[i].len() <= usize::MAX by {
            assert(tail[i] == parts[i + 1]);
        }
        lemma_frame_read(pre2, tail);
        assert(seq![p] + tail =~= parts);
    }
}

/// Parts written after their lengths are read back as they were.
pub proof fn law_frame_roundtrip(parts: Seq<Seq<u8>>)
    requires
        forall|i: int| 0 <= i < parts.len() ==> #[trigger] parts[i].len() <= usize::MAX,
    ensures
        read_parts(frame_parts(parts), 0, parts.len()) == Some(parts),
{
    lemma_frame_read(Seq::empty(), parts);
    assert(Seq::<u8>::empty() + frame_parts(parts) =~= frame_parts(parts));
}

/// The columns as plain values, in the order in which they are stored: event
/// ids, event type indices, event types, creation times, repository indices,
/// repository ids, owners, suffixes.
pub type ColumnsModel = (
    Seq<i64>,
    Seq<u8>,
    Seq<Seq<char>>,
    Seq<i64>,
    Seq<u64>,
    Seq<u64>,
    Seq<Seq<char>>,
    Seq<Seq<char>>,
);

pub open spec fn columns_model(c: ColumnarEvents) -> ColumnsModel {
    (
        c.event_ids@,
        c.event_type_indices@,
        views(c.dict_event_types@),
        c.created_ats@,
        c.repo_indices@,
        c.dict_repo_ids@,
        views(c.dict_repo_owners@),
        views(c.dict_repo_suffixes@),
    )
}

/// The columns that the coders of the seven parts take.
pub open spec fn columns_accepted(c: ColumnarEvents) -> bool {
    &&& ids_accepts(c.event_ids@)
    &&& ans_byte_accepts(c.event_type_indices@)
    &&& perm_accepts(c.created_ats@)
    &&& hybrid_accepts(c.repo_indices@)
    &&& repo_ids_accepts(c.dict_repo_ids@)
}

/// The seven parts that code the columns.
#[verifier::opaque]
pub open spec fn columns_parts(c: ColumnarEvents, parts: Seq<Seq<u8>>) -> bool {
    &&& parts.len() == 7
    &&& ids_output(c.event_ids@, parts[0])
    &&& parts[1] == ans_byte_output(c.event_type_indices@)
    &&& zstd_output(lines_block(c.dict_event_types@), parts[2])
    &&& perm_output(c.created_ats@, parts[3])
    &&& exists|o: Seq<u64>| #[trigger] hybrid_encoded(c.repo_indices@, o, parts[4])
    &&& repo_ids_output(c.dict_repo_ids@, parts[5])
    &&& zstd_output(names_block(c.dict_repo_owners@, c.dict_repo_suffixes@), parts[6])
}

/// What the columns are written as.
pub open spec fn columns_output(c: ColumnarEvents, out: Seq<u8>) -> bool {
    exists|parts: Seq<Seq<u8>>| #[trigger] columns_parts(c, parts) && out == frame_parts(parts)
}

/// The creation times decoded; nothing for nothing.
pub open spec fn perm_decoded(p: Seq<u8>) -> Option<Seq<i64>> {
    if p.len() == 0 {
        Some(Seq::empty())
    } else {
        perm_unframe(p)
    }
}

/// What decoding the seven parts gives, in the order in which they are
/// decoded: `None` where one cannot be decoded, an error where a list of
/// names is not UTF-8.
#[verifier::opaque]
pub open spec fn parts_unframe(ps: Seq<Seq<u8>>) -> Option<Result<ColumnsModel, CodecError>> {
    match names_unframe(ps[6]) {
        None => None,
        Some(Err(e)) => Some(Err(e)),
        Some(Ok((owners, suffixes))) => match zstd_decoded(ps[2]) {
            None => None,
            Some(tb) => match block_lines(tb) {
                None => Some(Err(CodecError::InvalidUtf8)),
                Some(types) => match (
                    ids_unframe(ps[0]),
                    ans_byte_unframe(ps[1]),
                    perm_decoded(ps[3]),
                    hybrid_unframe(ps[4]),
                    repo_ids_unframe(ps[5]),
                ) {
                    (Some(ids), Some(ti), Some(ca), Some(ri), Some(rids)) => Some(
                        Ok((ids, ti, types, ca, ri, rids, owners, suffixes)),
                    ),
                    _ => None,
                },
            },
        },
    }
}

/// What decoding gives: `None` where a part cannot be read or decoded, an
/// error where a list of names is not UTF-8.
pub open spec fn columns_unframe(b: Seq<u8>) -> Option<Result<ColumnsModel, CodecError>> {
    match read_parts(b, 0, 7) {
        None => None,
        Some(ps) => parts_unframe(ps),
    }
}

/// The views of a list of byte strings.
pub open spec fn byte_views(v: Seq<Vec<u8>>) -> Seq<Seq<u8>> {
    v.map_values(|p: Vec<u8>| p@)
}

/// What reading gives after the parts already read.
pub open spec fn parts_after(done: Seq<Seq<u8>>, rest: Option<Seq<Seq<u8>>>) -> Option<Seq<Seq<u8>>> {
    match rest {
        Some(r) => Some(done + r),
        None => None,
    }
}

/// Reads the seven parts, or gives `None` where one cannot be read.
fn read_seven_parts(bytes: &[u8]) -> (parts: Option<Vec<Vec<u8>>>)
    ensures
        match parts {
            Some(v) => v@.len() == 7 && read_parts(bytes@, 0, 7) == Some(byte_views(v@)),
            None => read_parts(bytes@, 0, 7) is None,
        },
{
    let mut offset: usize = 0;
    let mut parts: Vec<Vec<u8>> = Vec::new();
    let mut k: usize = 0;
    assert(byte_views(parts@) =~= Seq::<Seq<u8>>::empty());
    assert(Seq::<Seq<u8>>::empty() + read_parts(bytes@, 0, 7).unwrap_or(Seq::empty()) =~= read_parts(
        bytes@,
        0,
        7,
    ).unwrap_or(Seq::empty()));
    while k < 7
        invariant
            k <= 7,
            parts@.len() == k,
            read_parts(bytes@, 0, 7) == parts_after(
                byte_views(parts@),
                read_parts(bytes@, offset as int, (7 - k) as nat),
            ),
        decreases 7 - k,
    {
        let ghost before = byte_views(parts@);
        let ghost start = offset as int;
        let part = match try_read_part(bytes, &mut offset) {
            Some(p) => p,
            None => {
                assert(read_parts(bytes@, start, (7 - k) as nat) is None);
                return None;
            },
        };
        proof {
            assert(byte_views(parts@.push(part)) =~= before.push(part@));
            match read_parts(bytes@, offset as int, (6 - k) as nat) {
                Some(tail) => {
                    assert(before.push(part@) + tail =~= before + (seq![part@] + tail));
                },
                None => {},
            }
        }
        parts.push(part);
        k += 1;
    }
    proof {
        assert(byte_views(parts@) + Seq::<Seq<u8>>::empty() =~= byte_views(parts@));
    }
    Some(parts)
}

/// Decodes the parts that hold numbers, or gives `None` where one cannot
/// be decoded.
fn decode_numbers(parts: &Vec<Vec<u8>>) -> (r: Option<(Vec<i64>, Vec<u8>, Vec<i64>, Vec<u64>, Vec<u64>)>)
    requires
        parts@.len() == 7,
    ensures
        match r {
            Some(r) => {
                &&& ids_unframe(parts@[0]@) == Some(r.0@)
                &&& ans_byte_unframe(parts@[1]@) == Some(r.1@)
                &&& perm_decoded(parts@[3]@) == Some(r.2@)
                &&& hybrid_unframe(parts@[4]@) == Some(r.3@)
                &&& repo_ids_unframe(parts@[5]@) == Some(r.4@)
            },
            None => {
                ||| ids_unframe(parts@[0]@) is None
                ||| ans_byte_unframe(parts@[1]@) is None
                ||| perm_decoded(parts@[3]@) is None
                ||| hybrid_unframe(parts@[4]@) is None
                ||| repo_ids_unframe(parts@[5]@) is None
            },
        },
{
    let event_ids = match decode_event_ids(parts[0].as_slice()) {
        Some(v) => v,
        None => return None,
    };
    let event_type_indices = match AnsBijection.try_revert(parts[1].clone()) {
        Some(v) => v,
        None => return None,
    };
    let created_ats = match MonotonicPermutationBijection.try_revert(parts[3].clone()) {
        Some(v) => v,
        None => return None,
    };
    let repo_indices = match try_decode_repo_indices_hybrid(parts[4].as_slice()) {
        Some(v) => v,
        None => return None,
    };
    let dict_repo_ids = match decode_repo_ids(parts[5].as_slice()) {
        Some(v) => v,
        None => return None,
    };
    Some((event_ids, event_type_indices, created_ats, repo_indices, dict_repo_ids))
}

/// Decodes the seven parts; `None` where one cannot be decoded, an error
/// where a list of names is not UTF-8.
fn decode_parts(parts: &Vec<Vec<u8>>) -> (r: Option<Result<ColumnarEvents, CodecError>>)
    requires
        parts@.len() == 7,
    ensures
        parts_unframe(byte_views(parts@)) == match r {
            None => None,
            Some(Ok(c)) => Some(Ok::<ColumnsModel, CodecError>(columns_model(c))),
            Some(Err(e)) => Some(Err(e)),
        },
{
    let ghost ps = byte_views(parts@);
    reveal(parts_unframe);
    assert(ps[6] == parts@[6]@ && ps[2] == parts@[2]@ && ps[0] == parts@[0]@ && ps[1] == parts@[1]@
        && ps[3] == parts@[3]@ && ps[4] == parts@[4]@ && ps[5] == parts@[5]@);
    let (dict_repo_owners, dict_repo_suffixes) = match decode_repo_names(parts[6].clone()) {
        None => return None,
        Some(Ok(names)) => names,
        Some(Err(e)) => return Some(Err(e)),
    };
    let et_bytes = match ZStdBijection.try_revert(parts[2].clone()) {
        Some(v) => v,
        None => return None,
    };
    let dict_event_types = match lines_from_block(et_bytes.as_slice()) {
        Ok(v) => v,
        Err(e) => return Some(Err(e)),
    };
    let (event_ids, event_type_indices, created_ats, repo_indices, dict_repo_ids) = match decode_numbers(parts) {
        Some(r) => r,
        None => return None,
    };
    let c = ColumnarEvents {
        event_ids,
        event_type_indices,
        dict_event_types,
        created_ats,
        repo_indices,
        dict_repo_ids,
        dict_repo_owners,
        dict_repo_suffixes,
    };
    assert(views(c.dict_event_types@) == views(dict_event_types@));
    Some(Ok(c))
}

/// The parts, each after its length.
fn frame_all(parts: &Vec<Vec<u8>>) -> (out: Vec<u8>)
    ensures
        out@ == frame_parts(byte_views(parts@)),
{
    let ghost ps = byte_views(parts@);
    let mut out: Vec<u8> = Vec::new();
    let mut i: usize = 0;
    assert(ps.skip(0) =~= ps);
    while i < parts.len()
        invariant
            i <= parts@.len(),
            ps == byte_views(parts@),
            out@ + frame_parts(ps.skip(i as int)) == frame_parts(ps),
        decreases parts@.len() - i,
    {
        let ghost before = out@;
        write_vint(parts[i].len() as u64, &mut out);
        let mut piece = parts[i].clone();
        out.append(&mut piece);
        proof {
            let rest = ps.skip(i as int);
            assert(rest[0] == ps[i as int]);
            assert(rest.drop_first() =~= ps.skip(i + 1));
            assert(out@ =~= before + vint_bytes(ps[i as int].len() as u64) + ps[i as int]);
        }
        i += 1;
    }
    assert(ps.skip(parts@.len() as int) =~= Seq::<Seq<u8>>::empty());
    out
}

/// The codec.
pub struct FulmicotonCodec;

impl FulmicotonCodec {
    pub fn new() -> (c: Self) {
        FulmicotonCodec
    }

    pub fn name(&self) -> (n: &'static str)
        ensures
            n@ == "fulmicoton"@,
    {
        "fulmicoton"
    }

    /// Codes each column and writes the seven parts after their lengths.
    pub fn encode_columns(&self, cols: &ColumnarEvents) -> (out: Vec<u8>)
        requires
            columns_accepted(*cols),
        ensures
            columns_output(*cols, out@),
    {
        match self.try_encode_columns(cols) {
            Some(out) => out,
            None => Vec::new(),
        }
    }

    /// Codes each column and writes the seven parts after their lengths, or
    /// gives `None` where a column is not taken by its coder.
    #[verifier::rlimit(40)]
    pub fn try_encode_columns(&self, cols: &ColumnarEvents) -> (out: Option<Vec<u8>>)
        ensures
            out is Some <==> columns_accepted(*cols),
            out matches Some(o) ==> columns_output(*cols, o@),
    {
        let c_event_ids = match encode_event_ids(&cols.event_ids) {
            Some(c) => c,
            None => return None,
        };
        let c_event_type_indices = match AnsBijection.try_apply(cols.event_type_indices.clone()) {
            Some(c) => c,
            None => return None,
        };
        let c_dict_event_types = ZStdBijection.apply(join_strings(&cols.dict_event_types, NEWLINE));
        let c_created_ats = match MonotonicPermutationBijection.try_apply(cols.created_ats.clone()) {
            Some(c) => c,
            None => return None,
        };
        let c_repo_indices = match try_encode_repo_indices_hybrid(&cols.repo_indices) {
            Some(c) => c,
            None => return None,
        };
        let c_dict_repo_ids = match encode_repo_ids(&cols.dict_repo_ids) {
            Some(c) => c,
            None => return None,
        };
        let c_dict_repo_names = encode_repo_names(&cols.dict_repo_owners, &cols.dict_repo_suffixes);
        let ghost ps = seq![
            c_event_ids@,
            c_event_type_indices@,
            c_dict_event_types@,
            c_created_ats@,
            c_repo_indices@,
            c_dict_repo_ids@,
            c_dict_repo_names@,
        ];
        assert(columns_parts(*cols, ps)) by {
            reveal(columns_parts);
        }
        let parts: Vec<Vec<u8>> = vec![
            c_event_ids,
            c_event_type_indices,
            c_dict_event_types,
            c_created_ats,
            c_repo_indices,
            c_dict_repo_ids,
            c_dict_repo_names,
        ];
        assert(ps =~= byte_views(parts@));
        Some(frame_all(&parts))
    }

    /// Reads the seven parts back and decodes each; an error where a list of
    /// names is not UTF-8.
    pub fn decode_columns(&self, bytes: &[u8]) -> (r: Result<ColumnarEvents, CodecError>)
        requires
            columns_unframe(bytes@) is Some,
        ensures
            columns_unframe(bytes@) == Some(
                match r {
                    Ok(c) => Ok::<ColumnsModel, CodecError>(columns_model(c)),
                    Err(e) => Err(e),
                },
            ),
    {
        match self.try_decode_columns(bytes) {
            Some(r) => r,
            None => Err(CodecError::InvalidUtf8),
        }
    }

    /// Reads the seven parts back and decodes each; `None` where a part
    /// cannot be read or decoded, an error where a list of names is not
    /// UTF-8.
    pub fn try_decode_columns(&self, bytes: &[u8]) -> (r: Option<Result<ColumnarEvents, CodecError>>)
        ensures
            columns_unframe(bytes@) == match r {
                None => None,
                Some(Ok(c)) => Some(Ok::<ColumnsModel, CodecError>(columns_model(c))),
                Some(Err(e)) => Some(Err(e)),
            },
    {
        let parts = match read_seven_parts(bytes) {
            Some(p) => p,
            None => return None,
        };
        decode_parts(&parts)
    }
}

// ---------------------------------------------------------------------------
// Reading back what the codec wrote
// ---------------------------------------------------------------------------
/// Each part is no longer than the frame that holds it.
proof fn lemma_frame_parts_len(ps: Seq<Seq<u8>>)
    ensures
        forall|i: int| 0 <= i < ps.len() ==> #[trigger] ps[i].len() <= frame_parts(ps).len(),
    decreases ps.len(),
{
    if ps.len() > 0 {
        lemma_frame_parts_len(ps.drop_first());
        assert forall|i: int| 0 <= i < ps.len() implies #[trigger] ps[i].len() <= frame_parts(ps).len() by {
            if i > 0 {
                assert(ps[i] == ps.drop_first()[i - 1]);
            }
        }
    }
}

/// The columns that come back from the codec: at least one event and at
/// most 2^32 - 1 rows, the first id within a `usize`, the other id
/// differences within a byte, rank tables that fill the scale, creation times whose histogram fits the coders, repository
/// indices below 2^24, and names and event types that hold no newline or
/// zero byte and are not a single empty one.
pub open spec fn columns_fit(c: ColumnarEvents) -> bool {
    let ids = c.event_ids@;
    let ti = c.event_type_indices@;
    let ca = c.created_ats@;
    let ri = c.repo_indices@;
    &&& 0 < ids.len() <= u32::MAX
    &&& ids[0] <= usize::MAX
    &&& forall|i: int| 1 <= i < ids.len() ==> #[trigger] delta_at(i64s(ids), i) < 256
    &&& ti.len() <= u32::MAX
    &&& ti.len() > 0 ==> table_complete(byte_table(ti))
    &&& plain_strings(c.dict_event_types@)
    &&& !(c.dict_event_types@.len() == 1 && c.dict_event_types@[0]@.len() == 0)
    &&& ca.len() <= u32::MAX
    &&& ca.len() > 0 ==> {
        &&& histogram(u64s_as_i64(perm_sorted(ca))).len() <= u32::MAX
        &&& u64s_as_i64(perm_sorted(ca)).last() < i64::MAX
        &&& ans_u64_complete(histogram(u64s_as_i64(perm_sorted(ca))))
    }
    &&& ri.len() <= u32::MAX
    &&& forall|i: int| 0 <= i < ri.len() ==> #[trigger] ri[i] < 0x100_0000
    &&& forall|o: Seq<u64>|
        #[trigger] is_frequency_order(o, ri) ==> {
            &&& ans_u64_complete(repo_symbol_values(o, ri))
            &&& repo_others(o, ri).len() > 0 ==> table_complete(byte_table(u24_high(repo_others(o, ri))))
        }
    &&& c.dict_repo_owners@.len() == c.dict_repo_suffixes@.len()
    &&& plain_strings(c.dict_repo_owners@)
    &&& plain_strings(c.dict_repo_suffixes@)
    &&& !(c.dict_repo_owners@.len() == 1 && c.dict_repo_owners@[0]@.len() == 0)
}

/// The seven parts decode to what each of them decodes to.
proof fn lemma_parts_unframe_ok(ps: Seq<Seq<u8>>, m: ColumnsModel, tb: Seq<u8>)
    requires
        names_unframe(ps[6]) == Some(Ok::<(Seq<Seq<char>>, Seq<Seq<char>>), CodecError>((m.6, m.7))),
        zstd_decoded(ps[2]) == Some(tb),
        block_lines(tb) == Some(m.2),
        ids_unframe(ps[0]) == Some(m.0),
        ans_byte_unframe(ps[1]) == Some(m.1),
        perm_decoded(ps[3]) == Some(m.3),
        hybrid_unframe(ps[4]) == Some(m.4),
        repo_ids_unframe(ps[5]) == Some(m.5),
    ensures
        parts_unframe(ps) == Some(Ok::<ColumnsModel, CodecError>(m)),
{
    reveal(parts_unframe);
}

/// The parts of names, event types and ids decode to their columns.
#[verifier::spinoff_prover]
proof fn lemma_parts_text(c: ColumnarEvents, ps: Seq<Seq<u8>>)
    requires
        columns_accepted(c),
        columns_fit(c),
        columns_parts(c, ps),
        forall|i: int| 0 <= i < ps.len() ==> #[trigger] ps[i].len() <= usize::MAX,
    ensures
        names_unframe(ps[6]) == Some(
            Ok::<(Seq<Seq<char>>, Seq<Seq<char>>), CodecError>(
                (views(c.dict_repo_owners@), views(c.dict_repo_suffixes@)),
            ),
        ),
        zstd_decoded(ps[2]) == Some(lines_block(c.dict_event_types@)),
        block_lines(lines_block(c.dict_event_types@)) == Some(views(c.dict_event_types@)),
        ids_unframe(ps[0]) == Some(c.event_ids@),
{
    reveal(columns_parts);
    assert(ps[0].len() <= usize::MAX);
    law_names_roundtrip(c.dict_repo_owners@, c.dict_repo_suffixes@, ps[6]);
    law_lines_roundtrip(c.dict_event_types@);
    law_ids_roundtrip(c.event_ids@, ps[0]);
}

/// The parts of numbers decode to their columns.
#[verifier::spinoff_prover]
proof fn lemma_parts_numbers(c: ColumnarEvents, ps: Seq<Seq<u8>>)
    requires
        columns_accepted(c),
        columns_fit(c),
        columns_parts(c, ps),
        forall|i: int| 0 <= i < ps.len() ==> #[trigger] ps[i].len() <= usize::MAX,
    ensures
        ans_byte_unframe(ps[1]) == Some(c.event_type_indices@),
        perm_decoded(ps[3]) == Some(c.created_ats@),
        hybrid_unframe(ps[4]) == Some(c.repo_indices@),
        repo_ids_unframe(ps[5]) == Some(c.dict_repo_ids@),
{
    reveal(columns_parts);
    assert(ps[3].len() <= usize::MAX && ps[4].len() <= usize::MAX && ps[5].len() <= usize::MAX);
    law_ans_byte_output_roundtrip(c.event_type_indices@);
    if c.created_ats@.len() > 0 {
        law_perm_roundtrip(c.created_ats@, ps[3]);
    }
    let o = choose|o: Seq<u64>| #[trigger] hybrid_encoded(c.repo_indices@, o, ps[4]);
    assert(is_frequency_order(o, c.repo_indices@));
    law_hybrid_roundtrip(c.repo_indices@, o, ps[4]);
    law_repo_ids_roundtrip(c.dict_repo_ids@, ps[5]);
}

/// Decoding what the codec wrote for columns gives the columns back, where
/// they fit the coders as `columns_fit` says.
pub proof fn law_codec_roundtrip(c: ColumnarEvents, out: Seq<u8>)
    requires
        columns_accepted(c),
        columns_fit(c),
        columns_output(c, out),
        out.len() <= usize::MAX,
    ensures
        columns_unframe(out) == Some(Ok::<ColumnsModel, CodecError>(columns_model(c))),
{
    let ps = choose|ps: Seq<Seq<u8>>| #[trigger] columns_parts(c, ps) && out == frame_parts(ps);
    lemma_frame_parts_len(ps);
    law_frame_roundtrip(ps);
    assert(ps.len() == 7) by {
        reveal(columns_parts);
    }
    lemma_parts_text(c, ps);
    lemma_parts_numbers(c, ps);
    lemma_parts_unframe_ok(ps, columns_model(c), lines_block(c.dict_event_types@));
}

// ---------------------------------------------------------------------------
// What the coders of ids take
// ---------------------------------------------------------------------------
/// Every non-decreasing id column that starts at zero or above, of at most
/// 2^27 events, is taken by the id coder, however many events it holds up
/// to that bound.
pub proof fn law_ids_accepted(ids: Seq<i64>)
    requires
        ids.len() <= 0x800_0000,
        ids.len() > 0 ==> ids[0] >= 0,
        forall|i: int, j: int| 0 <= i <= j < ids.len() ==> ids[i] <= ids[j],
    ensures
        ids_accepts(ids),
{
    assert forall|i: int| 0 <= i < ids.len() implies 0 <= #[trigger] delta_at(i64s(ids), i) <= i64::MAX by {
        if i > 0 {
            assert(ids[0] <= ids[i - 1] && ids[i - 1] <= ids[i]);
        }
    }
}

/// The distinct ids of a non-decreasing column increase, end with its last
/// id, and none exceeds it.
proof fn lemma_unique_ids_sorted(ids: Seq<u64>)
    requires
        forall|i: int, j: int| 0 <= i <= j < ids.len() ==> ids[i] <= ids[j],
    ensures
        crate::sorting::strictly_increasing(unique_ids(ids)),
        ids.len() > 0 ==> unique_ids(ids).len() > 0 && unique_ids(ids).last() == ids.last(),
        forall|k: int| 0 <= k < unique_ids(ids).len() ==> #[trigger] unique_ids(ids)[k] <= ids.last(),
    decreases ids.len(),
{
    if ids.len() > 0 {
        let t = ids.drop_last();
        let n = ids.len() - 1;
        assert forall|i: int, j: int| 0 <= i <= j < t.len() implies t[i] <= t[j] by {
            assert(t[i] == ids[i] && t[j] == ids[j]);
        }
        lemma_unique_ids_sorted(t);
        let ut = unique_ids(t);
        if n > 0 {
            assert(t.last() == ids[n - 1]);
            assert(ids[n - 1] <= ids[n]);
        }
        if n > 0 && ids[n] == ids[n - 1] {
            assert(unique_ids(ids) == ut + Seq::<u64>::empty());
            assert(unique_ids(ids) =~= ut);
        } else {
            let u = ut + seq![ids[n]];
            assert(unique_ids(ids) == u);
            assert forall|a: int, b: int| 0 <= a < b < u.len() implies u[a] < u[b] by {
                if b < ut.len() {
                    assert(u[a] == ut[a] && u[b] == ut[b]);
                } else {
                    assert(u[a] == ut[a]);
                    assert(ut[a] <= t.last());
                }
            }
            assert forall|k: int| 0 <= k < u.len() implies #[trigger] u[k] <= ids.last() by {
                if k < ut.len() {
                    assert(u[k] == ut[k]);
                    assert(ut[k] <= t.last());
                }
            }
        }
    }
}

/// Every sorted repository id dictionary of fewer than 2^32 ids, the last
/// below `u64::MAX`, is taken by the repository id coder, however many ids
/// it holds.
pub proof fn law_repo_ids_accepted(ids: Seq<u64>)
    requires
        ids.len() <= u32::MAX,
        forall|i: int, j: int| 0 <= i <= j < ids.len() ==> ids[i] <= ids[j],
        ids.len() > 0 ==> ids.last() < u64::MAX,
    ensures
        repo_ids_accepts(ids),
{
    lemma_unique_ids_sorted(ids);
    let u = unique_ids(ids);
    if u.len() > 0 {
        if ids.len() == 0 {
            assert(u =~= Seq::<u64>::empty());
        }
        assert(u.last() == ids.last());
    }
}

/// Columns of an ordinary event log are taken by the codec, so
/// `try_encode_columns` gives `Some`, however many events they hold within
/// the coders' bounds: ids non-decreasing from zero, at most 2^27 of them;
/// event types taken by the byte coder; creation times within one GH
/// Archive hour (4095 seconds); repository indices over at most 64
/// repositories, fewer than 2^32 of them; repository ids sorted, the last
/// below `u64::MAX`.
pub proof fn law_columns_accepted(c: ColumnarEvents)
    requires
        c.event_ids@.len() <= 0x800_0000,
        c.event_ids@.len() > 0 ==> c.event_ids@[0] >= 0,
        forall|i: int, j: int| 0 <= i <= j < c.event_ids@.len() ==> c.event_ids@[i] <= c.event_ids@[j],
        ans_byte_accepts(c.event_type_indices@),
        c.created_ats@.len() <= u32::MAX,
        forall|i: int, j: int|
            0 <= i < c.created_ats@.len() && 0 <= j < c.created_ats@.len() ==> c.created_ats@[i] - c.created_ats@[j]
                <= 4094,
        c.repo_indices@.len() < u32::MAX,
        c.repo_indices@.to_set().len() <= 64,
        c.dict_repo_ids@.len() <= u32::MAX,
        forall|i: int, j: int| 0 <= i <= j < c.dict_repo_ids@.len() ==> c.dict_repo_ids@[i] <= c.dict_repo_ids@[j],
        c.dict_repo_ids@.len() > 0 ==> c.dict_repo_ids@.last() < u64::MAX,
    ensures
        columns_accepted(c),
{
    law_ids_accepted(c.event_ids@);
    crate::monotonic::law_perm_hour_accepted(c.created_ats@);
    crate::codec::law_hybrid_few_accepts(c.repo_indices@);
    law_repo_ids_accepted(c.dict_repo_ids@);
}

} // verus!
