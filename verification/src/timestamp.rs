//! Timestamps stored as the moves that sort them and the histogram of the
//! sorted offsets from the earliest.
use crate::algo::{identify_permutation, permutation_moves, restore_permutation};
use crate::ans::{
    ans_byte_accepts, ans_byte_output, ans_byte_unframe, byte_table, law_ans_byte_output_roundtrip,
    table_complete, AnsBijection,
};
use crate::bijection::{vint_decode_all, vint_well_grouped, Bijection, VIntBijection};
use crate::histogram::{
    histogram, histogram_accepts, histogram_expand, histogram_reverts, HistogramBijection,
};
use crate::monotonic::{
    as_i64s, i64s_as_u64, lemma_min_i64, min_i64, min_of, offsets_of, perm_offsets, perm_restore,
    perm_sorted, shift_all, u64s_as_i64,
};
use crate::vint::{
    lemma_vint_read_n_prefix, read_part, read_vint, vint_bytes, vint_encode_all, vint_end,
    vint_part, vint_read_n, vint_readable_at, vint_value, write_vint,
};
use vstd::prelude::*;

verus! {

/// The advance and distance of each move, one after the other.
pub open spec fn moves_flat(ms: Seq<(usize, usize)>) -> Seq<u64>
    decreases ms.len(),
{
    if ms.len() == 0 {
        Seq::empty()
    } else {
        moves_flat(ms.drop_last()) + seq![ms.last().0 as u64, ms.last().1 as u64]
    }
}

/// The moves as bytes: their count, then each advance followed by its
/// distance, as variable-length integers.
pub open spec fn ts_moves_bytes(ms: Seq<(usize, usize)>) -> Seq<u8> {
    vint_bytes(ms.len() as u64) + vint_encode_all(moves_flat(ms))
}

/// The moves read back from their bytes.
pub open spec fn ts_moves_parse(b: Seq<u8>) -> Option<Seq<(usize, usize)>> {
    match vint_read_n(b, 0, 1) {
        None => None,
        Some((c, o1)) => {
            let count = c[0] as usize;
            match vint_read_n(b, o1, 2 * count as nat) {
                None => None,
                Some((flat, _)) => Some(
                    Seq::new(count as nat, |i: int| (flat[2 * i] as usize, flat[2 * i + 1] as usize)),
                ),
            }
        },
    }
}

/// The histogram of the sorted offsets, its first entry (the smallest
/// offset, zero) left out.
pub open spec fn ts_counts(s: Seq<i64>) -> Seq<u64> {
    histogram(u64s_as_i64(perm_sorted(s))).drop_first()
}

/// What decoding gives: the earliest value, the moves, the sorted offsets
/// from the counts, and the values in their first order; `None` where a
/// step cannot be carried out.
pub open spec fn ts_unframe(b: Seq<u8>) -> Option<Seq<i64>> {
    if !vint_readable_at(b, 0) {
        None
    } else {
        let e0 = vint_end(b, 0).unwrap();
        let min = vint_value(b, 0, e0 + 1) as i64;
        match vint_part(b, e0 + 1) {
            None => None,
            Some((mb, o2)) => match ts_moves_parse(mb) {
                None => None,
                Some(moves) => match ans_byte_unframe(b.skip(o2)) {
                    None => None,
                    Some(counts_bytes) => if !vint_well_grouped(counts_bytes) {
                        None
                    } else {
                        let hist = seq![0u64] + vint_decode_all(counts_bytes);
                        if !histogram_reverts(hist) {
                            None
                        } else {
                            perm_restore(i64s_as_u64(histogram_expand(hist)), moves, min)
                        }
                    },
                },
            },
        }
    }
}

/// Timestamps as sorting moves and a histogram of the sorted offsets.
pub struct TimestampCodec;

impl Bijection<Vec<i64>, Vec<u8>> for TimestampCodec {
    open spec fn applies_to(&self, source: Vec<i64>) -> bool {
        source@.len() > 0 ==> {
            &&& forall|i: int|
                0 <= i < source@.len() ==> #[trigger] source@[i] - min_i64(source@) <= i64::MAX
            &&& histogram_accepts(u64s_as_i64(perm_sorted(source@)))
            &&& ans_byte_accepts(vint_encode_all(ts_counts(source@)))
        }
    }

    open spec fn reverts(&self, source: Vec<u8>) -> bool {
        source@.len() == 0 || ts_unframe(source@) is Some
    }

    fn apply(&self, source: Vec<i64>) -> (result: Vec<u8>)
        ensures
            source@.len() == 0 ==> result@.len() == 0,
            source@.len() > 0 ==> result@ == ts_output(source@),
    {
        if source.len() == 0 {
            return Vec::new();
        }
        let min_val = min_of(&source);
        let offsets = offsets_of(&source, min_val);
        let (sorted_offsets, moves) = identify_permutation(offsets);
        let moves_buf = encode_ts_moves(&moves);
        let sorted_i64 = as_i64s(&sorted_offsets);
        let counts_u64 = HistogramBijection.apply(sorted_i64);
        let mut counts: Vec<u64> = Vec::new();
        let mut k: usize = 1;
        proof {
            assert(counts_u64@.len() > 0);
        }
        while k < counts_u64.len()
            invariant
                1 <= k <= counts_u64@.len(),
                counts@ == counts_u64@.subrange(1, k as int),
            decreases counts_u64@.len() - k,
        {
            counts.push(counts_u64[k]);
            assert(counts@ =~= counts_u64@.subrange(1, k + 1));
            k += 1;
        }
        assert(counts@ =~= ts_counts(source@));
        let counts_bytes = VIntBijection.apply(counts);
        let mut counts_compressed = AnsBijection.apply(counts_bytes);
        let mut result: Vec<u8> = Vec::new();
        write_vint(min_val as u64, &mut result);
        write_vint(moves_buf.len() as u64, &mut result);
        let mut moves_buf = moves_buf;
        result.append(&mut moves_buf);
        result.append(&mut counts_compressed);
        result
    }

    fn revert(&self, source: Vec<u8>) -> (out: Vec<i64>)
        ensures
            source@.len() == 0 ==> out@.len() == 0,
            source@.len() > 0 ==> ts_unframe(source@) == Some(out@),
    {
        if source.len() == 0 {
            return Vec::new();
        }
        let bytes = source.as_slice();
        let mut offset: usize = 0;
        let min_val = read_vint(bytes, &mut offset) as i64;
        let moves_slice = read_part(bytes, &mut offset);
        let moves = parse_ts_moves(&moves_slice);
        let counts_compressed = vstd::slice::slice_to_vec(
            vstd::slice::slice_subrange(bytes, offset, bytes.len()),
        );
        assert(counts_compressed@ == source@.skip(offset as int));
        let counts_bytes = AnsBijection.revert(counts_compressed);
        let counts = VIntBijection.revert(counts_bytes);
        let mut hist_input: Vec<u64> = Vec::new();
        hist_input.push(0);
        let mut counts = counts;
        hist_input.append(&mut counts);
        let sorted_i64 = HistogramBijection.revert(hist_input);
        let mut sorted_offsets: Vec<u64> = Vec::new();
        let mut k: usize = 0;
        while k < sorted_i64.len()
            invariant
                k <= sorted_i64@.len(),
                sorted_offsets@ == i64s_as_u64(sorted_i64@).take(k as int),
            decreases sorted_i64@.len() - k,
        {
            sorted_offsets.push(sorted_i64[k] as u64);
            assert(sorted_offsets@ =~= i64s_as_u64(sorted_i64@).take(k + 1));
            k += 1;
        }
        assert(sorted_offsets@ =~= i64s_as_u64(sorted_i64@));
        let restored = restore_permutation(sorted_offsets, moves);
        shift_all(&restored, min_val)
    }
}

/// The moves as bytes: their count, then each advance and its distance.
fn encode_ts_moves(moves: &Vec<(usize, usize)>) -> (buf: Vec<u8>)
    ensures
        buf@ == ts_moves_bytes(moves@),
{
    let mut buf: Vec<u8> = Vec::new();
    write_vint(moves.len() as u64, &mut buf);
    let ghost head = buf@;
    let mut j: usize = 0;
    assert(head + vint_encode_all(moves_flat(moves@.take(0))) =~= head);
    while j < moves.len()
        invariant
            j <= moves@.len(),
            buf@ == head + vint_encode_all(moves_flat(moves@.take(j as int))),
            head == vint_bytes(moves@.len() as u64),
        decreases moves@.len() - j,
    {
        let (adv, bubble) = moves[j];
        let ghost f0 = moves_flat(moves@.take(j as int));
        write_vint(adv as u64, &mut buf);
        assert(vint_encode_all(f0.push(adv as u64)) == vint_encode_all(f0) + vint_bytes(
            adv as u64,
        )) by {
            assert(f0.push(adv as u64).drop_last() == f0);
        }
        write_vint(bubble as u64, &mut buf);
        assert(vint_encode_all(f0.push(adv as u64).push(bubble as u64)) == vint_encode_all(
            f0.push(adv as u64),
        ) + vint_bytes(bubble as u64)) by {
            assert(f0.push(adv as u64).push(bubble as u64).drop_last() == f0.push(adv as u64));
        }
        assert(moves@.take(j + 1).drop_last() == moves@.take(j as int));
        assert(moves_flat(moves@.take(j + 1)) =~= f0.push(adv as u64).push(bubble as u64));
        j += 1;
    }
    assert(moves@.take(moves@.len() as int) == moves@);
    buf
}

/// Reads the moves back from their bytes.
fn parse_ts_moves(b: &Vec<u8>) -> (moves: Vec<(usize, usize)>)
    requires
        ts_moves_parse(b@) is Some,
    ensures
        ts_moves_parse(b@) == Some(moves@),
{
    let bytes = b.as_slice();
    let mut offset: usize = 0;
    proof {
        assert(vint_read_n(b@, 0, 0) == Some((Seq::<u64>::empty(), 0int)));
        assert(vint_readable_at(b@, 0));
    }
    let count = read_vint(bytes, &mut offset) as usize;
    let ghost o1 = offset as int;
    proof {
        assert(vint_read_n(b@, 0, 1).unwrap().0[0] == vint_value(b@, 0, o1));
        assert(vint_read_n(b@, o1, 0) == Some((Seq::<u64>::empty(), o1)));
        assert(flat_empty_ok(b@, o1));
    }
    let ghost total = vint_read_n(b@, o1, 2 * count as nat).unwrap().0;
    let mut flat: Vec<u64> = Vec::new();
    let mut moves: Vec<(usize, usize)> = Vec::new();
    let mut i: usize = 0;
    while i < count
        invariant
            i <= count,
            bytes@ == b@,
            o1 == vint_read_n(b@, 0, 1).unwrap().1,
            vint_read_n(b@, o1, 2 * count as nat) is Some,
            total == vint_read_n(b@, o1, 2 * count as nat).unwrap().0,
            vint_read_n(b@, o1, 2 * i as nat) == Some((flat@, offset as int)),
            flat@.len() == 2 * i,
            moves@ == Seq::new(i as nat, |j: int| (flat@[2 * j] as usize, flat@[2 * j + 1] as usize)),
        decreases count - i,
    {
        proof {
            lemma_vint_read_n_prefix(b@, o1, (2 * i + 1) as nat, 2 * count as nat);
            lemma_vint_read_n_prefix(b@, o1, (2 * i + 2) as nat, 2 * count as nat);
            assert(((2 * i + 1) as nat - 1) as nat == 2 * i as nat);
            assert(vint_readable_at(b@, offset as int));
        }
        let ghost f0 = flat@;
        let adv = read_vint(bytes, &mut offset);
        flat.push(adv);
        proof {
            assert(vint_read_n(b@, o1, (2 * i + 1) as nat) == Some((flat@, offset as int)));
            assert(((2 * i + 2) as nat - 1) as nat == (2 * i + 1) as nat);
            assert(vint_readable_at(b@, offset as int));
        }
        let bubble = read_vint(bytes, &mut offset);
        flat.push(bubble);
        proof {
            assert(vint_read_n(b@, o1, (2 * i + 2) as nat) == Some((flat@, offset as int)));
        }
        moves.push((adv as usize, bubble as usize));
        assert(forall|j: int| 0 <= j < 2 * i ==> flat@[j] == f0[j]);
        assert(flat@[2 * i as int] == adv && flat@[2 * i + 1] == bubble);
        assert(moves@ =~= Seq::new(
            (i + 1) as nat,
            |j: int| (flat@[2 * j] as usize, flat@[2 * j + 1] as usize),
        ));
        i += 1;
    }
    moves
}

spec fn flat_empty_ok(b: Seq<u8>, o1: int) -> bool {
    vint_read_n(b, o1, 0) == Some((Seq::<u64>::empty(), o1))
}

// ---------------------------------------------------------------------------
// Reading back what was written
// ---------------------------------------------------------------------------
/// What the codec writes for non-empty timestamps: the earliest, the moves
/// after their length, and the coded counts.
pub open spec fn ts_output(s: Seq<i64>) -> Seq<u8> {
    let mb = ts_moves_bytes(permutation_moves(perm_offsets(s)));
    vint_bytes(min_i64(s) as u64) + vint_bytes(mb.len() as u64) + mb + ans_byte_output(
        vint_encode_all(ts_counts(s)),
    )
}

/// The flattened moves: each advance, then its distance.
proof fn lemma_moves_flat(ms: Seq<(usize, usize)>)
    ensures
        moves_flat(ms).len() == 2 * ms.len(),
        forall|i: int|
            0 <= i < ms.len() ==> moves_flat(ms)[2 * i] == (#[trigger] ms[i]).0 as u64 && moves_flat(ms)[2
                * i + 1] == ms[i].1 as u64,
    decreases ms.len(),
{
    if ms.len() > 0 {
        let init = ms.drop_last();
        lemma_moves_flat(init);
        assert forall|i: int| 0 <= i < ms.len() implies moves_flat(ms)[2 * i] == (#[trigger] ms[i]).0 as u64
            && moves_flat(ms)[2 * i + 1] == ms[i].1 as u64 by {
            if i < init.len() {
                assert(ms[i] == init[i]);
            }
        }
    }
}

/// The moves are read back from their bytes.
proof fn lemma_ts_moves_parse(ms: Seq<(usize, usize)>)
    requires
        ms.len() <= usize::MAX,
    ensures
        ts_moves_parse(ts_moves_bytes(ms)) == Some(ms),
{
    let n = ms.len() as u64;
    let flat = moves_flat(ms);
    let vb = vint_bytes(n);
    let ef = vint_encode_all(flat);
    let raw = ts_moves_bytes(ms);
    assert(vint_encode_all(seq![n]) =~= vb) by {
        assert(seq![n].drop_last() =~= Seq::<u64>::empty());
        assert(vint_encode_all(seq![n].drop_last()) =~= Seq::<u8>::empty());
        assert(vint_encode_all(seq![n]) == vint_encode_all(seq![n].drop_last()) + vint_bytes(seq![n].last()));
    }
    assert(raw =~= Seq::<u8>::empty() + vint_encode_all(seq![n]) + ef);
    crate::vint::lemma_vint_read_encoded(Seq::empty(), seq![n], ef);
    lemma_moves_flat(ms);
    assert(raw =~= vb + ef + Seq::<u8>::empty());
    crate::vint::lemma_vint_read_encoded(vb, flat, Seq::empty());
    assert(n as usize == ms.len());
    assert(2 * ((n as usize) as nat) == flat.len());
    assert(Seq::new(ms.len(), |i: int| (flat[2 * i] as usize, flat[2 * i + 1] as usize)) =~= ms);
}

/// The sorted offsets start at zero.
proof fn lemma_sorted_starts_at_zero(s: Seq<i64>)
    requires
        0 < s.len() <= u32::MAX,
        forall|i: int| 0 <= i < s.len() ==> #[trigger] s[i] - min_i64(s) <= i64::MAX,
        histogram_accepts(u64s_as_i64(perm_sorted(s))),
    ensures
        u64s_as_i64(perm_sorted(s))[0] == 0,
        perm_sorted(s).len() == s.len(),
{
    let off = perm_offsets(s);
    let acts = crate::algo::move_actions(permutation_moves(off), 1);
    let sorted = perm_sorted(s);
    let si = u64s_as_i64(sorted);
    lemma_min_i64(s);
    crate::algo::law_restore_identify(off);
    crate::algo::lemma_apply_len(off, acts);
    let j = choose|j: int| 0 <= j < s.len() && min_i64(s) == s[j];
    assert(off[j] == 0);
    crate::algo::lemma_apply_members(off, acts, 0);
    let z = choose|k: int| 0 <= k < sorted.len() && sorted[k] == 0;
    assert(si[z] == 0);
    crate::algo::lemma_apply_members(off, acts, sorted[0]);
    assert(sorted.contains(sorted[0]));
    let q = choose|k: int| 0 <= k < off.len() && off[k] == sorted[0];
    assert(off[q] <= i64::MAX);
    assert(si[0] <= si[z]);
}

/// The parts of what the codec wrote.
proof fn lemma_ts_frame(s: Seq<i64>)
    requires
        0 < s.len(),
        ts_output(s).len() <= usize::MAX,
    ensures
        vint_readable_at(ts_output(s), 0),
        vint_value(ts_output(s), 0, vint_end(ts_output(s), 0).unwrap() + 1) as i64 == min_i64(s),
        vint_part(ts_output(s), vint_end(ts_output(s), 0).unwrap() + 1) is Some,
        vint_part(ts_output(s), vint_end(ts_output(s), 0).unwrap() + 1).unwrap().0 == ts_moves_bytes(
            permutation_moves(perm_offsets(s)),
        ),
        ts_output(s).skip(vint_part(ts_output(s), vint_end(ts_output(s), 0).unwrap() + 1).unwrap().1)
            == ans_byte_output(vint_encode_all(ts_counts(s))),
{
    let min = min_i64(s);
    let mb = ts_moves_bytes(permutation_moves(perm_offsets(s)));
    let cb = ans_byte_output(vint_encode_all(ts_counts(s)));
    let r = ts_output(s);
    let v1 = vint_bytes(min as u64);
    assert(r =~= Seq::<u8>::empty() + v1 + (vint_bytes(mb.len() as u64) + mb + cb));
    crate::vint::lemma_vint_bytes_at(Seq::empty(), min as u64, vint_bytes(mb.len() as u64) + mb + cb);
    crate::bitops::lemma_i64_u64_roundtrip(min);
    assert(r =~= v1 + vint_bytes(mb.len() as u64) + mb + cb);
    crate::vint::lemma_vint_part_at(v1, mb, cb);
    let o2 = (v1.len() + vint_bytes(mb.len() as u64).len() + mb.len()) as int;
    assert(r.skip(o2) =~= cb);
}

/// Decoding what the codec wrote gives the timestamps back, where the
/// coded counts take at most 4096 bytes (the byte table then fills the
/// scale).
pub proof fn law_timestamp_short_roundtrip(s: Seq<i64>)
    requires
        0 < s.len() <= u32::MAX,
        ts_output(s).len() <= usize::MAX,
        forall|i: int| 0 <= i < s.len() ==> #[trigger] s[i] - min_i64(s) <= i64::MAX,
        histogram_accepts(u64s_as_i64(perm_sorted(s))),
        u64s_as_i64(perm_sorted(s)).last() < i64::MAX,
        vint_encode_all(ts_counts(s)).len() <= 4096,
    ensures
        ts_unframe(ts_output(s)) == Some(s),
{
    let ms = permutation_moves(perm_offsets(s));
    let si = u64s_as_i64(perm_sorted(s));
    crate::algo::law_restore_identify(perm_offsets(s));
    crate::algo::lemma_apply_len(perm_offsets(s), crate::algo::move_actions(ms, 1));
    assert(si.len() == s.len());
    let counts = ts_counts(s);
    assert(counts.len() > 0) by {
        assert(si[si.len() - 1] >= si[0]);
    }
    assert(vint_encode_all(counts).len() > 0) by {
        assert(vint_encode_all(counts) == vint_encode_all(counts.drop_last()) + vint_bytes(counts.last()));
        crate::vint::law_vint_write_read(Seq::empty(), counts.last());
        assert(Seq::<u8>::empty() + vint_bytes(counts.last()) =~= vint_bytes(counts.last()));
    }
    crate::ans::law_ans_byte_short_roundtrip(vint_encode_all(counts));
    law_timestamp_roundtrip(s);
}

/// Decoding what the codec wrote gives the timestamps back, where at most
/// 64 distinct byte values occur in the coded counts (the byte table then
/// fills the scale).
pub proof fn law_timestamp_few_roundtrip(s: Seq<i64>)
    requires
        0 < s.len() <= u32::MAX,
        ts_output(s).len() <= usize::MAX,
        forall|i: int| 0 <= i < s.len() ==> #[trigger] s[i] - min_i64(s) <= i64::MAX,
        histogram_accepts(u64s_as_i64(perm_sorted(s))),
        u64s_as_i64(perm_sorted(s)).last() < i64::MAX,
        vint_encode_all(ts_counts(s)).len() < u32::MAX,
        crate::ans::used_count(crate::ans::byte_counts(vint_encode_all(ts_counts(s))), 256) <= 64,
    ensures
        ts_unframe(ts_output(s)) == Some(s),
{
    let ms = permutation_moves(perm_offsets(s));
    let si = u64s_as_i64(perm_sorted(s));
    crate::algo::law_restore_identify(perm_offsets(s));
    crate::algo::lemma_apply_len(perm_offsets(s), crate::algo::move_actions(ms, 1));
    assert(si.len() == s.len());
    let counts = ts_counts(s);
    assert(counts.len() > 0) by {
        assert(si[si.len() - 1] >= si[0]);
    }
    assert(vint_encode_all(counts).len() > 0) by {
        assert(vint_encode_all(counts) == vint_encode_all(counts.drop_last()) + vint_bytes(counts.last()));
        crate::vint::law_vint_write_read(Seq::empty(), counts.last());
        assert(Seq::<u8>::empty() + vint_bytes(counts.last()) =~= vint_bytes(counts.last()));
    }
    crate::ans::law_ans_byte_few_roundtrip(vint_encode_all(counts));
    law_timestamp_roundtrip(s);
}

/// Decoding what the codec wrote gives the timestamps back, where the
/// table of the coded counts fills the scale.
#[verifier::spinoff_prover]
pub proof fn law_timestamp_roundtrip(s: Seq<i64>)
    requires
        0 < s.len() <= u32::MAX,
        ts_output(s).len() <= usize::MAX,
        forall|i: int| 0 <= i < s.len() ==> #[trigger] s[i] - min_i64(s) <= i64::MAX,
        histogram_accepts(u64s_as_i64(perm_sorted(s))),
        u64s_as_i64(perm_sorted(s)).last() < i64::MAX,
        ans_byte_accepts(vint_encode_all(ts_counts(s))),
        vint_encode_all(ts_counts(s)).len() <= u32::MAX,
        table_complete(byte_table(vint_encode_all(ts_counts(s)))),
    ensures
        ts_unframe(ts_output(s)) == Some(s),
{
    let ms = permutation_moves(perm_offsets(s));
    let counts = ts_counts(s);
    let si = u64s_as_i64(perm_sorted(s));
    lemma_ts_frame(s);
    crate::algo::lemma_moves_bounds(perm_offsets(s));
    lemma_ts_moves_parse(ms);
    law_ans_byte_output_roundtrip(vint_encode_all(counts));
    crate::bijection::law_vint_roundtrip(counts);
    lemma_sorted_starts_at_zero(s);
    let hist = histogram(si);
    assert(hist[0] == 0);
    assert(seq![0u64] + counts =~= hist);
    crate::histogram::law_histogram_roundtrip(si);
    assert(histogram_expand(hist) == si);
    crate::monotonic::lemma_perm_restore(s);
}

} // verus!
