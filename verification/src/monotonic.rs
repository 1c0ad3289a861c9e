//! Coding of mostly increasing signed sequences: either sorted and stored
//! with the moves that restore the order, or forced increasing and stored
//! with the offsets that undo it.
use crate::algo::{
    actions_fit, apply_actions, identify_permutation, move_actions, move_end, moves_fit, permutation_moves,
    restore_permutation, undo_actions,
};
use crate::ans::{
    ans_u64_accepts, ans_u64_complete, ans_u64_output, ans_u64_unframe,
    law_ans_u64_output_roundtrip, AnsU64Bijection,
};
use crate::bijection::{
    as_signed, delta_at, fits_i64, i64s, prefix_sum, vint_decode_all, vint_well_grouped, Bijection,
    PositiveDeltaBijection, VIntBijection,
};
use crate::bytes::{from_le_u64, le_u64, push_u64_le, read_u64_le};
use crate::compress::{zstd_decoded, zstd_output, ZStdBijection};
use crate::histogram::{
    histogram, histogram_accepts, histogram_expand, histogram_expands, histogram_takes, histogram_reverts, law_histogram_roundtrip,
    HistogramBijection,
};
use crate::vint::{
    lemma_vint_read_n_len, read_part, read_vint, try_read_part, try_read_vints, vint_bytes, vint_encode_all, vint_part, vint_read_n,
    write_vint,
};
use vstd::prelude::*;

verus! {

/// The smallest value of a non-empty sequence.
pub open spec fn min_i64(s: Seq<i64>) -> i64
    decreases s.len(),
{
    if s.len() <= 1 {
        s[0]
    } else if s.last() < min_i64(s.drop_last()) {
        s.last()
    } else {
        min_i64(s.drop_last())
    }
}

pub proof fn lemma_min_i64(s: Seq<i64>)
    requires
        s.len() > 0,
    ensures
        forall|i: int| 0 <= i < s.len() ==> min_i64(s) <= s[i],
        exists|i: int| 0 <= i < s.len() && min_i64(s) == s[i],
    decreases s.len(),
{
    if s.len() > 1 {
        lemma_min_i64(s.drop_last());
        assert forall|k: int| 0 <= k < s.len() implies min_i64(s) <= s[k] by {
            if k < s.len() - 1 {
                assert(s[k] == s.drop_last()[k]);
            }
        }
        let i = choose|i: int| 0 <= i < s.len() - 1 && min_i64(s.drop_last()) == s.drop_last()[i];
        if s.last() < min_i64(s.drop_last()) {
            assert(min_i64(s) == s[s.len() - 1]);
        } else {
            assert(min_i64(s) == s[i]);
        }
    } else {
        assert(min_i64(s) == s[0]);
    }
}

/// The smallest value of a non-empty sequence.
pub(crate) fn min_of(source: &Vec<i64>) -> (m: i64)
    requires
        source@.len() > 0,
    ensures
        m == min_i64(source@),
{
    let mut m = source[0];
    let mut i: usize = 1;
    assert(source@.take(1).len() == 1);
    while i < source.len()
        invariant
            1 <= i <= source@.len(),
            m == min_i64(source@.take(i as int)),
        decreases source@.len() - i,
    {
        assert(source@.take(i + 1).drop_last() == source@.take(i as int));
        if source[i] < m {
            m = source[i];
        }
        i += 1;
    }
    assert(source@.take(source@.len() as int) == source@);
    m
}

/// Each value's offset from the smallest.
pub open spec fn perm_offsets(s: Seq<i64>) -> Seq<u64> {
    Seq::new(s.len(), |i: int| (s[i] - min_i64(s)) as u64)
}

/// The offsets in sorted order, as insertion sort leaves them.
pub open spec fn perm_sorted(s: Seq<i64>) -> Seq<u64> {
    apply_actions(perm_offsets(s), move_actions(permutation_moves(perm_offsets(s)), 1))
}

pub open spec fn u64s_as_i64(s: Seq<u64>) -> Seq<i64> {
    s.map_values(|x: u64| x as i64)
}

pub open spec fn i64s_as_u64(s: Seq<i64>) -> Seq<u64> {
    s.map_values(|x: i64| x as u64)
}

/// The moves as bytes: their count, then every advance, then every
/// distance, each as a variable-length integer.
pub open spec fn perm_moves_bytes(ms: Seq<(usize, usize)>) -> Seq<u8> {
    vint_bytes(ms.len() as u64) + vint_encode_all(ms.map_values(|m: (usize, usize)| m.0 as u64))
        + vint_encode_all(ms.map_values(|m: (usize, usize)| m.1 as u64))
}

/// The moves read back from their bytes; none from no bytes.
pub open spec fn perm_moves_parse(raw: Seq<u8>) -> Option<Seq<(usize, usize)>> {
    if raw.len() == 0 {
        Some(Seq::empty())
    } else {
        match vint_read_n(raw, 0, 1) {
            None => None,
            Some((c, o1)) => {
                let count = c[0] as usize;
                match vint_read_n(raw, o1, count as nat) {
                    None => None,
                    Some((advs, o2)) => match vint_read_n(raw, o2, count as nat) {
                        None => None,
                        Some((bubs, _)) => Some(
                            Seq::new(count as nat, |i: int| (advs[i] as usize, bubs[i] as usize)),
                        ),
                    },
                }
            },
        }
    }
}

/// The moves are read back from their bytes.
proof fn lemma_moves_parse(ms: Seq<(usize, usize)>)
    requires
        ms.len() <= usize::MAX,
    ensures
        perm_moves_parse(perm_moves_bytes(ms)) == Some(ms),
{
    let n = ms.len() as u64;
    let a = ms.map_values(|m: (usize, usize)| m.0 as u64);
    let b = ms.map_values(|m: (usize, usize)| m.1 as u64);
    let vb = vint_bytes(n);
    let ea = vint_encode_all(a);
    let eb = vint_encode_all(b);
    let raw = perm_moves_bytes(ms);
    assert(vint_encode_all(seq![n]) =~= vb) by {
        assert(seq![n].drop_last() =~= Seq::<u64>::empty());
        assert(vint_encode_all(seq![n].drop_last()) =~= Seq::<u8>::empty());
        assert(vint_encode_all(seq![n]) == vint_encode_all(seq![n].drop_last()) + vint_bytes(seq![n].last()));
    }
    assert(raw =~= Seq::<u8>::empty() + vint_encode_all(seq![n]) + (ea + eb));
    crate::vint::lemma_vint_read_encoded(Seq::empty(), seq![n], ea + eb);
    crate::vint::lemma_vint_bytes_read(n, ea + eb);
    assert(raw.len() > 0);
    assert(raw =~= vb + ea + eb);
    crate::vint::lemma_vint_read_encoded(vb, a, eb);
    assert(raw =~= (vb + ea) + eb + Seq::<u8>::empty());
    crate::vint::lemma_vint_read_encoded(vb + ea, b, Seq::empty());
    assert(n as usize == ms.len());
    assert(Seq::new(ms.len(), |i: int| (a[i] as usize, b[i] as usize)) =~= ms);
}

/// Restored offsets shifted back by the smallest value, where each fits.
pub open spec fn shift_back(r: Seq<u64>, min: i64) -> Option<Seq<i64>> {
    if forall|i: int| 0 <= i < r.len() ==> i64::MIN <= (#[trigger] r[i] as i64) + min <= i64::MAX {
        Some(Seq::new(r.len(), |i: int| ((r[i] as i64) + min) as i64))
    } else {
        None
    }
}

/// Undoing the moves on the sorted values, then shifting them back.
pub open spec fn perm_restore(values: Seq<u64>, moves: Seq<(usize, usize)>, min: i64) -> Option<
    Seq<i64>,
> {
    if actions_fit(move_actions(moves, 1), values.len() as int) && move_end(moves, 1)
        <= usize::MAX {
        shift_back(undo_actions(values, move_actions(moves, 1)), min)
    } else {
        None
    }
}

/// What decoding gives: the smallest value, the sorted values from their
/// histogram, the moves, and the values in their first order; `None` where
/// a step cannot be carried out.
pub open spec fn perm_unframe(b: Seq<u8>) -> Option<Seq<i64>> {
    if b.len() < 8 {
        None
    } else {
        let min = from_le_u64(b, 0) as i64;
        match vint_part(b, 8) {
            None => None,
            Some((sb, o1)) => match vint_part(b, o1) {
                None => None,
                Some((mc, _)) => match ans_u64_unframe(sb) {
                    None => None,
                    Some(hist) => if !histogram_reverts(hist) {
                        None
                    } else {
                        match zstd_decoded(mc) {
                            None => None,
                            Some(raw) => match perm_moves_parse(raw) {
                                None => None,
                                Some(moves) => perm_restore(
                                    i64s_as_u64(histogram_expand(hist)),
                                    moves,
                                    min,
                                ),
                            },
                        }
                    },
                },
            },
        }
    }
}

/// What the values are written as: nothing for nothing, else the smallest
/// value, the coded histogram of the sorted offsets and the compressed
/// moves, each part after its length.
pub open spec fn perm_output(source: Seq<i64>, result: Seq<u8>) -> bool {
    &&& source.len() == 0 ==> result.len() == 0
    &&& source.len() > 0 ==> exists|sb: Seq<u8>, mc: Seq<u8>|
        {
            &&& #[trigger] ans_u64_output(histogram(u64s_as_i64(perm_sorted(source))), sb)
            &&& #[trigger] zstd_output(perm_moves_bytes(permutation_moves(perm_offsets(source))), mc)
            &&& result == le_u64(min_i64(source) as u64) + vint_bytes(sb.len() as u64) + sb
                + vint_bytes(mc.len() as u64) + mc
        }
}

/// The values that the permutation coder takes.
pub open spec fn perm_accepts(source: Seq<i64>) -> bool {
    source.len() > 0 ==> {
        &&& forall|i: int| 0 <= i < source.len() ==> #[trigger] source[i] - min_i64(source) <= i64::MAX
        &&& histogram_accepts(u64s_as_i64(perm_sorted(source)))
        &&& ans_u64_accepts(histogram(u64s_as_i64(perm_sorted(source))))
    }
}

/// The values sorted and stored as a histogram, with the moves that
/// restore their order.
pub struct MonotonicPermutationBijection;

impl Bijection<Vec<i64>, Vec<u8>> for MonotonicPermutationBijection {
    open spec fn applies_to(&self, source: Vec<i64>) -> bool {
        perm_accepts(source@)
    }

    open spec fn reverts(&self, source: Vec<u8>) -> bool {
        source@.len() == 0 || perm_unframe(source@) is Some
    }

    fn apply(&self, source: Vec<i64>) -> (result: Vec<u8>)
        ensures
            perm_output(source@, result@),
    {
        match self.try_apply(source) {
            Some(result) => result,
            None => Vec::new(),
        }
    }

    fn revert(&self, source: Vec<u8>) -> (out: Vec<i64>)
        ensures
            source@.len() == 0 ==> out@.len() == 0,
            source@.len() > 0 ==> perm_unframe(source@) == Some(out@),
    {
        match self.try_revert(source) {
            Some(out) => out,
            None => Vec::new(),
        }
    }
}

impl MonotonicPermutationBijection {
    /// Codes the values, or gives `None` where they are not taken: an
    /// offset from the smallest leaves 63 bits, the offsets span more than
    /// fifty million, or their histogram is not taken by the 64-bit coder.
    pub fn try_apply(&self, source: Vec<i64>) -> (out: Option<Vec<u8>>)
        ensures
            out is Some <==> perm_accepts(source@),
            out matches Some(r) ==> perm_output(source@, r@),
    {
        if source.len() == 0 {
            return Some(Vec::new());
        }
        let min_val = min_of(&source);
        let mut i: usize = 0;
        while i < source.len()
            invariant
                i <= source@.len(),
                min_val == min_i64(source@),
                forall|k: int| 0 <= k < i ==> #[trigger] source@[k] - min_i64(source@) <= i64::MAX,
            decreases source@.len() - i,
        {
            if min_val < 0 && source[i] > i64::MAX + min_val {
                assert(source@[i as int] - min_i64(source@) > i64::MAX);
                return None;
            }
            i += 1;
        }
        let values = offsets_of(&source, min_val);
        let (sorted, moves) = identify_permutation(values);
        let sorted_i64 = as_i64s(&sorted);
        if !histogram_takes(&sorted_i64) {
            return None;
        }
        let hist_u64 = HistogramBijection.apply(sorted_i64);
        let sorted_bytes = match AnsU64Bijection.try_apply(hist_u64) {
            Some(b) => b,
            None => return None,
        };
        let moves_buf = encode_perm_moves(&moves);
        let moves_compressed = ZStdBijection.apply(moves_buf);
        let mut result: Vec<u8> = Vec::new();
        push_u64_le(&mut result, min_val as u64);
        write_vint(sorted_bytes.len() as u64, &mut result);
        let ghost sb = sorted_bytes@;
        let mut sorted_bytes = sorted_bytes;
        result.append(&mut sorted_bytes);
        write_vint(moves_compressed.len() as u64, &mut result);
        let ghost mc = moves_compressed@;
        let mut moves_compressed = moves_compressed;
        result.append(&mut moves_compressed);
        assert(result@ == le_u64(min_i64(source@) as u64) + vint_bytes(sb.len() as u64) + sb
            + vint_bytes(mc.len() as u64) + mc);
        Some(result)
    }

    /// Decodes the values, or gives `None` where the bytes cannot be
    /// decoded; nothing for nothing.
    pub fn try_revert(&self, source: Vec<u8>) -> (out: Option<Vec<i64>>)
        ensures
            match out {
                Some(v) => if source@.len() == 0 {
                    v@.len() == 0
                } else {
                    perm_unframe(source@) == Some(v@)
                },
                None => source@.len() > 0 && perm_unframe(source@) is None,
            },
    {
        if source.len() == 0 {
            return Some(Vec::new());
        }
        if source.len() < 8 {
            return None;
        }
        let bytes = source.as_slice();
        let min_val = read_u64_le(bytes, 0) as i64;
        let mut offset: usize = 8;
        let sorted_bytes = match try_read_part(bytes, &mut offset) {
            Some(p) => p,
            None => return None,
        };
        let moves_compressed = match try_read_part(bytes, &mut offset) {
            Some(p) => p,
            None => return None,
        };
        let hist_u64 = match AnsU64Bijection.try_revert(sorted_bytes) {
            Some(h) => h,
            None => return None,
        };
        if !histogram_expands(&hist_u64) {
            return None;
        }
        let sorted_i64 = HistogramBijection.revert(hist_u64);
        let mut values: Vec<u64> = Vec::new();
        let mut k: usize = 0;
        while k < sorted_i64.len()
            invariant
                k <= sorted_i64@.len(),
                values@ == i64s_as_u64(sorted_i64@).take(k as int),
            decreases sorted_i64@.len() - k,
        {
            values.push(sorted_i64[k] as u64);
            assert(values@ =~= i64s_as_u64(sorted_i64@).take(k + 1));
            k += 1;
        }
        assert(values@ =~= i64s_as_u64(sorted_i64@));
        let moves_raw = match ZStdBijection.try_revert(moves_compressed) {
            Some(r) => r,
            None => return None,
        };
        let moves = match parse_perm_moves(&moves_raw) {
            Some(m) => m,
            None => return None,
        };
        if !moves_fit(&moves, values.len()) {
            return None;
        }
        let restored = restore_permutation(values, moves);
        try_shift_all(&restored, min_val)
    }
}

/// Each value's offset from the smallest.
pub(crate) fn offsets_of(source: &Vec<i64>, min_val: i64) -> (values: Vec<u64>)
    requires
        source@.len() > 0,
        min_val == min_i64(source@),
        forall|i: int| 0 <= i < source@.len() ==> #[trigger] source@[i] - min_i64(source@) <= i64::MAX,
    ensures
        values@ == perm_offsets(source@),
{
    proof {
        lemma_min_i64(source@);
    }
    let mut values: Vec<u64> = Vec::new();
    let mut i: usize = 0;
    while i < source.len()
        invariant
            i <= source@.len(),
            min_val == min_i64(source@),
            forall|i: int| 0 <= i < source@.len() ==> #[trigger] source@[i] - min_i64(source@) <= i64::MAX,
            forall|i: int| 0 <= i < source@.len() ==> min_i64(source@) <= source@[i],
            values@ == perm_offsets(source@).take(i as int),
        decreases source@.len() - i,
    {
        assert(source@[i as int] - min_val <= i64::MAX);
        values.push((source[i] - min_val) as u64);
        assert(values@ =~= perm_offsets(source@).take(i + 1));
        i += 1;
    }
    assert(values@ =~= perm_offsets(source@));
    values
}

/// The values read as signed.
pub(crate) fn as_i64s(v: &Vec<u64>) -> (out: Vec<i64>)
    ensures
        out@ == u64s_as_i64(v@),
{
    let mut out: Vec<i64> = Vec::new();
    let mut k: usize = 0;
    while k < v.len()
        invariant
            k <= v@.len(),
            out@ == u64s_as_i64(v@).take(k as int),
        decreases v@.len() - k,
    {
        out.push(v[k] as i64);
        assert(out@ =~= u64s_as_i64(v@).take(k + 1));
        k += 1;
    }
    assert(out@ =~= u64s_as_i64(v@));
    out
}

/// The moves as bytes: their count, the advances, then the distances.
fn encode_perm_moves(moves: &Vec<(usize, usize)>) -> (buf: Vec<u8>)
    ensures
        buf@ == perm_moves_bytes(moves@),
{
    let mut moves_buf: Vec<u8> = Vec::new();
    write_vint(moves.len() as u64, &mut moves_buf);
    let mut j: usize = 0;
    assert(moves@.take(0).map_values(|m: (usize, usize)| m.0 as u64) =~= Seq::<u64>::empty());
    while j < moves.len()
        invariant
            j <= moves@.len(),
            moves_buf@ == vint_bytes(moves@.len() as u64) + vint_encode_all(
                moves@.take(j as int).map_values(|m: (usize, usize)| m.0 as u64),
            ),
        decreases moves@.len() - j,
    {
        write_vint(moves[j].0 as u64, &mut moves_buf);
        assert(moves@.take(j + 1).map_values(|m: (usize, usize)| m.0 as u64).drop_last()
            =~= moves@.take(j as int).map_values(|m: (usize, usize)| m.0 as u64));
        j += 1;
    }
    assert(moves@.take(moves@.len() as int) == moves@);
    let ghost head = moves_buf@;
    let mut j: usize = 0;
    assert(moves@.take(0).map_values(|m: (usize, usize)| m.1 as u64) =~= Seq::<u64>::empty());
    assert(head + vint_encode_all(Seq::<u64>::empty()) =~= head);
    while j < moves.len()
        invariant
            j <= moves@.len(),
            moves_buf@ == head + vint_encode_all(
                moves@.take(j as int).map_values(|m: (usize, usize)| m.1 as u64),
            ),
        decreases moves@.len() - j,
    {
        write_vint(moves[j].1 as u64, &mut moves_buf);
        assert(moves@.take(j + 1).map_values(|m: (usize, usize)| m.1 as u64).drop_last()
            =~= moves@.take(j as int).map_values(|m: (usize, usize)| m.1 as u64));
        j += 1;
    }
    moves_buf
}

/// Reads the moves back from their bytes, or gives `None` where they
/// cannot be read.
fn parse_perm_moves(raw: &Vec<u8>) -> (moves: Option<Vec<(usize, usize)>>)
    ensures
        match moves {
            Some(m) => perm_moves_parse(raw@) == Some(m@),
            None => perm_moves_parse(raw@) is None,
        },
{
    let mut moves: Vec<(usize, usize)> = Vec::new();
    if raw.len() == 0 {
        return Some(moves);
    }
    let bytes = raw.as_slice();
    let mut offset: usize = 0;
    let mut first: Vec<u64> = Vec::new();
    if !try_read_vints(bytes, &mut offset, 1, &mut first) {
        return None;
    }
    proof {
        lemma_vint_read_n_len(raw@, 0, 1);
    }
    let count = first[0] as usize;
    let ghost o1 = offset as int;
    let mut advances: Vec<u64> = Vec::new();
    if !try_read_vints(bytes, &mut offset, count, &mut advances) {
        return None;
    }
    let ghost o2 = offset as int;
    let mut bubbles: Vec<u64> = Vec::new();
    if !try_read_vints(bytes, &mut offset, count, &mut bubbles) {
        return None;
    }
    let ghost advs = advances@;
    let ghost bubs = bubbles@;
    proof {
        lemma_vint_read_n_len(raw@, o1, count as nat);
        lemma_vint_read_n_len(raw@, o2, count as nat);
    }
    let mut i: usize = 0;
    while i < count
        invariant
            i <= count,
            advances@ == advs,
            bubbles@ == bubs,
            advs.len() == count,
            bubs.len() == count,
            moves@ == Seq::new(i as nat, |j: int| (advs[j] as usize, bubs[j] as usize)),
        decreases count - i,
    {
        moves.push((advances[i] as usize, bubbles[i] as usize));
        assert(moves@ =~= Seq::new((i + 1) as nat, |j: int| (advs[j] as usize, bubs[j] as usize)));
        i += 1;
    }
    Some(moves)
}

/// Shifts restored offsets back by the smallest value.
pub(crate) fn shift_all(restored: &Vec<u64>, min_val: i64) -> (out: Vec<i64>)
    requires
        shift_back(restored@, min_val) is Some,
    ensures
        shift_back(restored@, min_val) == Some(out@),
{
    let mut out: Vec<i64> = Vec::new();
    let mut i: usize = 0;
    while i < restored.len()
        invariant
            i <= restored@.len(),
            shift_back(restored@, min_val) is Some,
            out@ == Seq::new(i as nat, |j: int| ((restored@[j] as i64) + min_val) as i64),
        decreases restored@.len() - i,
    {
        assert(i64::MIN <= (restored@[i as int] as i64) + min_val <= i64::MAX);
        out.push((restored[i] as i64) + min_val);
        assert(out@ =~= Seq::new((i + 1) as nat, |j: int| ((restored@[j] as i64) + min_val) as i64));
        i += 1;
    }
    out
}

/// Shifts restored offsets back by the smallest value, or gives `None`
/// where one leaves 64 bits.
pub(crate) fn try_shift_all(restored: &Vec<u64>, min_val: i64) -> (out: Option<Vec<i64>>)
    ensures
        match out {
            Some(v) => shift_back(restored@, min_val) == Some(v@),
            None => shift_back(restored@, min_val) is None,
        },
{
    let mut out: Vec<i64> = Vec::new();
    let mut i: usize = 0;
    while i < restored.len()
        invariant
            i <= restored@.len(),
            forall|j: int| 0 <= j < i ==> i64::MIN <= (#[trigger] restored@[j] as i64) + min_val <= i64::MAX,
            out@ == Seq::new(i as nat, |j: int| ((restored@[j] as i64) + min_val) as i64),
        decreases restored@.len() - i,
    {
        let v = restored[i] as i64;
        if (min_val > 0 && v > i64::MAX - min_val) || (min_val < 0 && v < i64::MIN - min_val) {
            assert(!(i64::MIN <= (restored@[i as int] as i64) + min_val <= i64::MAX));
            return None;
        }
        out.push(v + min_val);
        assert(out@ =~= Seq::new((i + 1) as nat, |j: int| ((restored@[j] as i64) + min_val) as i64));
        i += 1;
    }
    Some(out)
}


/// The running repair of a sequence: each value raised by the offset so
/// far, and where that falls below the previous raised value, the offset
/// grown so that it meets it. The raised values, the offsets, the current
/// offset and the last raised value.
pub open spec fn repair_run(s: Seq<i64>) -> (Seq<int>, Seq<int>, int, int)
    decreases s.len(),
{
    if s.len() == 0 {
        (Seq::empty(), Seq::empty(), 0, i64::MIN as int)
    } else {
        let (m, o, c, p) = repair_run(s.drop_last());
        let val = s.last() + c;
        if val < p {
            (m.push(p), o.push(c + (p - val)), c + (p - val), p)
        } else {
            (m.push(val), o.push(c), c, val)
        }
    }
}

/// Every step of the repair stays within 64 bits.
pub open spec fn repair_fits(s: Seq<i64>) -> bool
    decreases s.len(),
{
    if s.len() == 0 {
        true
    } else {
        let (m, o, c, p) = repair_run(s.drop_last());
        let val = s.last() + c;
        &&& repair_fits(s.drop_last())
        &&& fits_i64(val)
        &&& val < p ==> fits_i64(p - val) && fits_i64(c + (p - val))
    }
}

pub open spec fn as_i64_seq(s: Seq<int>) -> Seq<i64> {
    s.map_values(|x: int| x as i64)
}

/// The raised values.
pub open spec fn repaired(s: Seq<i64>) -> Seq<i64> {
    as_i64_seq(repair_run(s).0)
}

/// The offsets, as differences from one to the next.
pub open spec fn repair_offset_deltas(s: Seq<i64>) -> Seq<u64> {
    Seq::new(s.len(), |k: int| delta_at(repair_run(s).1, k) as u64)
}

/// The sequence that positive deltas sum back to.
pub open spec fn delta_sums(u: Seq<u64>) -> Seq<i64> {
    Seq::new(u.len(), |i: int| prefix_sum(as_signed(u), i + 1) as i64)
}

/// Decoding a sequence of differences: defined where each sum fits.
pub open spec fn delta_sums_fit(u: Seq<u64>) -> bool {
    forall|i: int| 0 < i <= u.len() ==> fits_i64(#[trigger] prefix_sum(as_signed(u), i))
}

/// A compressed list of variable-length integers, decoded.
pub open spec fn zstd_vints(b: Seq<u8>) -> Option<Seq<u64>> {
    match zstd_decoded(b) {
        Some(raw) => if vint_well_grouped(raw) {
            Some(vint_decode_all(raw))
        } else {
            None
        },
        None => None,
    }
}

/// What decoding a repaired sequence gives: the raised values from their
/// histogram, the offsets from their differences, and each raised value
/// less its offset; `None` where a step cannot be carried out.
pub open spec fn repair_unframe(b: Seq<u8>) -> Option<Seq<i64>> {
    match vint_part(b, 0) {
        None => None,
        Some((mb, o1)) => match vint_part(b, o1) {
            None => None,
            Some((ob, _)) => match zstd_vints(mb) {
                None => None,
                Some(hist) => match zstd_vints(ob) {
                    None => None,
                    Some(deltas) => if !histogram_reverts(hist) || !delta_sums_fit(deltas) {
                        None
                    } else {
                        let m = histogram_expand(hist);
                        let off = delta_sums(deltas);
                        if m.len() != off.len() || !(forall|i: int|
                            0 <= i < m.len() ==> fits_i64(#[trigger] m[i] - off[i])) {
                            None
                        } else {
                            Some(Seq::new(m.len(), |i: int| (m[i] - off[i]) as i64))
                        }
                    },
                },
            },
        },
    }
}

/// The values forced non-decreasing, stored with the offsets that undo it.
pub struct MonotonicRepairBijection;

impl Bijection<Vec<i64>, Vec<u8>> for MonotonicRepairBijection {
    open spec fn applies_to(&self, source: Vec<i64>) -> bool {
        repair_fits(source@) && histogram_accepts(repaired(source@))
    }

    open spec fn reverts(&self, source: Vec<u8>) -> bool {
        source@.len() == 0 || repair_unframe(source@) is Some
    }

    fn apply(&self, source: Vec<i64>) -> (result: Vec<u8>)
        ensures
            source@.len() == 0 ==> result@.len() == 0,
            source@.len() > 0 ==> repair_output(source@, result@),
    {
        if source.len() == 0 {
            return Vec::new();
        }
        let (m, offsets) = repair(&source);
        let m_u64 = HistogramBijection.apply(m);
        let m_bytes = ZStdBijection.apply(VIntBijection.apply(m_u64));
        let offsets_u64 = PositiveDeltaBijection.apply(offsets);
        assert(offsets_u64@ =~= repair_offset_deltas(source@));
        let offsets_bytes = ZStdBijection.apply(VIntBijection.apply(offsets_u64));
        let mut result: Vec<u8> = Vec::new();
        write_vint(m_bytes.len() as u64, &mut result);
        let ghost mb = m_bytes@;
        let mut m_bytes = m_bytes;
        result.append(&mut m_bytes);
        write_vint(offsets_bytes.len() as u64, &mut result);
        let ghost ob = offsets_bytes@;
        let mut offsets_bytes = offsets_bytes;
        result.append(&mut offsets_bytes);
        assert(result@ == vint_bytes(mb.len() as u64) + mb + vint_bytes(ob.len() as u64) + ob);
        assert(zstd_output(vint_encode_all(histogram(repaired(source@))), mb));
        assert(zstd_output(vint_encode_all(repair_offset_deltas(source@)), ob));
        result
    }

    fn revert(&self, source: Vec<u8>) -> (out: Vec<i64>)
        ensures
            source@.len() == 0 ==> out@.len() == 0,
            source@.len() > 0 ==> repair_unframe(source@) == Some(out@),
    {
        if source.len() == 0 {
            return Vec::new();
        }
        let bytes = source.as_slice();
        let mut offset: usize = 0;
        let m_bytes = read_part(bytes, &mut offset);
        let offsets_bytes = read_part(bytes, &mut offset);
        let m = HistogramBijection.revert(VIntBijection.revert(ZStdBijection.revert(m_bytes)));
        let offsets = PositiveDeltaBijection.revert(
            VIntBijection.revert(ZStdBijection.revert(offsets_bytes)),
        );
        let ghost mv = m@;
        let ghost ov = offsets@;
        assert(ov =~= delta_sums(vint_decode_all(zstd_decoded(offsets_bytes@).unwrap())));
        let mut result: Vec<i64> = Vec::new();
        let mut i: usize = 0;
        while i < m.len()
            invariant
                m@ == mv,
                offsets@ == ov,
                mv.len() == ov.len(),
                forall|i: int| 0 <= i < mv.len() ==> fits_i64(#[trigger] mv[i] - ov[i]),
                i <= mv.len(),
                result@ == Seq::new(i as nat, |j: int| (mv[j] - ov[j]) as i64),
            decreases mv.len() - i,
        {
            assert(fits_i64(mv[i as int] - ov[i as int]));
            result.push(m[i] - offsets[i]);
            assert(result@ =~= Seq::new((i + 1) as nat, |j: int| (mv[j] - ov[j]) as i64));
            i += 1;
        }
        result
    }
}

/// The repair: each value raised by the running offset, and the offset
/// grown wherever that falls below the previous raised value.
fn repair(source: &Vec<i64>) -> (res: (Vec<i64>, Vec<i64>))
    requires
        repair_fits(source@),
    ensures
        res.0@ == repaired(source@),
        res.1@ == as_i64_seq(repair_run(source@).1),
        i64s(res.1@) == repair_run(source@).1,
        res.1@.len() == source@.len(),
        forall|k: int| 0 <= k < source@.len() ==> 0 <= #[trigger] delta_at(i64s(res.1@), k) <= i64::MAX,
{
    let mut m: Vec<i64> = Vec::new();
    let mut offsets: Vec<i64> = Vec::new();
    let mut current_offset: i64 = 0;
    let mut prev_m: i64 = i64::MIN;
    let mut i: usize = 0;
    while i < source.len()
        invariant
            i <= source@.len(),
            repair_fits(source@.take(i as int)),
            repair_fits(source@),
            ({
                let (rm, ro, c, p) = repair_run(source@.take(i as int));
                &&& m@ == as_i64_seq(rm)
                &&& offsets@ == as_i64_seq(ro)
                &&& i64s(offsets@) == ro
                &&& current_offset == c
                &&& prev_m == p
                &&& rm.len() == i
                &&& ro.len() == i
            }),
            current_offset >= 0,
            forall|k: int| 0 <= k < i ==> 0 <= #[trigger] delta_at(i64s(offsets@), k) <= i64::MAX,
            i > 0 ==> offsets@[i - 1] == current_offset,
        decreases source@.len() - i,
    {
        proof {
            lemma_repair_fits_prefix(source@, (i + 1) as int);
            assert(source@.take(i + 1).drop_last() == source@.take(i as int));
        }
        let t = source[i];
        let mut val = t + current_offset;
        if val < prev_m {
            let diff = prev_m - val;
            current_offset = current_offset + diff;
            val = prev_m;
        }
        let ghost o0 = offsets@;
        m.push(val);
        offsets.push(current_offset);
        proof {
            assert forall|k: int| 0 <= k < i + 1 implies 0 <= #[trigger] delta_at(i64s(offsets@), k) <= i64::MAX by {
                if k < i {
                    assert(delta_at(i64s(offsets@), k) == delta_at(i64s(o0), k));
                }
            }
        }
        prev_m = val;
        i += 1;
        proof {
            let (rm, ro, c, p) = repair_run(source@.take(i as int));
            assert(m@ =~= as_i64_seq(rm));
            assert(offsets@ =~= as_i64_seq(ro));
            assert(i64s(offsets@) =~= ro);
        }
    }
    assert(source@.take(source@.len() as int) == source@);
    (m, offsets)
}

/// A prefix of a sequence that repairs within 64 bits does too.
pub proof fn lemma_repair_fits_prefix(s: Seq<i64>, k: int)
    requires
        repair_fits(s),
        0 <= k <= s.len(),
    ensures
        repair_fits(s.take(k)),
    decreases s.len() - k,
{
    if k < s.len() {
        lemma_repair_fits_prefix(s, k + 1);
        assert(s.take(k + 1).drop_last() == s.take(k));
    } else {
        assert(s.take(k) == s);
    }
}

/// The parts of a frame that the permutation coder wrote.
#[verifier::spinoff_prover]
#[verifier::rlimit(40)]
proof fn lemma_perm_frame(s: Seq<i64>, r: Seq<u8>) -> (parts: (Seq<u8>, Seq<u8>))
    requires
        s.len() > 0,
        r.len() <= usize::MAX,
        perm_output(s, r),
    ensures
        ans_u64_output(histogram(u64s_as_i64(perm_sorted(s))), parts.0),
        zstd_output(perm_moves_bytes(permutation_moves(perm_offsets(s))), parts.1),
        r.len() >= 8,
        from_le_u64(r, 0) as i64 == min_i64(s),
        vint_part(r, 8) is Some,
        vint_part(r, 8).unwrap().0 == parts.0,
        vint_part(r, vint_part(r, 8).unwrap().1) is Some,
        vint_part(r, vint_part(r, 8).unwrap().1).unwrap().0 == parts.1,
        parts.0.len() <= r.len(),
        parts.1.len() <= r.len(),
{
    let min = min_i64(s);
    let ms = permutation_moves(perm_offsets(s));
    let hist = histogram(u64s_as_i64(perm_sorted(s)));
    let (sb, mc) = choose|sb: Seq<u8>, mc: Seq<u8>|
        {
            &&& #[trigger] ans_u64_output(hist, sb)
            &&& #[trigger] zstd_output(perm_moves_bytes(ms), mc)
            &&& r == le_u64(min as u64) + vint_bytes(sb.len() as u64) + sb + vint_bytes(mc.len() as u64) + mc
        };
    let head = le_u64(min as u64);
    let tail = vint_bytes(sb.len() as u64) + sb + vint_bytes(mc.len() as u64) + mc;
    assert(r =~= head + tail);
    crate::bytes::lemma_le_u64_roundtrip(min as u64, tail);
    crate::bitops::lemma_i64_u64_roundtrip(min);
    let t2 = vint_bytes(mc.len() as u64) + mc;
    assert(r =~= head + vint_bytes(sb.len() as u64) + sb + t2);
    crate::vint::lemma_vint_part_at(head, sb, t2);
    let p2 = head + vint_bytes(sb.len() as u64) + sb;
    assert(r =~= p2 + vint_bytes(mc.len() as u64) + mc + Seq::<u8>::empty());
    crate::vint::lemma_vint_part_at(p2, mc, Seq::empty());
    (sb, mc)
}

/// Undoing the moves on the sorted offsets and shifting them back gives the
/// values.
pub(crate) proof fn lemma_perm_restore(s: Seq<i64>)
    requires
        0 < s.len() <= u32::MAX,
        forall|i: int| 0 <= i < s.len() ==> #[trigger] s[i] - min_i64(s) <= i64::MAX,
    ensures
        perm_restore(i64s_as_u64(u64s_as_i64(perm_sorted(s))), permutation_moves(perm_offsets(s)), min_i64(s))
            == Some(s),
{
    let min = min_i64(s);
    let off = perm_offsets(s);
    let ms = permutation_moves(off);
    let sorted = perm_sorted(s);
    let si = u64s_as_i64(sorted);
    crate::algo::lemma_moves_bounds(off);
    assert forall|i: int| 0 <= i < sorted.len() implies (#[trigger] si[i] as u64) == sorted[i] by {
        crate::bitops::lemma_u64_i64_roundtrip(sorted[i]);
    }
    assert(i64s_as_u64(si) =~= sorted);
    crate::algo::law_restore_identify(off);
    crate::algo::lemma_apply_len(off, move_actions(ms, 1));
    assert(sorted.len() == off.len());
    assert(undo_actions(sorted, move_actions(ms, 1)) == off);
    lemma_min_i64(s);
    assert forall|i: int| 0 <= i < off.len() implies (#[trigger] off[i] as i64) + min == s[i] by {
        assert(s[i] - min <= i64::MAX);
    }
    assert(shift_back(off, min) == Some(s)) by {
        assert(Seq::new(off.len(), |i: int| ((off[i] as i64) + min) as i64) =~= s);
    }
}

/// The values decode from what the permutation coder wrote, where the
/// histogram of the sorted offsets has at most 4096 entries (the rank
/// table then fills the scale).
pub proof fn law_perm_short_roundtrip(s: Seq<i64>, r: Seq<u8>)
    requires
        0 < s.len() <= u32::MAX,
        r.len() <= usize::MAX,
        perm_accepts(s),
        perm_output(s, r),
        histogram(u64s_as_i64(perm_sorted(s))).len() <= 4096,
        u64s_as_i64(perm_sorted(s)).last() < i64::MAX,
    ensures
        perm_unframe(r) == Some(s),
{
    let ms = permutation_moves(perm_offsets(s));
    let si = u64s_as_i64(perm_sorted(s));
    crate::algo::law_restore_identify(perm_offsets(s));
    crate::algo::lemma_apply_len(perm_offsets(s), move_actions(ms, 1));
    assert(si.len() == s.len());
    crate::ans::lemma_ans_u64_short(histogram(si));
    law_perm_roundtrip(s, r);
}

/// The values decode from what the permutation coder wrote, where at most
/// 64 distinct numbers occur in the histogram of the sorted offsets (the
/// rank table then fills the scale).
pub proof fn law_perm_few_roundtrip(s: Seq<i64>, r: Seq<u8>)
    requires
        0 < s.len() <= u32::MAX,
        r.len() <= usize::MAX,
        perm_accepts(s),
        perm_output(s, r),
        histogram(u64s_as_i64(perm_sorted(s))).len() < u32::MAX,
        histogram(u64s_as_i64(perm_sorted(s))).to_set().len() <= 64,
        u64s_as_i64(perm_sorted(s)).last() < i64::MAX,
    ensures
        perm_unframe(r) == Some(s),
{
    let ms = permutation_moves(perm_offsets(s));
    let si = u64s_as_i64(perm_sorted(s));
    crate::algo::law_restore_identify(perm_offsets(s));
    crate::algo::lemma_apply_len(perm_offsets(s), move_actions(ms, 1));
    assert(si.len() == s.len());
    crate::ans::lemma_ans_u64_few(histogram(si));
    law_perm_roundtrip(s, r);
}

/// The values decode from what the permutation coder wrote, where the
/// histogram of the sorted offsets fits the coders.
pub proof fn law_perm_roundtrip(s: Seq<i64>, r: Seq<u8>)
    requires
        0 < s.len() <= u32::MAX,
        r.len() <= usize::MAX,
        perm_accepts(s),
        perm_output(s, r),
        histogram(u64s_as_i64(perm_sorted(s))).len() <= u32::MAX,
        u64s_as_i64(perm_sorted(s)).last() < i64::MAX,
        ans_u64_complete(histogram(u64s_as_i64(perm_sorted(s)))),
    ensures
        perm_unframe(r) == Some(s),
{
    let ms = permutation_moves(perm_offsets(s));
    let si = u64s_as_i64(perm_sorted(s));
    let hist = histogram(si);
    let (sb, mc) = lemma_perm_frame(s, r);
    crate::algo::law_restore_identify(perm_offsets(s));
    crate::algo::lemma_apply_len(perm_offsets(s), move_actions(ms, 1));
    assert(si.len() == s.len());
    law_ans_u64_output_roundtrip(hist, sb);
    law_histogram_roundtrip(si);
    assert(histogram_expand(hist) == si);
    crate::algo::lemma_moves_bounds(perm_offsets(s));
    lemma_moves_parse(ms);
    lemma_perm_restore(s);
}

/// The repair raises each value by its offset, the offsets start at zero
/// and only grow, each step by an amount that fits, and every raised value
/// and offset fits where the repair does.
proof fn lemma_repair_run(s: Seq<i64>)
    ensures
        repair_run(s).0.len() == s.len(),
        repair_run(s).1.len() == s.len(),
        forall|i: int| 0 <= i < s.len() ==> #[trigger] repair_run(s).0[i] - repair_run(s).1[i] == s[i],
        s.len() > 0 ==> repair_run(s).1[0] == 0,
        forall|i: int|
            0 < i < s.len() ==> 0 <= #[trigger] repair_run(s).1[i] - repair_run(s).1[i - 1],
        s.len() > 0 ==> repair_run(s).2 == repair_run(s).1.last() && repair_run(s).3 == repair_run(s).0.last(),
        s.len() == 0 ==> repair_run(s).2 == 0 && repair_run(s).3 == i64::MIN,
        repair_fits(s) ==> {
            &&& forall|i: int| 0 <= i < s.len() ==> fits_i64(#[trigger] repair_run(s).0[i])
            &&& forall|i: int| 0 <= i < s.len() ==> fits_i64(#[trigger] repair_run(s).1[i])
            &&& forall|i: int|
                0 < i < s.len() ==> #[trigger] repair_run(s).1[i] - repair_run(s).1[i - 1] <= i64::MAX
        },
    decreases s.len(),
{
    if s.len() > 0 {
        let t = s.drop_last();
        lemma_repair_run(t);
        let (m, o, c, p) = repair_run(t);
        let (m2, o2, c2, p2) = repair_run(s);
        let k = s.len() - 1;
        assert forall|i: int| 0 <= i < k implies s[i] == t[i] by {}
        assert forall|i: int| 0 <= i < k implies m2[i] == m[i] && o2[i] == o[i] by {}
        if repair_fits(s) {
            assert(repair_fits(t));
        }
    }
}

/// What the repair coder wrote for non-empty values: the compressed
/// histogram of the raised values and the compressed offset differences,
/// each after its length.
pub open spec fn repair_output(s: Seq<i64>, r: Seq<u8>) -> bool {
    exists|mb: Seq<u8>, ob: Seq<u8>|
        {
            &&& #[trigger] zstd_output(vint_encode_all(histogram(repaired(s))), mb)
            &&& #[trigger] zstd_output(vint_encode_all(repair_offset_deltas(s)), ob)
            &&& r == vint_bytes(mb.len() as u64) + mb + vint_bytes(ob.len() as u64) + ob
        }
}

/// Decoding what the repair coder wrote gives the values back, where the
/// raised values fit the histogram.
pub proof fn law_repair_roundtrip(s: Seq<i64>, r: Seq<u8>)
    requires
        0 < s.len() <= u32::MAX,
        r.len() <= usize::MAX,
        repair_fits(s),
        histogram_accepts(repaired(s)),
        repaired(s).last() < i64::MAX,
        repair_output(s, r),
    ensures
        repair_unframe(r) == Some(s),
{
    let hist = histogram(repaired(s));
    let deltas = repair_offset_deltas(s);
    let (mb, ob) = choose|mb: Seq<u8>, ob: Seq<u8>|
        {
            &&& #[trigger] zstd_output(vint_encode_all(hist), mb)
            &&& #[trigger] zstd_output(vint_encode_all(deltas), ob)
            &&& r == vint_bytes(mb.len() as u64) + mb + vint_bytes(ob.len() as u64) + ob
        };
    let t1 = vint_bytes(ob.len() as u64) + ob;
    assert(r =~= Seq::<u8>::empty() + vint_bytes(mb.len() as u64) + mb + t1);
    crate::vint::lemma_vint_part_at(Seq::empty(), mb, t1);
    let p1 = vint_bytes(mb.len() as u64) + mb;
    assert(r =~= p1 + vint_bytes(ob.len() as u64) + ob + Seq::<u8>::empty());
    crate::vint::lemma_vint_part_at(p1, ob, Seq::empty());
    crate::bijection::law_vint_roundtrip(hist);
    crate::bijection::law_vint_roundtrip(deltas);
    assert(zstd_vints(mb) == Some(hist));
    assert(zstd_vints(ob) == Some(deltas));
    lemma_repair_run(s);
    let (mr, orr, c, p) = repair_run(s);
    assert(repaired(s).len() == s.len());
    law_histogram_roundtrip(repaired(s));
    let offs = as_i64_seq(orr);
    assert(i64s(offs) =~= orr);
    assert forall|i: int| 0 <= i < offs.len() implies 0 <= #[trigger] delta_at(i64s(offs), i) <= i64::MAX by {
        if i > 0 {
            assert(orr[i] - orr[i - 1] <= i64::MAX);
        }
    }
    crate::bijection::law_positive_delta_roundtrip(offs);
    assert(deltas =~= Seq::new(offs.len(), |k: int| delta_at(i64s(offs), k) as u64));
    let m = histogram_expand(hist);
    let off = delta_sums(deltas);
    assert(m =~= as_i64_seq(mr));
    assert(off =~= offs);
    assert forall|i: int| 0 <= i < m.len() implies fits_i64(#[trigger] m[i] - off[i]) by {
        assert(m[i] == mr[i] && off[i] == orr[i]);
    }
    assert(Seq::new(m.len(), |i: int| (m[i] - off[i]) as i64) =~= s);
}

/// The sorted offsets of creation times are sorted, as many as the times,
/// each within the spread of the times.
proof fn lemma_perm_sorted_facts(s: Seq<i64>, spread: int)
    requires
        0 < s.len() <= usize::MAX,
        0 <= spread <= i64::MAX,
        forall|i: int, j: int| 0 <= i < s.len() && 0 <= j < s.len() ==> s[i] - s[j] <= spread,
    ensures
        forall|i: int| 0 <= i < s.len() ==> #[trigger] s[i] - min_i64(s) <= i64::MAX,
        u64s_as_i64(perm_sorted(s)).len() == s.len(),
        crate::histogram::sorted_i64(u64s_as_i64(perm_sorted(s))),
        forall|k: int| 0 <= k < s.len() ==> 0 <= #[trigger] u64s_as_i64(perm_sorted(s))[k] <= spread,
{
    lemma_min_i64(s);
    let mi = choose|i: int| 0 <= i < s.len() && min_i64(s) == s[i];
    let off = perm_offsets(s);
    assert forall|i: int| 0 <= i < s.len() implies 0 <= #[trigger] off[i] <= spread by {
        assert(s[i] - s[mi] <= spread);
    }
    crate::algo::law_moves_sort(off);
    let ps = perm_sorted(s);
    assert forall|k: int| 0 <= k < ps.len() implies #[trigger] ps[k] <= spread by {
        assert(ps.contains(ps[k]));
        assert(off.contains(ps[k]));
    }
    let si = u64s_as_i64(ps);
    assert forall|k: int| 0 <= k < si.len() implies 0 <= #[trigger] si[k] <= spread by {
        assert(ps[k] <= spread);
    }
    assert forall|a: int, b: int| 0 <= a <= b < si.len() implies si[a] <= si[b] by {
        assert(ps[a] <= ps[b]);
    }
}

/// Creation times within 4095 seconds of each other, fewer than 2^32 of
/// them, are taken by the permutation coder: one GH Archive hour always is,
/// so `MonotonicPermutationBijection::try_apply` gives `Some` on it.
pub proof fn law_perm_hour_accepted(s: Seq<i64>)
    requires
        s.len() <= u32::MAX,
        forall|i: int, j: int| 0 <= i < s.len() && 0 <= j < s.len() ==> s[i] - s[j] <= 4094,
    ensures
        perm_accepts(s),
{
    if s.len() > 0 {
        lemma_perm_sorted_facts(s, 4094);
        let si = u64s_as_i64(perm_sorted(s));
        assert(si.last() - si[0] < 50_000_000);
        crate::histogram::law_histogram_span_accepted(si);
        let h = histogram(si);
        assert(h.len() == 1 + (si.last() - si[0] + 1));
        crate::ans::lemma_ans_u64_short(h);
    }
}

/// Creation times spread over less than fifty million seconds, fewer than
/// 2^32 of them, are taken by the permutation coder wherever at most 64
/// distinct numbers occur in their histogram.
pub proof fn law_perm_span_accepted(s: Seq<i64>)
    requires
        s.len() <= u32::MAX,
        forall|i: int, j: int| 0 <= i < s.len() && 0 <= j < s.len() ==> s[i] - s[j] < 50_000_000,
        s.len() > 0 ==> histogram(u64s_as_i64(perm_sorted(s))).to_set().len() <= 64,
    ensures
        perm_accepts(s),
{
    if s.len() > 0 {
        lemma_perm_sorted_facts(s, 49_999_999);
        let si = u64s_as_i64(perm_sorted(s));
        crate::histogram::law_histogram_span_accepted(si);
        let h = histogram(si);
        assert(h.len() == 1 + (si.last() - si[0] + 1));
        crate::ans::lemma_ans_u64_few(h);
    }
}

} // verus!
