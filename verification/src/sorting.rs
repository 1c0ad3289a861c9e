//! Sorting, deduplication and search over 64-bit values.
use vstd::prelude::*;

verus! {

pub open spec fn sorted_u64(s: Seq<u64>) -> bool {
    forall|i: int, j: int| 0 <= i <= j < s.len() ==> s[i] <= s[j]
}

pub open spec fn strictly_increasing(s: Seq<u64>) -> bool {
    forall|i: int, j: int| 0 <= i < j < s.len() ==> s[i] < s[j]
}

/// `u` lists the distinct values of `s` in increasing order.
pub open spec fn is_dictionary_of(u: Seq<u64>, s: Seq<u64>) -> bool {
    &&& strictly_increasing(u)
    &&& forall|v: u64| u.contains(v) <==> s.contains(v)
}

/// Two increasing sequences of the same values are the same.
pub proof fn lemma_increasing_unique(a: Seq<u64>, b: Seq<u64>)
    requires
        strictly_increasing(a),
        strictly_increasing(b),
        forall|v: u64| a.contains(v) <==> b.contains(v),
    ensures
        a == b,
    decreases a.len() + b.len(),
{
    if a.len() == 0 || b.len() == 0 {
        if a.len() > 0 {
            assert(a.contains(a[0]));
        }
        if b.len() > 0 {
            assert(b.contains(b[0]));
        }
        assert(a =~= b);
    } else {
        assert(a.contains(a[0]) && b.contains(b[0]));
        let i = choose|i: int| 0 <= i < b.len() && b[i] == a[0];
        let j = choose|j: int| 0 <= j < a.len() && a[j] == b[0];
        if i > 0 {
            assert(b[0] < b[i]);
            if j > 0 {
                assert(a[0] < a[j]);
            }
        }
        assert(a[0] == b[0]);
        let ra = a.drop_first();
        let rb = b.drop_first();
        assert forall|v: u64| ra.contains(v) <==> rb.contains(v) by {
            if ra.contains(v) {
                let k = choose|k: int| 0 <= k < ra.len() && ra[k] == v;
                assert(a[k + 1] == v && a[0] < v);
                assert(b.contains(v));
                let m = choose|m: int| 0 <= m < b.len() && b[m] == v;
                assert(m != 0);
                assert(rb[m - 1] == v);
            }
            if rb.contains(v) {
                let k = choose|k: int| 0 <= k < rb.len() && rb[k] == v;
                assert(b[k + 1] == v && b[0] < v);
                assert(a.contains(v));
                let m = choose|m: int| 0 <= m < a.len() && a[m] == v;
                assert(m != 0);
                assert(ra[m - 1] == v);
            }
        }
        lemma_increasing_unique(ra, rb);
        assert forall|k: int| 0 <= k < a.len() implies a[k] == b[k] by {
            if k > 0 {
                assert(a[k] == ra[k - 1] && b[k] == rb[k - 1]);
            }
        }
        assert(a.len() == b.len());
        assert(a =~= b);
    }
}

/// A sequence has one dictionary.
pub proof fn lemma_dictionary_unique(u1: Seq<u64>, u2: Seq<u64>, s: Seq<u64>)
    requires
        is_dictionary_of(u1, s),
        is_dictionary_of(u2, s),
    ensures
        u1 == u2,
{
    lemma_increasing_unique(u1, u2);
}

/// Calls `sort` on the slice of `v`. Claims what std documents of it: the
/// elements come out in non-decreasing order and are the same elements.
#[verifier::external_body]
fn sort_values(v: &mut Vec<u64>)
    ensures
        sorted_u64(final(v)@),
        final(v)@.to_multiset() == old(v)@.to_multiset(),
{
    v.sort();
}

/// The distinct values of `values`, in increasing order.
pub fn sorted_distinct(values: &Vec<u64>) -> (unique: Vec<u64>)
    ensures
        is_dictionary_of(unique@, values@),
{
    let mut sorted = values.clone();
    assert(sorted@ == values@);
    sort_values(&mut sorted);
    proof {
        broadcast use vstd::seq_lib::group_to_multiset_ensures;
        assert forall|v: u64| sorted@.contains(v) <==> values@.contains(v) by {
            assert(sorted@.contains(v) <==> sorted@.to_multiset().count(v) > 0);
            assert(values@.contains(v) <==> values@.to_multiset().count(v) > 0);
        }
    }
    let mut unique: Vec<u64> = Vec::new();
    let mut i: usize = 0;
    while i < sorted.len()
        invariant
            i <= sorted@.len(),
            sorted_u64(sorted@),
            strictly_increasing(unique@),
            i > 0 ==> unique@.len() > 0 && unique@.last() == sorted@[i - 1],
            i == 0 ==> unique@.len() == 0,
            forall|v: u64| unique@.contains(v) <==> sorted@.take(i as int).contains(v),
        decreases sorted@.len() - i,
    {
        let v = sorted[i];
        let ghost before = unique@;
        if i == 0 || v != unique[unique.len() - 1] {
            unique.push(v);
            proof {
                assert forall|a: int, b: int| 0 <= a < b < unique@.len() implies unique@[a] < unique@[b] by {
                    if b == unique@.len() - 1 && a < b {
                        assert(before[a] <= before.last());
                        assert(sorted@[i - 1] <= v);
                    }
                }
            }
        }
        proof {
            assert(sorted@.take(i + 1) == sorted@.take(i as int).push(v));
            assert forall|w: u64| unique@.contains(w) <==> sorted@.take(i + 1).contains(w) by {
                if unique@.contains(w) {
                    let k = choose|k: int| 0 <= k < unique@.len() && unique@[k] == w;
                    if k < before.len() {
                        assert(before.contains(w));
                        let j = choose|j: int| 0 <= j < i && #[trigger] sorted@.take(i as int)[j] == w;
                        assert(sorted@.take(i + 1)[j] == w);
                    } else {
                        assert(sorted@.take(i + 1)[i as int] == w);
                    }
                }
                if sorted@.take(i + 1).contains(w) {
                    let j = choose|j: int| 0 <= j < i + 1 && #[trigger] sorted@.take(i + 1)[j] == w;
                    if j < i {
                        assert(sorted@.take(i as int)[j] == w);
                        assert(before.contains(w));
                        let k = choose|k: int| 0 <= k < before.len() && before[k] == w;
                        assert(unique@[k] == w);
                    } else {
                        assert(unique@.last() == w);
                        assert(unique@[unique@.len() - 1] == w);
                    }
                }
            }
        }
        i += 1;
    }
    assert(sorted@.take(sorted@.len() as int) == sorted@);
    unique
}

/// The position of `v` in the strictly increasing `u`, where it occurs.
pub fn position_of(u: &Vec<u64>, v: u64) -> (r: usize)
    requires
        strictly_increasing(u@),
        u@.contains(v),
    ensures
        r < u@.len(),
        u@[r as int] == v,
{
    let mut lo: usize = 0;
    let mut hi: usize = u.len();
    while lo + 1 < hi
        invariant
            strictly_increasing(u@),
            u@.contains(v),
            0 <= lo < hi <= u@.len(),
            u@[lo as int] <= v,
            forall|k: int| 0 <= k < u@.len() && u@[k] == v ==> lo <= k < hi,
        decreases hi - lo,
    {
        let mid = lo + (hi - lo) / 2;
        if u[mid] <= v {
            lo = mid;
        } else {
            hi = mid;
        }
    }
    proof {
        let k = choose|k: int| 0 <= k < u@.len() && u@[k] == v;
        assert(lo <= k < hi);
    }
    lo
}

} // verus!
