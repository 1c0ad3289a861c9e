//! Events turned into columns: the repositories and event types each
//! replaced by an index into a sorted dictionary of the distinct ones.
use crate::bijection::Bijection;
use crate::order::{
    bytes_lt, compare_bytes, compare_key_parts, key_lt, lemma_key_of_bytes, lemma_bytes_lt_irreflexive, lemma_bytes_lt_total,
    lemma_bytes_lt_trans, lemma_key_lt_irreflexive, lemma_key_lt_total, lemma_key_lt_trans, RepoKey,
};
use vstd::prelude::*;
use vstd::utf8::{encode_utf8, encode_utf8_decode_utf8};

verus! {

/// One event with its fields parsed.
#[derive(Debug, Clone)]
pub struct ParsedEvent {
    pub id: i64,
    pub event_type: String,
    pub repo_id: u64,
    pub repo_owner: String,
    pub repo_suffix: String,
    pub created_at: i64,
}

/// The fields of an event, its strings as characters.
pub type EventRow = (i64, Seq<char>, u64, Seq<char>, Seq<char>, i64);

pub open spec fn event_row(e: ParsedEvent) -> EventRow {
    (e.id, e.event_type@, e.repo_id, e.repo_owner@, e.repo_suffix@, e.created_at)
}

/// The bytes of a string.
pub open spec fn str_bytes(s: String) -> Seq<u8> {
    encode_utf8(s@)
}

/// The repository an event names.
pub open spec fn key_of(e: ParsedEvent) -> RepoKey {
    (e.repo_id, str_bytes(e.repo_owner), str_bytes(e.repo_suffix))
}

pub open spec fn tuple_key(t: (u64, String, String)) -> RepoKey {
    (t.0, str_bytes(t.1), str_bytes(t.2))
}

/// The events as columns, with dictionaries for repositories and types.
pub struct ColumnarEvents {
    pub event_ids: Vec<i64>,
    pub event_type_indices: Vec<u8>,
    pub dict_event_types: Vec<String>,
    pub created_ats: Vec<i64>,
    pub repo_indices: Vec<u64>,
    pub dict_repo_ids: Vec<u64>,
    pub dict_repo_owners: Vec<String>,
    pub dict_repo_suffixes: Vec<String>,
}

impl Default for ColumnarEvents {
    fn default() -> (c: Self)
        ensures
            c.event_ids@.len() == 0,
            c.event_type_indices@.len() == 0,
            c.dict_event_types@.len() == 0,
            c.created_ats@.len() == 0,
            c.repo_indices@.len() == 0,
            c.dict_repo_ids@.len() == 0,
            c.dict_repo_owners@.len() == 0,
            c.dict_repo_suffixes@.len() == 0,
    {
        ColumnarEvents {
            event_ids: Vec::new(),
            event_type_indices: Vec::new(),
            dict_event_types: Vec::new(),
            created_ats: Vec::new(),
            repo_indices: Vec::new(),
            dict_repo_ids: Vec::new(),
            dict_repo_owners: Vec::new(),
            dict_repo_suffixes: Vec::new(),
        }
    }
}

/// The repository dictionary as keys.
pub open spec fn repo_dict(c: ColumnarEvents) -> Seq<RepoKey> {
    Seq::new(
        c.dict_repo_ids@.len(),
        |i: int| (c.dict_repo_ids@[i], str_bytes(c.dict_repo_owners@[i]), str_bytes(c.dict_repo_suffixes@[i])),
    )
}

/// The type dictionary as bytes.
pub open spec fn type_dict(c: ColumnarEvents) -> Seq<Seq<u8>> {
    c.dict_event_types@.map_values(|s: String| str_bytes(s))
}

/// Some event names the repository `key`.
#[verifier::opaque]
pub open spec fn repo_of_some(es: Seq<ParsedEvent>, key: RepoKey) -> bool {
    exists|k: int| 0 <= k < es.len() && key_of(es[k]) == key
}

/// Some event has the type `t`.
#[verifier::opaque]
pub open spec fn type_of_some(es: Seq<ParsedEvent>, t: Seq<u8>) -> bool {
    exists|k: int| 0 <= k < es.len() && str_bytes(es[k].event_type) == t
}

/// `x` occurs in `d`.
#[verifier::opaque]
pub open spec fn listed<T>(d: Seq<T>, x: T) -> bool {
    exists|i: int| 0 <= i < d.len() && d[i] == x
}

/// `d` is strictly increasing and holds exactly the repositories of `es`.
pub open spec fn is_repo_dictionary(d: Seq<RepoKey>, es: Seq<ParsedEvent>) -> bool {
    &&& forall|i: int, j: int| 0 <= i < j < d.len() ==> key_lt(#[trigger] d[i], #[trigger] d[j])
    &&& forall|i: int| 0 <= i < d.len() ==> #[trigger] repo_of_some(es, d[i])
    &&& forall|k: int| 0 <= k < es.len() ==> #[trigger] listed(d, key_of(es[k]))
}

/// `d` is strictly increasing and holds exactly the event types of `es`.
pub open spec fn is_type_dictionary(d: Seq<Seq<u8>>, es: Seq<ParsedEvent>) -> bool {
    &&& forall|i: int, j: int| 0 <= i < j < d.len() ==> bytes_lt(#[trigger] d[i], #[trigger] d[j])
    &&& forall|i: int| 0 <= i < d.len() ==> #[trigger] type_of_some(es, d[i])
    &&& forall|k: int| 0 <= k < es.len() ==> #[trigger] listed(d, str_bytes(es[k].event_type))
}

/// `c` holds the events `es` as columns: ids and times as they are, each
/// repository and type as its index in its sorted dictionary.
pub open spec fn columns_of(es: Seq<ParsedEvent>, c: ColumnarEvents) -> bool {
    &&& c.event_ids@ == es.map_values(|e: ParsedEvent| e.id)
    &&& c.created_ats@ == es.map_values(|e: ParsedEvent| e.created_at)
    &&& c.dict_repo_owners@.len() == c.dict_repo_ids@.len()
    &&& c.dict_repo_suffixes@.len() == c.dict_repo_ids@.len()
    &&& is_repo_dictionary(repo_dict(c), es)
    &&& is_type_dictionary(type_dict(c), es)
    &&& c.repo_indices@.len() == es.len()
    &&& c.event_type_indices@.len() == es.len()
    &&& forall|k: int|
        0 <= k < es.len() ==> {
            &&& #[trigger] c.repo_indices@[k] < repo_dict(c).len()
            &&& repo_dict(c)[c.repo_indices@[k] as int] == key_of(es[k])
            &&& c.event_type_indices@[k] < type_dict(c).len()
            &&& type_dict(c)[c.event_type_indices@[k] as int] == str_bytes(es[k].event_type)
        }
}

/// Columns that can be turned back into events: each index points into its
/// dictionary and every column is as long as the ids.
pub open spec fn columns_readable(c: ColumnarEvents) -> bool {
    let n = c.event_ids@.len();
    &&& c.event_type_indices@.len() >= n
    &&& c.created_ats@.len() >= n
    &&& c.repo_indices@.len() >= n
    &&& forall|i: int|
        0 <= i < n ==> {
            &&& (#[trigger] c.event_type_indices@[i]) < c.dict_event_types@.len()
            &&& c.repo_indices@[i] < c.dict_repo_ids@.len()
            &&& c.repo_indices@[i] < c.dict_repo_owners@.len()
            &&& c.repo_indices@[i] < c.dict_repo_suffixes@.len()
        }
}

/// Whether the columns can be turned back into events.
pub fn readable(c: &ColumnarEvents) -> (b: bool)
    ensures
        b == columns_readable(*c),
{
    let n = c.event_ids.len();
    if c.event_type_indices.len() < n || c.created_ats.len() < n || c.repo_indices.len() < n {
        return false;
    }
    let mut i: usize = 0;
    while i < n
        invariant
            n == c.event_ids@.len(),
            i <= n,
            c.event_type_indices@.len() >= n,
            c.repo_indices@.len() >= n,
            forall|k: int|
                0 <= k < i ==> {
                    &&& (#[trigger] c.event_type_indices@[k]) < c.dict_event_types@.len()
                    &&& c.repo_indices@[k] < c.dict_repo_ids@.len()
                    &&& c.repo_indices@[k] < c.dict_repo_owners@.len()
                    &&& c.repo_indices@[k] < c.dict_repo_suffixes@.len()
                },
        decreases n - i,
    {
        let t = c.event_type_indices[i] as usize;
        let r = c.repo_indices[i];
        if t >= c.dict_event_types.len() || r >= c.dict_repo_ids.len() as u64
            || r >= c.dict_repo_owners.len() as u64 || r >= c.dict_repo_suffixes.len() as u64 {
            return false;
        }
        i += 1;
    }
    true
}

/// The rows that the columns spell.
pub open spec fn column_rows(c: ColumnarEvents) -> Seq<EventRow> {
    Seq::new(
        c.event_ids@.len(),
        |i: int|
            {
                let t = c.event_type_indices@[i] as int;
                let r = c.repo_indices@[i] as int;
                (
                    c.event_ids@[i],
                    c.dict_event_types@[t]@,
                    c.dict_repo_ids@[r],
                    c.dict_repo_owners@[r]@,
                    c.dict_repo_suffixes@[r]@,
                    c.created_ats@[i],
                )
            },
    )
}

/// Calls `sort` on the vector. Claims what std documents of it: the same
/// elements come out, ordered by id, then owner, then the rest of the name,
/// strings ordered by their bytes.
#[verifier::external_body]
fn sort_repo_keys(v: &mut Vec<(u64, String, String)>)
    ensures
        final(v)@.to_multiset() == old(v)@.to_multiset(),
        forall|i: int, j: int|
            0 <= i < j < final(v)@.len() ==> !key_lt(
                tuple_key(#[trigger] final(v)@[j]),
                tuple_key(#[trigger] final(v)@[i]),
            ),
{
    v.sort();
}

/// Calls `sort` on the vector. Claims what std documents of it: the same
/// strings come out, ordered by their bytes.
#[verifier::external_body]
fn sort_strings(v: &mut Vec<String>)
    ensures
        final(v)@.to_multiset() == old(v)@.to_multiset(),
        forall|i: int, j: int|
            0 <= i < j < final(v)@.len() ==> !bytes_lt(
                str_bytes(#[trigger] final(v)@[j]),
                str_bytes(#[trigger] final(v)@[i]),
            ),
{
    v.sort();
}

/// Compares two repository keys.
fn compare_keys(a: &(u64, String, String), b: (u64, &String, &String)) -> (c: i8)
    ensures
        c == 0 <==> tuple_key(*a) == (b.0, str_bytes(*b.1), str_bytes(*b.2)),
        c < 0 <==> key_lt(tuple_key(*a), (b.0, str_bytes(*b.1), str_bytes(*b.2))),
        c > 0 <==> key_lt((b.0, str_bytes(*b.1), str_bytes(*b.2)), tuple_key(*a)),
{
    compare_key_parts(
        a.0,
        a.1.as_str().as_bytes(),
        a.2.as_str().as_bytes(),
        b.0,
        b.1.as_str().as_bytes(),
        b.2.as_str().as_bytes(),
    )
}

/// No key comes before an earlier one.
pub open spec fn keys_sorted(sk: Seq<RepoKey>) -> bool {
    forall|i: int, j: int| 0 <= i < j < sk.len() ==> !key_lt(#[trigger] sk[j], #[trigger] sk[i])
}

/// Each key comes strictly before the later ones.
pub open spec fn keys_strict(d: Seq<RepoKey>) -> bool {
    forall|i: int, j: int| 0 <= i < j < d.len() ==> key_lt(#[trigger] d[i], #[trigger] d[j])
}

/// `d` holds, strictly increasing, the distinct keys of `sk[..pos]`, the
/// last of them last; `src` gives where each kept key was found, `dst`
/// where each key of `sk[..pos]` was kept.
pub open spec fn dedup_inv(sk: Seq<RepoKey>, d: Seq<RepoKey>, pos: int, src: Seq<int>, dst: Seq<int>) -> bool {
    &&& 0 <= pos <= sk.len()
    &&& keys_sorted(sk)
    &&& keys_strict(d)
    &&& src.len() == d.len()
    &&& dst.len() == pos
    &&& forall|i: int| 0 <= i < d.len() ==> 0 <= #[trigger] src[i] < pos && d[i] == sk[src[i]]
    &&& forall|j: int| 0 <= j < pos ==> 0 <= #[trigger] dst[j] < d.len() && d[dst[j]] == sk[j]
    &&& pos > 0 ==> d.len() > 0 && d.last() == sk[pos - 1]
}

/// Keeping a key that differs from the last kept one, and skipping one that
/// equals it, keeps the invariant.
pub proof fn lemma_dedup_step(sk: Seq<RepoKey>, d: Seq<RepoKey>, pos: int, src: Seq<int>, dst: Seq<int>)
    requires
        dedup_inv(sk, d, pos, src, dst),
        pos < sk.len(),
    ensures
        pos == 0 || d.last() != sk[pos] ==> dedup_inv(
            sk,
            d.push(sk[pos]),
            pos + 1,
            src.push(pos),
            dst.push(d.len() as int),
        ),
        pos > 0 && d.last() == sk[pos] ==> dedup_inv(sk, d, pos + 1, src, dst.push(d.len() - 1)),
{
    if pos == 0 && d.len() > 0 {
        assert(0 <= src[0] < pos);
    }
    if pos == 0 || d.last() != sk[pos] {
        let d1 = d.push(sk[pos]);
        if pos > 0 {
            lemma_key_lt_total(sk[pos - 1], sk[pos]);
            assert(!key_lt(sk[pos], sk[pos - 1]));
            assert forall|i: int, j: int| 0 <= i < j < d1.len() implies key_lt(
                #[trigger] d1[i],
                #[trigger] d1[j],
            ) by {
                if j == d1.len() - 1 && i < d.len() - 1 {
                    assert(key_lt(d[i], d[d.len() - 1]));
                    lemma_key_lt_trans(d[i], d.last(), d1[j]);
                } else if j < d.len() {
                    assert(d1[i] == d[i] && d1[j] == d[j]);
                }
            }
        }
        let src1 = src.push(pos);
        let dst1 = dst.push(d.len() as int);
        assert forall|i: int| 0 <= i < d1.len() implies 0 <= #[trigger] src1[i] < pos + 1 && d1[i]
            == sk[src1[i]] by {
            if i < d.len() {
                assert(src1[i] == src[i]);
            }
        }
        assert forall|j: int| 0 <= j < pos + 1 implies 0 <= #[trigger] dst1[j] < d1.len() && d1[dst1[j]]
            == sk[j] by {
            if j < pos {
                assert(dst1[j] == dst[j]);
            }
        }
    } else {
        let dst1 = dst.push(d.len() - 1);
        assert forall|j: int| 0 <= j < pos + 1 implies 0 <= #[trigger] dst1[j] < d.len() && d[dst1[j]]
            == sk[j] by {
            if j < pos {
                assert(dst1[j] == dst[j]);
            }
        }
        assert forall|i: int| 0 <= i < d.len() implies 0 <= #[trigger] src[i] < pos + 1 && d[i]
            == sk[src[i]] by {}
    }
}

/// The keys of the kept repositories.
pub open spec fn keys_of(ids: Seq<u64>, owners: Seq<String>, suffixes: Seq<String>) -> Seq<RepoKey> {
    Seq::new(ids.len(), |i: int| (ids[i], str_bytes(owners[i]), str_bytes(suffixes[i])))
}

/// The sorted distinct repositories of the events.
fn build_repo_dictionary(events: &Vec<ParsedEvent>) -> (res: (Vec<u64>, Vec<String>, Vec<String>))
    ensures
        res.1@.len() == res.0@.len(),
        res.2@.len() == res.0@.len(),
        is_repo_dictionary(keys_of(res.0@, res.1@, res.2@), events@),
{
    let mut keys: Vec<(u64, String, String)> = Vec::new();
    let mut k: usize = 0;
    while k < events.len()
        invariant
            k <= events@.len(),
            keys@.len() == k,
            forall|j: int| 0 <= j < k ==> tuple_key(#[trigger] keys@[j]) == key_of(events@[j]),
        decreases events@.len() - k,
    {
        let e = &events[k];
        keys.push((e.repo_id, e.repo_owner.clone(), e.repo_suffix.clone()));
        k += 1;
    }
    let ghost unsorted = keys@;
    sort_repo_keys(&mut keys);
    let ghost sorted = keys@;
    let ghost sk = sorted.map_values(|t: (u64, String, String)| tuple_key(t));
    proof {
        broadcast use vstd::seq_lib::group_to_multiset_ensures;

        assert forall|j: int| 0 <= j < sk.len() implies #[trigger] repo_of_some(events@, sk[j]) by {
            assert(sorted.contains(sorted[j]));
            assert(sorted.to_multiset().count(sorted[j]) > 0);
            assert(unsorted.contains(sorted[j]));
            let k = choose|k: int| 0 <= k < unsorted.len() && unsorted[k] == sorted[j];
            assert(tuple_key(unsorted[k]) == key_of(events@[k]));
            reveal(repo_of_some);
        }
        assert forall|k: int| 0 <= k < events@.len() implies #[trigger] listed(sk, key_of(events@[k])) by {
            assert(unsorted.contains(unsorted[k]));
            assert(unsorted.to_multiset().count(unsorted[k]) > 0);
            assert(sorted.contains(unsorted[k]));
            let j = choose|j: int| 0 <= j < sorted.len() && sorted[j] == unsorted[k];
            assert(sk[j] == key_of(events@[k]));
            reveal(listed);
        }
        assert(keys_sorted(sk));
    }
    let mut ids: Vec<u64> = Vec::new();
    let mut owners: Vec<String> = Vec::new();
    let mut suffixes: Vec<String> = Vec::new();
    let mut pos: usize = 0;
    let ghost mut d: Seq<RepoKey> = Seq::empty();
    let ghost mut src: Seq<int> = Seq::empty();
    let ghost mut dst: Seq<int> = Seq::empty();
    proof {
        assert(keys_of(ids@, owners@, suffixes@) =~= d);
    }
    while pos < keys.len()
        invariant
            keys@ == sorted,
            sk.len() == sorted.len(),
            forall|j: int| 0 <= j < sorted.len() ==> #[trigger] sk[j] == tuple_key(sorted[j]),
            owners@.len() == ids@.len(),
            suffixes@.len() == ids@.len(),
            d == keys_of(ids@, owners@, suffixes@),
            dedup_inv(sk, d, pos as int, src, dst),
            forall|j: int| 0 <= j < sk.len() ==> #[trigger] repo_of_some(events@, sk[j]),
            forall|k: int| 0 <= k < events@.len() ==> #[trigger] listed(sk, key_of(events@[k])),
        decreases sorted.len() - pos,
    {
        let ghost d0 = d;
        proof {
            lemma_dedup_step(sk, d0, pos as int, src, dst);
        }
        let keep = if pos == 0 {
            true
        } else {
            let last = ids.len() - 1;
            compare_keys(&keys[pos], (ids[last], &owners[last], &suffixes[last])) != 0
        };
        if keep {
            let t = &keys[pos];
            ids.push(t.0);
            owners.push(t.1.clone());
            suffixes.push(t.2.clone());
            proof {
                d = d0.push(sk[pos as int]);
                src = src.push(pos as int);
                dst = dst.push(d0.len() as int);
                assert(keys_of(ids@, owners@, suffixes@) =~= d);
            }
        } else {
            proof {
                dst = dst.push(d0.len() - 1);
            }
        }
        pos += 1;
    }
    proof {
        assert forall|i: int| 0 <= i < d.len() implies #[trigger] repo_of_some(events@, d[i]) by {
            let j = src[i];
            assert(d[i] == sk[j]);
            assert(repo_of_some(events@, sk[j]));
        }
        assert forall|k: int| 0 <= k < events@.len() implies #[trigger] listed(d, key_of(events@[k])) by {
            assert(listed(sk, key_of(events@[k])));
            reveal(listed);
            let j = choose|j: int| 0 <= j < sk.len() && sk[j] == key_of(events@[k]);
            let i = dst[j];
            assert(d[i] == sk[j]);
        }
    }
    (ids, owners, suffixes)
}


/// Compares two strings by their bytes.
fn compare_strings(a: &String, b: &String) -> (c: i8)
    ensures
        c == 0 <==> str_bytes(*a) == str_bytes(*b),
        c < 0 <==> bytes_lt(str_bytes(*a), str_bytes(*b)),
        c > 0 <==> bytes_lt(str_bytes(*b), str_bytes(*a)),
{
    compare_bytes(a.as_str().as_bytes(), b.as_str().as_bytes())
}

/// A type as a key: its bytes in the owner's place.
pub open spec fn type_key(t: Seq<u8>) -> RepoKey {
    (0, t, Seq::empty())
}

pub open spec fn type_keys(types: Seq<String>) -> Seq<RepoKey> {
    types.map_values(|s: String| type_key(str_bytes(s)))
}

/// The sorted distinct event types of the events.
fn build_type_dictionary(events: &Vec<ParsedEvent>) -> (types: Vec<String>)
    ensures
        is_type_dictionary(types@.map_values(|s: String| str_bytes(s)), events@),
{
    let mut all: Vec<String> = Vec::new();
    let mut k: usize = 0;
    while k < events.len()
        invariant
            k <= events@.len(),
            all@.len() == k,
            forall|j: int| 0 <= j < k ==> str_bytes(#[trigger] all@[j]) == str_bytes(events@[j].event_type),
        decreases events@.len() - k,
    {
        all.push(events[k].event_type.clone());
        k += 1;
    }
    let ghost unsorted = all@;
    sort_strings(&mut all);
    let ghost sorted = all@;
    let ghost sk = type_keys(sorted);
    proof {
        broadcast use vstd::seq_lib::group_to_multiset_ensures;

        assert forall|j: int| 0 <= j < sk.len() implies #[trigger] type_of_some(events@, sk[j].1) by {
            assert(sorted.contains(sorted[j]));
            assert(sorted.to_multiset().count(sorted[j]) > 0);
            assert(unsorted.contains(sorted[j]));
            let k = choose|k: int| 0 <= k < unsorted.len() && unsorted[k] == sorted[j];
            assert(str_bytes(unsorted[k]) == str_bytes(events@[k].event_type));
            reveal(type_of_some);
        }
        assert forall|k: int| 0 <= k < events@.len() implies #[trigger] listed(
            sk,
            type_key(str_bytes(events@[k].event_type)),
        ) by {
            assert(unsorted.contains(unsorted[k]));
            assert(unsorted.to_multiset().count(unsorted[k]) > 0);
            assert(sorted.contains(unsorted[k]));
            let j = choose|j: int| 0 <= j < sorted.len() && sorted[j] == unsorted[k];
            assert(sk[j] == type_key(str_bytes(events@[k].event_type)));
            reveal(listed);
        }
        assert forall|i: int, j: int| 0 <= i < j < sk.len() implies !key_lt(#[trigger] sk[j], #[trigger] sk[i]) by {
            lemma_key_of_bytes(str_bytes(sorted[j]), str_bytes(sorted[i]));
        }
    }
    let mut types: Vec<String> = Vec::new();
    let mut pos: usize = 0;
    let ghost mut d: Seq<RepoKey> = Seq::empty();
    let ghost mut src: Seq<int> = Seq::empty();
    let ghost mut dst: Seq<int> = Seq::empty();
    proof {
        assert(type_keys(types@) =~= d);
    }
    while pos < all.len()
        invariant
            all@ == sorted,
            sk == type_keys(sorted),
            d == type_keys(types@),
            dedup_inv(sk, d, pos as int, src, dst),
            forall|j: int| 0 <= j < sk.len() ==> #[trigger] type_of_some(events@, sk[j].1),
            forall|k: int| 0 <= k < events@.len() ==> #[trigger] listed(
                sk,
                type_key(str_bytes(events@[k].event_type)),
            ),
        decreases sorted.len() - pos,
    {
        let ghost d0 = d;
        proof {
            lemma_dedup_step(sk, d0, pos as int, src, dst);
        }
        let keep = if pos == 0 {
            true
        } else {
            compare_strings(&all[pos], &types[types.len() - 1]) != 0
        };
        if keep {
            types.push(all[pos].clone());
            proof {
                d = d0.push(sk[pos as int]);
                src = src.push(pos as int);
                dst = dst.push(d0.len() as int);
                assert(type_keys(types@) =~= d);
            }
        } else {
            proof {
                dst = dst.push(d0.len() - 1);
            }
        }
        pos += 1;
    }
    proof {
        let tb = types@.map_values(|s: String| str_bytes(s));
        assert forall|i: int, j: int| 0 <= i < j < tb.len() implies bytes_lt(#[trigger] tb[i], #[trigger] tb[j]) by {
            lemma_key_of_bytes(tb[i], tb[j]);
            assert(key_lt(d[i], d[j]));
        }
        assert forall|i: int| 0 <= i < tb.len() implies #[trigger] type_of_some(events@, tb[i]) by {
            let j = src[i];
            assert(d[i] == sk[j]);
            assert(type_of_some(events@, sk[j].1));
        }
        assert forall|k: int| 0 <= k < events@.len() implies #[trigger] listed(tb, str_bytes(events@[k].event_type)) by {
            assert(listed(sk, type_key(str_bytes(events@[k].event_type))));
            reveal(listed);
            let j = choose|j: int| 0 <= j < sk.len() && sk[j] == type_key(str_bytes(events@[k].event_type));
            let i = dst[j];
            assert(d[i] == sk[j]);
            assert(tb[i] == d[i].1);
        }
    }
    types
}

/// The index of a repository in the dictionary.
fn find_repo(ids: &Vec<u64>, owners: &Vec<String>, suffixes: &Vec<String>, e: &ParsedEvent) -> (r: usize)
    requires
        owners@.len() == ids@.len(),
        suffixes@.len() == ids@.len(),
        keys_strict(keys_of(ids@, owners@, suffixes@)),
        listed(keys_of(ids@, owners@, suffixes@), key_of(*e)),
    ensures
        r < ids@.len(),
        keys_of(ids@, owners@, suffixes@)[r as int] == key_of(*e),
{
    let ghost d = keys_of(ids@, owners@, suffixes@);
    let ghost key = key_of(*e);
    let mut lo: usize = 0;
    let mut hi: usize = ids.len();
    while lo < hi
        invariant
            owners@.len() == ids@.len(),
            suffixes@.len() == ids@.len(),
            d == keys_of(ids@, owners@, suffixes@),
            key == key_of(*e),
            keys_strict(d),
            lo <= hi <= d.len(),
            forall|i: int| 0 <= i < lo ==> key_lt(#[trigger] d[i], key),
            forall|i: int| hi <= i < d.len() ==> key_lt(key, #[trigger] d[i]),
        decreases hi - lo,
    {
        let mid = lo + (hi - lo) / 2;
        let t = (ids[mid], owners[mid].clone(), suffixes[mid].clone());
        assert(tuple_key(t) == d[mid as int]);
        let c = compare_keys(&t, (e.repo_id, &e.repo_owner, &e.repo_suffix));
        if c == 0 {
            return mid;
        } else if c < 0 {
            proof {
                assert forall|i: int| 0 <= i < mid + 1 implies key_lt(#[trigger] d[i], key) by {
                    if i < mid {
                        lemma_key_lt_trans(d[i], d[mid as int], key);
                    }
                }
            }
            lo = mid + 1;
        } else {
            proof {
                assert forall|i: int| mid <= i < d.len() implies key_lt(key, #[trigger] d[i]) by {
                    if i > mid {
                        lemma_key_lt_trans(key, d[mid as int], d[i]);
                    }
                }
            }
            hi = mid;
        }
    }
    proof {
        reveal(listed);
        let w = choose|w: int| 0 <= w < d.len() && d[w] == key;
        lemma_key_lt_irreflexive(key);
        if w < lo {
            assert(key_lt(d[w], key));
        } else {
            assert(key_lt(key, d[w]));
        }
    }
    0
}

/// The index of an event type in the dictionary.
fn find_type(types: &Vec<String>, t: &String) -> (r: usize)
    requires
        keys_strict(type_keys(types@)),
        listed(type_keys(types@), type_key(str_bytes(*t))),
    ensures
        r < types@.len(),
        str_bytes(types@[r as int]) == str_bytes(*t),
{
    let ghost d = type_keys(types@);
    let ghost key = type_key(str_bytes(*t));
    let mut lo: usize = 0;
    let mut hi: usize = types.len();
    while lo < hi
        invariant
            d == type_keys(types@),
            key == type_key(str_bytes(*t)),
            keys_strict(d),
            lo <= hi <= d.len(),
            forall|i: int| 0 <= i < lo ==> key_lt(#[trigger] d[i], key),
            forall|i: int| hi <= i < d.len() ==> key_lt(key, #[trigger] d[i]),
        decreases hi - lo,
    {
        let mid = lo + (hi - lo) / 2;
        let c = compare_strings(&types[mid], t);
        proof {
            lemma_key_of_bytes(str_bytes(types@[mid as int]), str_bytes(*t));
            lemma_key_of_bytes(str_bytes(*t), str_bytes(types@[mid as int]));
        }
        if c == 0 {
            return mid;
        } else if c < 0 {
            proof {
                assert forall|i: int| 0 <= i < mid + 1 implies key_lt(#[trigger] d[i], key) by {
                    if i < mid {
                        lemma_key_lt_trans(d[i], d[mid as int], key);
                    }
                }
            }
            lo = mid + 1;
        } else {
            proof {
                assert forall|i: int| mid <= i < d.len() implies key_lt(key, #[trigger] d[i]) by {
                    if i > mid {
                        lemma_key_lt_trans(key, d[mid as int], d[i]);
                    }
                }
            }
            hi = mid;
        }
    }
    proof {
        reveal(listed);
        let w = choose|w: int| 0 <= w < d.len() && d[w] == key;
        lemma_key_lt_irreflexive(key);
        if w < lo {
            assert(key_lt(d[w], key));
        } else {
            assert(key_lt(key, d[w]));
        }
    }
    0
}


/// The type dictionary, as keys, is strictly increasing and lists the type
/// of every event.
proof fn lemma_type_keys(types: Seq<String>, es: Seq<ParsedEvent>)
    requires
        is_type_dictionary(types.map_values(|s: String| str_bytes(s)), es),
    ensures
        keys_strict(type_keys(types)),
        forall|k: int| 0 <= k < es.len() ==> #[trigger] listed(type_keys(types), type_key(str_bytes(es[k].event_type))),
{
    let tb = types.map_values(|s: String| str_bytes(s));
    let d = type_keys(types);
    assert forall|i: int, j: int| 0 <= i < j < d.len() implies key_lt(#[trigger] d[i], #[trigger] d[j]) by {
        lemma_key_of_bytes(tb[i], tb[j]);
        assert(bytes_lt(tb[i], tb[j]));
    }
    assert forall|k: int| 0 <= k < es.len() implies #[trigger] listed(d, type_key(str_bytes(es[k].event_type))) by {
        assert(listed(tb, str_bytes(es[k].event_type)));
        reveal(listed);
        let i = choose|i: int| 0 <= i < tb.len() && tb[i] == str_bytes(es[k].event_type);
        assert(d[i] == type_key(tb[i]));
    }
}

/// Events turned into columns and back.
pub struct EventsToColumns;

/// Two lists of byte strings, each strictly increasing, that hold the same
/// strings are the same.
proof fn lemma_bytes_sorted_unique(a: Seq<Seq<u8>>, b: Seq<Seq<u8>>)
    requires
        forall|i: int, j: int| 0 <= i < j < a.len() ==> bytes_lt(#[trigger] a[i], #[trigger] a[j]),
        forall|i: int, j: int| 0 <= i < j < b.len() ==> bytes_lt(#[trigger] b[i], #[trigger] b[j]),
        forall|x: Seq<u8>| a.contains(x) <==> b.contains(x),
    ensures
        a == b,
    decreases a.len() + b.len(),
{
    if a.len() == 0 || b.len() == 0 {
        if a.len() > 0 {
            assert(a.contains(a[0]));
        }
        if b.len() > 0 {
            assert(b.contains(b[0]));
        }
        assert(a =~= b);
    } else {
        assert(a.contains(a[0]) && b.contains(b[0]));
        let i = choose|i: int| 0 <= i < b.len() && b[i] == a[0];
        let j = choose|j: int| 0 <= j < a.len() && a[j] == b[0];
        if i > 0 && j > 0 {
            assert(bytes_lt(b[0], b[i]));
            assert(bytes_lt(a[0], a[j]));
            lemma_bytes_lt_total(a[0], b[0]);
        }
        assert(a[0] == b[0]);
        lemma_bytes_lt_irreflexive(a[0]);
        let ra = a.drop_first();
        let rb = b.drop_first();
        assert forall|v: Seq<u8>| ra.contains(v) <==> rb.contains(v) by {
            if ra.contains(v) {
                let k = choose|k: int| 0 <= k < ra.len() && ra[k] == v;
                assert(a[k + 1] == v && bytes_lt(a[0], v));
                assert(b.contains(v));
                let m = choose|m: int| 0 <= m < b.len() && b[m] == v;
                assert(m != 0);
                assert(rb[m - 1] == v);
            }
            if rb.contains(v) {
                let k = choose|k: int| 0 <= k < rb.len() && rb[k] == v;
                assert(b[k + 1] == v && bytes_lt(b[0], v));
                assert(a.contains(v));
                let m = choose|m: int| 0 <= m < a.len() && a[m] == v;
                assert(m != 0);
                assert(ra[m - 1] == v);
            }
        }
        assert forall|x: int, y: int| 0 <= x < y < ra.len() implies bytes_lt(#[trigger] ra[x], #[trigger] ra[y]) by {
            assert(ra[x] == a[x + 1] && ra[y] == a[y + 1]);
        }
        assert forall|x: int, y: int| 0 <= x < y < rb.len() implies bytes_lt(#[trigger] rb[x], #[trigger] rb[y]) by {
            assert(rb[x] == b[x + 1] && rb[y] == b[y + 1]);
        }
        lemma_bytes_sorted_unique(ra, rb);
        assert forall|k: int| 0 <= k < a.len() implies a[k] == b[k] by {
            if k > 0 {
                assert(a[k] == ra[k - 1] && b[k] == rb[k - 1]);
            }
        }
        assert(a =~= b);
    }
}

/// The events have one dictionary of types.
proof fn lemma_type_dictionary_unique(d1: Seq<Seq<u8>>, d2: Seq<Seq<u8>>, es: Seq<ParsedEvent>)
    requires
        is_type_dictionary(d1, es),
        is_type_dictionary(d2, es),
    ensures
        d1 == d2,
{
    reveal(listed);
    reveal(type_of_some);
    assert forall|x: Seq<u8>| d1.contains(x) <==> d2.contains(x) by {
        if d1.contains(x) {
            let i = choose|i: int| 0 <= i < d1.len() && d1[i] == x;
            assert(type_of_some(es, d1[i]));
            let k = choose|k: int| 0 <= k < es.len() && str_bytes(es[k].event_type) == d1[i];
            assert(listed(d2, str_bytes(es[k].event_type)));
        }
        if d2.contains(x) {
            let i = choose|i: int| 0 <= i < d2.len() && d2[i] == x;
            assert(type_of_some(es, d2[i]));
            let k = choose|k: int| 0 <= k < es.len() && str_bytes(es[k].event_type) == d2[i];
            assert(listed(d1, str_bytes(es[k].event_type)));
        }
    }
    lemma_bytes_sorted_unique(d1, d2);
}

impl EventsToColumns {
    /// Turns the events into columns, or gives `None` where they hold more
    /// than 256 distinct event types.
    pub fn try_apply(&self, events: Vec<ParsedEvent>) -> (out: Option<ColumnarEvents>)
        ensures
            out is Some <==> self.applies_to(events),
            out matches Some(c) ==> columns_of(events@, c),
    {
        let types = build_type_dictionary(&events);
        let ghost tb = types@.map_values(|s: String| str_bytes(s));
        if types.len() > 256 {
            assert(is_type_dictionary(tb, events@));
            return None;
        }
        proof {
            assert forall|d: Seq<Seq<u8>>| #[trigger] is_type_dictionary(d, events@) implies d.len() <= 256 by {
                lemma_type_dictionary_unique(d, tb, events@);
            }
        }
        Some(self.apply(events))
    }
}

impl Bijection<Vec<ParsedEvent>, ColumnarEvents> for EventsToColumns {
    /// At most 256 distinct event types, so that each index fits a byte.
    open spec fn applies_to(&self, events: Vec<ParsedEvent>) -> bool {
        forall|d: Seq<Seq<u8>>| #[trigger] is_type_dictionary(d, events@) ==> d.len() <= 256
    }

    open spec fn reverts(&self, cols: ColumnarEvents) -> bool {
        columns_readable(cols)
    }

    fn apply(&self, events: Vec<ParsedEvent>) -> (cols: ColumnarEvents)
        ensures
            columns_of(events@, cols),
    {
        let (ids, owners, suffixes) = build_repo_dictionary(&events);
        let types = build_type_dictionary(&events);
        proof {
            lemma_type_keys(types@, events@);
            assert(types@.map_values(|s: String| str_bytes(s)).len() <= 256);
        }
        let mut event_ids: Vec<i64> = Vec::new();
        let mut event_type_indices: Vec<u8> = Vec::new();
        let mut created_ats: Vec<i64> = Vec::new();
        let mut repo_indices: Vec<u64> = Vec::new();
        let mut k: usize = 0;
        while k < events.len()
            invariant
                k <= events@.len(),
                owners@.len() == ids@.len(),
                suffixes@.len() == ids@.len(),
                types@.len() <= 256,
                is_repo_dictionary(keys_of(ids@, owners@, suffixes@), events@),
                keys_strict(type_keys(types@)),
                forall|j: int| 0 <= j < events@.len() ==> #[trigger] listed(type_keys(types@), type_key(str_bytes(events@[j].event_type))),
                event_ids@ == events@.take(k as int).map_values(|e: ParsedEvent| e.id),
                created_ats@ == events@.take(k as int).map_values(|e: ParsedEvent| e.created_at),
                repo_indices@.len() == k,
                event_type_indices@.len() == k,
                forall|j: int| 0 <= j < k ==> {
                    &&& #[trigger] repo_indices@[j] < ids@.len()
                    &&& keys_of(ids@, owners@, suffixes@)[repo_indices@[j] as int] == key_of(events@[j])
                    &&& event_type_indices@[j] < types@.len()
                    &&& str_bytes(types@[event_type_indices@[j] as int]) == str_bytes(events@[j].event_type)
                },
            decreases events@.len() - k,
        {
            let e = &events[k];
            let r = find_repo(&ids, &owners, &suffixes, e);
            let t = find_type(&types, &e.event_type);
            event_ids.push(e.id);
            created_ats.push(e.created_at);
            repo_indices.push(r as u64);
            event_type_indices.push(t as u8);
            proof {
                assert(events@.take(k + 1).map_values(|e: ParsedEvent| e.id) =~= events@.take(k as int).map_values(
                    |e: ParsedEvent| e.id,
                ).push(events@[k as int].id));
                assert(events@.take(k + 1).map_values(|e: ParsedEvent| e.created_at) =~= events@.take(
                    k as int,
                ).map_values(|e: ParsedEvent| e.created_at).push(events@[k as int].created_at));
            }
            k += 1;
        }
        assert(events@.take(events@.len() as int) == events@);
        let cols = ColumnarEvents {
            event_ids,
            event_type_indices,
            dict_event_types: types,
            created_ats,
            repo_indices,
            dict_repo_ids: ids,
            dict_repo_owners: owners,
            dict_repo_suffixes: suffixes,
        };
        assert(repo_dict(cols) == keys_of(cols.dict_repo_ids@, cols.dict_repo_owners@, cols.dict_repo_suffixes@));
        cols
    }

    fn revert(&self, cols: ColumnarEvents) -> (events: Vec<ParsedEvent>)
        ensures
            events@.map_values(|e: ParsedEvent| event_row(e)) == column_rows(cols),
    {
        let len = cols.event_ids.len();
        let mut events: Vec<ParsedEvent> = Vec::new();
        let mut i: usize = 0;
        while i < len
            invariant
                len == cols.event_ids@.len(),
                columns_readable(cols),
                i <= len,
                events@.map_values(|e: ParsedEvent| event_row(e)) == column_rows(cols).take(i as int),
            decreases len - i,
        {
            let et_idx = cols.event_type_indices[i] as usize;
            let repo_idx = cols.repo_indices[i] as usize;
            let e = ParsedEvent {
                id: cols.event_ids[i],
                event_type: cols.dict_event_types[et_idx].clone(),
                repo_id: cols.dict_repo_ids[repo_idx],
                repo_owner: cols.dict_repo_owners[repo_idx].clone(),
                repo_suffix: cols.dict_repo_suffixes[repo_idx].clone(),
                created_at: cols.created_ats[i],
            };
            let ghost before = events@;
            events.push(e);
            proof {
                assert(events@.map_values(|e: ParsedEvent| event_row(e)) =~= before.map_values(
                    |e: ParsedEvent| event_row(e),
                ).push(event_row(e)));
                assert(column_rows(cols).take(i + 1) =~= column_rows(cols).take(i as int).push(
                    column_rows(cols)[i as int],
                ));
            }
            i += 1;
        }
        assert(column_rows(cols).take(len as int) =~= column_rows(cols));
        events
    }
}

/// Equal bytes mean equal strings.
proof fn lemma_same_bytes(a: Seq<char>, b: Seq<char>)
    requires
        encode_utf8(a) == encode_utf8(b),
    ensures
        a == b,
{
    encode_utf8_decode_utf8(a);
    encode_utf8_decode_utf8(b);
}

/// Columns made from events can be read back, and give the events back.
pub proof fn law_columns_roundtrip(es: Seq<ParsedEvent>, c: ColumnarEvents)
    requires
        columns_of(es, c),
    ensures
        columns_readable(c),
        column_rows(c) == es.map_values(|e: ParsedEvent| event_row(e)),
{
    let rows = column_rows(c);
    let want = es.map_values(|e: ParsedEvent| event_row(e));
    assert(c.event_ids@.len() == es.len());
    assert forall|k: int| 0 <= k < es.len() implies rows[k] == want[k] by {
        let t = c.event_type_indices@[k] as int;
        let r = c.repo_indices@[k] as int;
        assert(c.repo_indices@[k] < repo_dict(c).len());
        assert(type_dict(c)[t] == str_bytes(c.dict_event_types@[t]));
        lemma_same_bytes(c.dict_event_types@[t]@, es[k].event_type@);
        assert(repo_dict(c)[r] == key_of(es[k]));
        lemma_same_bytes(c.dict_repo_owners@[r]@, es[k].repo_owner@);
        lemma_same_bytes(c.dict_repo_suffixes@[r]@, es[k].repo_suffix@);
        assert(c.event_ids@[k] == es[k].id);
        assert(c.created_ats@[k] == es[k].created_at);
    }
    assert(rows =~= want);
    assert forall|i: int| 0 <= i < c.event_ids@.len() implies {
        &&& (#[trigger] c.event_type_indices@[i]) < c.dict_event_types@.len()
        &&& c.repo_indices@[i] < c.dict_repo_ids@.len()
        &&& c.repo_indices@[i] < c.dict_repo_owners@.len()
        &&& c.repo_indices@[i] < c.dict_repo_suffixes@.len()
    } by {
        assert(c.repo_indices@[i] < repo_dict(c).len());
        assert(c.event_type_indices@[i] < type_dict(c).len());
    }
}

} // verus!
