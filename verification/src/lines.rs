//! Lists of strings stored as their bytes joined by newlines.
use crate::columnar::str_bytes;
use vstd::prelude::*;
use vstd::utf8::{decode_utf8, valid_utf8};

verus! {

/// The parts joined, a separator between each two.
pub open spec fn join_with(parts: Seq<Seq<u8>>, sep: u8) -> Seq<u8>
    decreases parts.len(),
{
    if parts.len() == 0 {
        Seq::empty()
    } else if parts.len() == 1 {
        parts[0]
    } else {
        parts[0] + seq![sep] + join_with(parts.drop_first(), sep)
    }
}

/// The bytes of each string.
pub open spec fn strings_bytes(v: Seq<String>) -> Seq<Seq<u8>> {
    v.map_values(|s: String| str_bytes(s))
}

/// The index of the first `sep` in `b` at or after `i`, or `b.len()`.
pub open spec fn next_sep(b: Seq<u8>, sep: u8, i: int) -> int
    decreases b.len() - i,
{
    if i >= b.len() || i < 0 {
        b.len() as int
    } else if b[i] == sep {
        i
    } else {
        next_sep(b, sep, i + 1)
    }
}

/// The pieces of `b` between separators, from position `i`.
pub open spec fn split_from(b: Seq<u8>, sep: u8, i: int) -> Seq<Seq<u8>>
    decreases b.len() - i,
{
    let j = next_sep(b, sep, i);
    if i < 0 || i > b.len() || j >= b.len() {
        seq![b.subrange(if 0 <= i <= b.len() { i } else { b.len() as int }, b.len() as int)]
    } else {
        proof {
            lemma_next_sep_bounds(b, sep, i);
        }
        seq![b.subrange(i, j)] + split_from(b, sep, j + 1)
    }
}

/// The pieces of `b` between separators; none for no bytes.
pub open spec fn split_lines(b: Seq<u8>, sep: u8) -> Seq<Seq<u8>> {
    if b.len() == 0 {
        Seq::empty()
    } else {
        split_from(b, sep, 0)
    }
}

pub proof fn lemma_next_sep_bounds(b: Seq<u8>, sep: u8, i: int)
    requires
        0 <= i <= b.len(),
    ensures
        i <= next_sep(b, sep, i) <= b.len(),
        next_sep(b, sep, i) < b.len() ==> b[next_sep(b, sep, i)] == sep,
        forall|k: int| i <= k < next_sep(b, sep, i) ==> b[k] != sep,
    decreases b.len() - i,
{
    if i < b.len() && b[i] != sep {
        lemma_next_sep_bounds(b, sep, i + 1);
    }
}

/// The text that a list of bytes spells; `None` where one is not UTF-8.
pub open spec fn decode_lines(parts: Seq<Seq<u8>>) -> Option<Seq<Seq<char>>> {
    if forall|i: int| 0 <= i < parts.len() ==> valid_utf8(#[trigger] parts[i]) {
        Some(parts.map_values(|p: Seq<u8>| decode_utf8(p)))
    } else {
        None
    }
}

/// The views of a list of strings.
pub open spec fn views(v: Seq<String>) -> Seq<Seq<char>> {
    v.map_values(|s: String| s@)
}

/// The strings' bytes, joined by `sep`.
pub fn join_strings(v: &Vec<String>, sep: u8) -> (out: Vec<u8>)
    ensures
        out@ == join_with(strings_bytes(v@), sep),
{
    let mut out: Vec<u8> = Vec::new();
    let n = v.len();
    if n == 0 {
        return out;
    }
    let mut i: usize = n;
    let ghost parts = strings_bytes(v@);
    // built from the back: `out` holds the join of the parts from `i` on
    while i > 0
        invariant
            n == v@.len(),
            n > 0,
            parts == strings_bytes(v@),
            i <= n,
            i < n ==> out@ == join_with(parts.skip(i as int), sep),
            i == n ==> out@.len() == 0,
        decreases i,
    {
        i -= 1;
        let bytes = v[i].as_str().as_bytes();
        let mut piece = vstd::slice::slice_to_vec(bytes);
        assert(piece@ == parts[i as int]);
        let ghost tail = out@;
        if i + 1 < n {
            piece.push(sep);
        }
        piece.append(&mut out);
        out = piece;
        proof {
            let rest = parts.skip(i as int);
            assert(rest[0] == parts[i as int]);
            assert(rest.drop_first() =~= parts.skip(i + 1));
            if i + 1 < n {
                assert(out@ =~= parts[i as int] + seq![sep] + tail);
            } else {
                assert(rest.len() == 1);
                assert(out@ =~= parts[i as int]);
            }
        }
    }
    assert(parts.skip(0) =~= parts);
    out
}

/// Splits `b` at each `sep`.
pub fn split_bytes(b: &[u8], sep: u8) -> (parts: Vec<Vec<u8>>)
    ensures
        parts@.map_values(|p: Vec<u8>| p@) == split_lines(b@, sep),
{
    let mut parts: Vec<Vec<u8>> = Vec::new();
    if b.len() == 0 {
        assert(parts@.map_values(|p: Vec<u8>| p@) =~= Seq::<Seq<u8>>::empty());
        return parts;
    }
    let mut start: usize = 0;
    let mut i: usize = 0;
    proof {
        lemma_next_sep_bounds(b@, sep, 0);
    }
    // `parts` holds the pieces before `start`; `i` scans the current one
    while i < b.len()
        invariant
            start <= i <= b@.len(),
            b@.len() > 0,
            forall|k: int| start <= k < i ==> b@[k] != sep,
            parts@.map_values(|p: Vec<u8>| p@) + split_from(b@, sep, start as int) == split_from(b@, sep, 0),
        decreases b@.len() - i,
    {
        if b[i] == sep {
            proof {
                lemma_next_sep_bounds(b@, sep, start as int);
                lemma_next_sep_at(b@, sep, start as int, i as int);
            }
            let piece = vstd::slice::slice_to_vec(vstd::slice::slice_subrange(b, start, i));
            let ghost before = parts@.map_values(|p: Vec<u8>| p@);
            parts.push(piece);
            proof {
                assert(parts@.map_values(|p: Vec<u8>| p@) =~= before.push(b@.subrange(start as int, i as int)));
                assert(split_from(b@, sep, start as int) == seq![b@.subrange(start as int, i as int)]
                    + split_from(b@, sep, i + 1));
                assert(before + split_from(b@, sep, start as int) =~= before.push(
                    b@.subrange(start as int, i as int),
                ) + split_from(b@, sep, i + 1));
            }
            start = i + 1;
        }
        i += 1;
    }
    proof {
        lemma_next_sep_at(b@, sep, start as int, b@.len() as int);
        assert(split_from(b@, sep, start as int) == seq![b@.subrange(start as int, b@.len() as int)]);
    }
    let piece = vstd::slice::slice_to_vec(vstd::slice::slice_subrange(b, start, b.len()));
    let ghost before = parts@.map_values(|p: Vec<u8>| p@);
    parts.push(piece);
    assert(parts@.map_values(|p: Vec<u8>| p@) =~= before.push(b@.subrange(start as int, b@.len() as int)));
    parts
}

/// The first separator at or after `i` is at `j`, where none lies between.
pub proof fn lemma_next_sep_at(b: Seq<u8>, sep: u8, i: int, j: int)
    requires
        0 <= i <= j <= b.len(),
        forall|k: int| i <= k < j ==> b[k] != sep,
        j < b.len() ==> b[j] == sep,
    ensures
        next_sep(b, sep, i) == j,
    decreases j - i,
{
    if i < j {
        lemma_next_sep_at(b, sep, i + 1, j);
    }
}

/// Joined pieces that hold no separator split back into those pieces, read
/// after any prefix.
proof fn lemma_split_join_from(pre: Seq<u8>, parts: Seq<Seq<u8>>, sep: u8)
    requires
        parts.len() >= 1,
        forall|i: int| 0 <= i < parts.len() ==> !(#[trigger] parts[i]).contains(sep),
    ensures
        split_from(pre + join_with(parts, sep), sep, pre.len() as int) == parts,
    decreases parts.len(),
{
    let b = pre + join_with(parts, sep);
    let i = pre.len() as int;
    let p0 = parts[0];
    assert(!p0.contains(sep));
    if parts.len() == 1 {
        assert(b =~= pre + p0);
        assert forall|k: int| i <= k < b.len() implies b[k] != sep by {
            assert(b[k] == p0[k - i]);
        }
        lemma_next_sep_at(b, sep, i, b.len() as int);
        assert(b.subrange(i, b.len() as int) =~= p0);
        assert(parts =~= seq![p0]);
    } else {
        let rest = parts.drop_first();
        let pre2 = pre + p0 + seq![sep];
        assert(b =~= pre2 + join_with(rest, sep));
        let j = i + p0.len();
        assert forall|k: int| i <= k < j implies b[k] != sep by {
            assert(b[k] == p0[k - i]);
        }
        assert(b[j] == sep);
        lemma_next_sep_at(b, sep, i, j);
        assert forall|k: int| 0 <= k < rest.len() implies !(#[trigger] rest[k]).contains(sep) by {
            assert(rest[k] == parts[k + 1]);
        }
        lemma_split_join_from(pre2, rest, sep);
        assert(b.subrange(i, j) =~= p0);
        assert(seq![p0] + rest =~= parts);
    }
}

/// A byte that is not the separator and is in no piece is not in the join.
pub proof fn lemma_join_avoids(parts: Seq<Seq<u8>>, sep: u8, x: u8)
    requires
        sep != x,
        forall|i: int| 0 <= i < parts.len() ==> !(#[trigger] parts[i]).contains(x),
    ensures
        !join_with(parts, sep).contains(x),
    decreases parts.len(),
{
    if parts.len() >= 2 {
        let rest = parts.drop_first();
        assert forall|k: int| 0 <= k < rest.len() implies !(#[trigger] rest[k]).contains(x) by {
            assert(rest[k] == parts[k + 1]);
        }
        lemma_join_avoids(rest, sep, x);
        let p0 = parts[0];
        assert(!p0.contains(x));
        let j = join_with(parts, sep);
        let t = join_with(rest, sep);
        assert forall|k: int| 0 <= k < j.len() implies j[k] != x by {
            if k < p0.len() {
                assert(j[k] == p0[k]);
            } else if k > p0.len() {
                assert(j[k] == t[k - p0.len() - 1]);
            }
        }
    } else if parts.len() == 1 {
        assert(!parts[0].contains(x));
    }
}

/// Splitting undoes joining, where no piece holds the separator and the
/// pieces are not a single empty one.
pub proof fn law_split_join(parts: Seq<Seq<u8>>, sep: u8)
    requires
        forall|i: int| 0 <= i < parts.len() ==> !(#[trigger] parts[i]).contains(sep),
        !(parts.len() == 1 && parts[0].len() == 0),
    ensures
        split_lines(join_with(parts, sep), sep) == parts,
{
    if parts.len() == 0 {
        assert(parts =~= Seq::<Seq<u8>>::empty());
    } else {
        lemma_split_join_from(Seq::empty(), parts, sep);
        assert(Seq::<u8>::empty() + join_with(parts, sep) =~= join_with(parts, sep));
        if parts.len() == 1 {
            assert(join_with(parts, sep) == parts[0]);
        } else {
            assert(join_with(parts, sep).len() > 0);
        }
    }
}

/// The bytes of strings spell the strings again.
pub proof fn lemma_decode_strings(v: Seq<String>)
    ensures
        decode_lines(strings_bytes(v)) == Some(views(v)),
{
    broadcast use vstd::utf8::encode_utf8_valid_utf8, vstd::utf8::encode_utf8_decode_utf8;

    let parts = strings_bytes(v);
    assert forall|i: int| 0 <= i < parts.len() implies valid_utf8(#[trigger] parts[i]) by {
        assert(parts[i] == str_bytes(v[i]));
    }
    assert(parts.map_values(|p: Seq<u8>| decode_utf8(p)) =~= views(v));
}

/// Calls `String::from_utf8` on the bytes. Claims what std documents of it:
/// it succeeds exactly on UTF-8, and the string holds the characters that
/// the bytes encode.
#[verifier::external_body]
pub(crate) fn string_from_utf8(v: Vec<u8>) -> (r: Option<String>)
    ensures
        r is Some <==> valid_utf8(v@),
        r matches Some(s) ==> s@ == decode_utf8(v@),
{
    String::from_utf8(v).ok()
}

/// The string whose bytes these are.
pub(crate) fn string_of_bytes(v: Vec<u8>) -> (s: String)
    requires
        valid_utf8(v@),
    ensures
        str_bytes(s) == v@,
{
    broadcast use vstd::utf8::decode_utf8_encode_utf8;

    let ghost b = v@;
    match string_from_utf8(v) {
        Some(s) => s,
        None => String::new(),
    }
}

/// The strings that the pieces spell; `None` where one is not UTF-8.
pub fn strings_from_pieces(parts: &Vec<Vec<u8>>) -> (out: Option<Vec<String>>)
    ensures
        decode_lines(parts@.map_values(|p: Vec<u8>| p@)) == match out {
            Some(v) => Some(views(v@)),
            None => None::<Seq<Seq<char>>>,
        },
{
    let ghost ps = parts@.map_values(|p: Vec<u8>| p@);
    let mut out: Vec<String> = Vec::new();
    let mut i: usize = 0;
    while i < parts.len()
        invariant
            ps == parts@.map_values(|p: Vec<u8>| p@),
            i <= parts@.len(),
            out@.len() == i,
            forall|k: int| 0 <= k < i ==> valid_utf8(#[trigger] ps[k]),
            forall|k: int| 0 <= k < i ==> (#[trigger] out@[k])@ == decode_utf8(ps[k]),
        decreases parts@.len() - i,
    {
        let p = vstd::slice::slice_to_vec(parts[i].as_slice());
        match string_from_utf8(p) {
            Some(st) => out.push(st),
            None => {
                assert(!valid_utf8(ps[i as int]));
                assert(decode_lines(ps) is None);
                return None;
            },
        }
        i += 1;
    }
    assert(views(out@) =~= ps.map_values(|p: Seq<u8>| decode_utf8(p)));
    Some(out)
}

} // verus!
