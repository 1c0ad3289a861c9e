//! Lexicographic order on byte strings, the order of `str`, and on the keys
//! that name a repository.
use vstd::prelude::*;

verus! {

/// `a` comes strictly before `b` byte by byte, a proper prefix first.
pub closed spec fn bytes_lt(a: Seq<u8>, b: Seq<u8>) -> bool
    decreases a.len(),
{
    if a.len() == 0 {
        b.len() > 0
    } else if b.len() == 0 {
        false
    } else if a[0] != b[0] {
        a[0] < b[0]
    } else {
        bytes_lt(a.drop_first(), b.drop_first())
    }
}

pub proof fn lemma_bytes_lt_irreflexive(a: Seq<u8>)
    ensures
        !bytes_lt(a, a),
    decreases a.len(),
{
    if a.len() > 0 {
        lemma_bytes_lt_irreflexive(a.drop_first());
    }
}

pub proof fn lemma_bytes_lt_trans(a: Seq<u8>, b: Seq<u8>, c: Seq<u8>)
    requires
        bytes_lt(a, b),
        bytes_lt(b, c),
    ensures
        bytes_lt(a, c),
    decreases a.len(),
{
    if a.len() > 0 && b.len() > 0 && c.len() > 0 && a[0] == b[0] && b[0] == c[0] {
        lemma_bytes_lt_trans(a.drop_first(), b.drop_first(), c.drop_first());
    }
}

/// Two byte strings are equal or one comes before the other, never both.
pub proof fn lemma_bytes_lt_total(a: Seq<u8>, b: Seq<u8>)
    ensures
        a == b || bytes_lt(a, b) || bytes_lt(b, a),
        !(bytes_lt(a, b) && bytes_lt(b, a)),
    decreases a.len(),
{
    if a.len() > 0 && b.len() > 0 {
        lemma_bytes_lt_total(a.drop_first(), b.drop_first());
        if a[0] == b[0] && a.drop_first() == b.drop_first() {
            assert(a =~= seq![a[0]] + a.drop_first());
            assert(b =~= seq![b[0]] + b.drop_first());
        }
    } else if a.len() == 0 && b.len() == 0 {
        assert(a =~= b);
    }
}

/// Compares two byte strings: -1, 0 or 1 as the first comes before, equals
/// or comes after the second.
pub fn compare_bytes(a: &[u8], b: &[u8]) -> (c: i8)
    ensures
        c == 0 <==> a@ == b@,
        c < 0 <==> bytes_lt(a@, b@),
        c > 0 <==> bytes_lt(b@, a@),
{
    proof {
        lemma_bytes_lt_total(a@, b@);
    }
    let mut i: usize = 0;
    assert(a@.skip(0) =~= a@);
    assert(b@.skip(0) =~= b@);
    while i < a.len() && i < b.len()
        invariant
            i <= a@.len(),
            i <= b@.len(),
            a@.take(i as int) == b@.take(i as int),
            bytes_lt(a@, b@) == bytes_lt(a@.skip(i as int), b@.skip(i as int)),
            bytes_lt(b@, a@) == bytes_lt(b@.skip(i as int), a@.skip(i as int)),
        decreases a@.len() - i,
    {
        proof {
            assert(a@.skip(i as int).drop_first() == a@.skip(i + 1));
            assert(b@.skip(i as int).drop_first() == b@.skip(i + 1));
        }
        if a[i] != b[i] {
            if a[i] < b[i] {
                return -1;
            } else {
                return 1;
            }
        }
        assert(a@.take(i + 1) =~= b@.take(i + 1)) by {
            assert(a@.take(i + 1) == a@.take(i as int).push(a@[i as int]));
            assert(b@.take(i + 1) == b@.take(i as int).push(b@[i as int]));
        }
        i += 1;
    }
    if a.len() == b.len() {
        assert(a@ =~= a@.take(i as int));
        assert(b@ =~= b@.take(i as int));
        0
    } else if a.len() < b.len() {
        assert(a@.skip(i as int).len() == 0);
        -1
    } else {
        assert(b@.skip(i as int).len() == 0);
        1
    }
}

/// The key that names a repository: its id, then the bytes of its owner
/// and of the rest of its name.
pub type RepoKey = (u64, Seq<u8>, Seq<u8>);

/// Keys ordered by id, then owner, then the rest of the name.
pub closed spec fn key_lt(a: RepoKey, b: RepoKey) -> bool {
    ||| a.0 < b.0
    ||| a.0 == b.0 && bytes_lt(a.1, b.1)
    ||| a.0 == b.0 && a.1 == b.1 && bytes_lt(a.2, b.2)
}

pub proof fn lemma_key_lt_irreflexive(a: RepoKey)
    ensures
        !key_lt(a, a),
{
    lemma_bytes_lt_irreflexive(a.1);
    lemma_bytes_lt_irreflexive(a.2);
}

pub proof fn lemma_key_lt_trans(a: RepoKey, b: RepoKey, c: RepoKey)
    requires
        key_lt(a, b),
        key_lt(b, c),
    ensures
        key_lt(a, c),
{
    if a.0 == b.0 && b.0 == c.0 {
        if bytes_lt(a.1, b.1) && bytes_lt(b.1, c.1) {
            lemma_bytes_lt_trans(a.1, b.1, c.1);
        } else if a.1 == b.1 && b.1 == c.1 {
            lemma_bytes_lt_trans(a.2, b.2, c.2);
        }
    }
}

pub proof fn lemma_key_lt_total(a: RepoKey, b: RepoKey)
    ensures
        a == b || key_lt(a, b) || key_lt(b, a),
        !(key_lt(a, b) && key_lt(b, a)),
{
    lemma_bytes_lt_total(a.1, b.1);
    lemma_bytes_lt_total(a.2, b.2);
}

/// Compares two keys given by their parts.
pub fn compare_key_parts(a0: u64, a1: &[u8], a2: &[u8], b0: u64, b1: &[u8], b2: &[u8]) -> (c: i8)
    ensures
        c == 0 <==> (a0, a1@, a2@) == (b0, b1@, b2@),
        c < 0 <==> key_lt((a0, a1@, a2@), (b0, b1@, b2@)),
        c > 0 <==> key_lt((b0, b1@, b2@), (a0, a1@, a2@)),
{
    proof {
        lemma_key_lt_total((a0, a1@, a2@), (b0, b1@, b2@));
        lemma_bytes_lt_total(a1@, b1@);
        lemma_bytes_lt_total(a2@, b2@);
    }
    if a0 < b0 {
        -1
    } else if a0 > b0 {
        1
    } else {
        let c1 = compare_bytes(a1, b1);
        if c1 != 0 {
            c1
        } else {
            compare_bytes(a2, b2)
        }
    }
}

/// Byte strings as keys: the order is the same.
pub proof fn lemma_key_of_bytes(a: Seq<u8>, b: Seq<u8>)
    ensures
        key_lt((0, a, Seq::empty()), (0, b, Seq::empty())) == bytes_lt(a, b),
{
    lemma_bytes_lt_irreflexive(Seq::empty());
}

} // verus!
